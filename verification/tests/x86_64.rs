// What x86-64 comes out as. The bodies are built by hand, in the shape a
// lowering gives the sources named above them, and allocated and laid out as
// a whole program would be.

use fortec_mir::emit::body::Body;
use fortec_mir::emit::x86_64::{body, pool};
use fortec_mir::fixture::Fixture;
use fortec_mir::linear::{linearise, Line, Linear};
use fortec_mir::machine::{x86_64, Class, Reg};
use fortec_mir::mir_nodes::{
    MIRBinOp, MIRBody, MIRConst, MIRConstBody, MIRConstant, MIRInst, MIRInstKind, MIRReg, MIRScalar, MIRTerm,
    MIRUnOp,
};
use fortec_mir::regalloc::{allocate, Allocation, Where};

fn shown(held: &MIRBody) -> (String, Vec<String>) {
    let m = x86_64();
    let mut lin = linearise(held);
    let at = allocate(&mut lin, &m);
    let b = Body::new(&lin, &at, &m, 0);
    body(&b)
}

fn has(text: &str, want: &str) -> bool {
    text.lines().any(|line| line.trim() == want || line.contains(want))
}

// Every register of the body made `bytes` wide.
fn narrowed(mut held: MIRBody, bytes: usize) -> MIRBody {
    for one in held.regs.iter_mut() {
        one.bytes = bytes;
    }
    held
}

// fn f(a, b) { a <op> b }, at eight bytes.
fn two(op: MIRBinOp) -> MIRBody {
    let mut f = Fixture::new();
    let a = f.param();
    let b = f.param();
    let entry = f.block();
    let got = f.push(entry, MIRInstKind::Bin { op, lhs: a, rhs: b });
    f.term(entry, MIRTerm::Return(Some(got)));
    f.body(entry)
}

// fn f(a) { a }
fn echo() -> MIRBody {
    let mut f = Fixture::new();
    let a = f.param();
    let entry = f.block();
    f.term(entry, MIRTerm::Return(Some(a)));
    f.body(entry)
}

// fn f(v: <from>): <to> { v as <to> }
fn widening(from: usize, signed: bool, to: usize) -> MIRBody {
    let mut f = Fixture::new();
    let v = f.param();
    let entry = f.block();
    let got = f.push(
        entry,
        MIRInstKind::Convert {
            of: v,
            from: MIRScalar::Int { bytes: from, signed },
            to: MIRScalar::Int { bytes: to, signed },
        },
    );
    f.term(entry, MIRTerm::Return(Some(got)));
    let mut held = f.body(entry);
    held.regs[v].bytes = from;
    held.regs[got].bytes = to;
    held
}

// ---- The frame -------------------------------------------------------------

// fn f(a: i32): i32 { a }
#[test]
fn every_body_sets_up_a_frame_and_takes_it_down() {
    let (text, _) = shown(&narrowed(echo(), 4));
    assert!(has(&text, "pushq\t%rbp"), "{}", text);
    assert!(has(&text, "movq\t%rsp, %rbp"), "{}", text);
    assert!(has(&text, "leave"), "{}", text);
    assert!(has(&text, "ret"), "{}", text);
}

// fn f(a: i32, b: i32): i32 { a + b }
#[test]
fn a_body_with_nothing_to_hold_does_not_move_the_stack() {
    let (text, _) = shown(&narrowed(two(MIRBinOp::Add), 4));
    assert!(!has(&text, "subq\t$"), "{}", text);
}

// A body with a slot makes its room with one subtraction.
#[test]
fn a_body_that_wants_room_takes_it_in_one_go() {
    let mut f = Fixture::new();
    let a = f.param();
    let entry = f.block();
    let slot = f.slot("p", 16);
    let at = f.address(entry, slot);
    f.store(entry, at, a);
    let got = f.load(entry, at);
    f.term(entry, MIRTerm::Return(Some(got)));
    let (text, _) = shown(&f.body(entry));
    assert_eq!(text.lines().filter(|l| l.contains("subq\t$")).count(), 1, "{}", text);
}

// The whole of one small body, line for line.
#[test]
fn an_echo_comes_out_line_for_line_on_x86_64() {
    let (text, said) = shown(&echo());
    let want = "\t.text\n\t.globl\t__F1t\n\t.type\t__F1t, @function\n__F1t:\n\
                \tpushq\t%rbp\n\tmovq\t%rsp, %rbp\n\tmovq\t%rdi, %rax\n.LB0_0:\n\
                \tleave\n\tret\n\t.size\t__F1t, .-__F1t\n";
    assert_eq!(text, want);
    assert!(said.is_empty(), "{:?}", said);
}

// ---- The calling convention ------------------------------------------------

// fn f(a: i64, b: i64): i64 { a - b }
#[test]
fn a_parameter_is_moved_out_of_the_register_it_arrived_in() {
    let (text, _) = shown(&two(MIRBinOp::Sub));
    assert!(has(&text, "%rdi"), "the first argument register is never read: {}", text);
    assert!(has(&text, "%rsi"), "{}", text);
}

// fn f(a: i64): i64 { a }
#[test]
fn an_answer_goes_back_in_the_register_a_caller_reads() {
    let (text, _) = shown(&echo());
    let at = text.find("leave").expect("an epilogue");
    assert!(text[..at].contains("%rax"), "{}", text);
}

// fn g(x: i32): i32 { x }  fn f(): i32 { g(1) }
#[test]
fn a_call_names_the_symbol_it_calls() {
    let mut f = Fixture::new();
    let entry = f.block();
    let one = f.integer(entry, 1);
    let got = f.call(entry, "__F1t1g3i32", vec![one]);
    f.term(entry, MIRTerm::Return(Some(got)));
    let (text, said) = shown(&narrowed(f.body(entry), 4));
    assert!(has(&text, "call\t__F1t1g3i32"), "{}", text);
    assert!(said.is_empty(), "{:?}", said);
}

// A call with more arguments than there are registers is not written, and
// is said.
#[test]
fn a_call_with_an_argument_for_the_stack_is_refused() {
    let mut f = Fixture::new();
    let entry = f.block();
    let one = f.integer(entry, 1);
    let got = f.call(entry, "g", vec![one; 7]);
    f.term(entry, MIRTerm::Return(Some(got)));
    let (text, said) = shown(&f.body(entry));
    assert!(!has(&text, "call\t"), "{}", text);
    assert_eq!(said.len(), 1, "{:?}", said);
    assert!(said[0].contains("a call with 7 arguments"), "{:?}", said);
}

// ---- The instructions this machine has to work around ----------------------

// fn f(a: i32, b: i32): i32 { a / b }
#[test]
fn a_division_puts_the_registers_it_insists_on_out_of_the_way() {
    let (text, _) = shown(&narrowed(two(MIRBinOp::SDiv), 4));
    assert!(has(&text, "pushq\t%rax"), "{}", text);
    assert!(has(&text, "pushq\t%rdx"), "{}", text);
    assert!(has(&text, "cltd"), "{}", text);
    assert!(has(&text, "idivl"), "{}", text);
    assert!(has(&text, "popq\t%rdx"), "{}", text);
}

// fn f(a: u32, b: u32): u32 { a / b }
#[test]
fn an_unsigned_division_clears_the_top_half_rather_than_extending_it() {
    let (text, _) = shown(&narrowed(two(MIRBinOp::UDiv), 4));
    assert!(has(&text, "xorl\t%edx, %edx"), "{}", text);
    assert!(has(&text, "divl"), "{}", text);
    assert!(!has(&text, "cltd"), "an unsigned dividend has no sign to extend: {}", text);
}

// fn f(a: i64, b: i64): i64 { a << b }
#[test]
fn a_shift_puts_its_count_where_the_machine_insists() {
    let (text, _) = shown(&two(MIRBinOp::Shl));
    assert!(has(&text, "pushq\t%rcx"), "{}", text);
    assert!(has(&text, "%cl"), "{}", text);
    assert!(has(&text, "popq\t%rcx"), "{}", text);
}

// ---- Widths ----------------------------------------------------------------

#[test]
fn the_width_of_a_value_is_the_width_of_its_instruction() {
    let (text, _) = shown(&narrowed(two(MIRBinOp::Add), 4));
    assert!(has(&text, "addl"), "{}", text);
    assert!(!has(&text, "addq"), "{}", text);

    let (text, _) = shown(&two(MIRBinOp::Add));
    assert!(has(&text, "addq"), "{}", text);
}

// A one-byte field read through a pointer into an eight-byte register.
#[test]
fn a_narrow_load_says_how_narrow_it_is() {
    let mut f = Fixture::new();
    let p = f.param();
    let entry = f.block();
    let got = f.push(entry, MIRInstKind::Load { from: p, bytes: 1 });
    f.term(entry, MIRTerm::Return(Some(got)));
    let (text, _) = shown(&f.body(entry));
    assert!(has(&text, "movb") || has(&text, "movzb"), "{}", text);
}

// fn f(v: bool): i64 { v as i64 }
#[test]
fn a_byte_widened_to_eight_does_not_name_two_widths_in_one_move() {
    let (text, _) = shown(&widening(1, false, 8));
    assert!(!has(&text, "movl\t%al,"), "{}", text);
    assert!(has(&text, "movzb"), "{}", text);
}

// Every widening names one extension, of the two widths it joins; from four
// bytes to eight without a sign it is a plain four-byte move.
#[test]
fn every_width_widens_to_something_an_assembler_takes() {
    for (from, signed, to, want) in [
        (1, false, 8, "movzbq"),
        (2, false, 8, "movzwq"),
        (4, false, 8, "movl"),
        (1, true, 8, "movsbq"),
        (2, true, 8, "movswq"),
        (4, true, 8, "movslq"),
        (1, false, 4, "movzbl"),
    ] {
        let (text, _) = shown(&widening(from, signed, to));
        assert!(has(&text, want), "{} from {} to {}: {}", want, from, to, text);
        assert!(!has(&text, "movzlq"), "{}", text);
    }
}

// A float constant is read from a literal of its own under the body, and a
// float negated is an exclusive or with the sign bit.
#[test]
fn a_float_constant_and_a_negation_read_literals_under_the_body() {
    let mut f = Fixture::new();
    let entry = f.block();
    let x = f.floating();
    f.making(entry, x, MIRInstKind::Const(MIRConst::Float(0x4000_0000_0000_0000)));
    let got = f.push(entry, MIRInstKind::Un { op: MIRUnOp::FNeg, operand: x });
    f.term(entry, MIRTerm::Return(Some(got)));
    let (text, _) = shown(&f.body(entry));
    assert!(has(&text, "movsd\t.LC0_0(%rip), "), "{}", text);
    assert!(has(&text, "xorpd\t.LCn0_1(%rip), "), "{}", text);
    assert!(has(&text, ".section\t.rodata"), "{}", text);
    assert!(has(&text, ".LC0_0:"), "{}", text);
    assert!(has(&text, ".quad\t4611686018427387904"), "{}", text);
    assert!(has(&text, ".quad\t-9223372036854775808"), "{}", text);
}

// ---- The pool --------------------------------------------------------------

#[test]
fn a_string_goes_in_a_section_nothing_writes_to() {
    let held = vec![MIRConstant { symbol: "__S0".to_string(), held: MIRConstBody::Bytes(b"hi".to_vec()) }];
    let text = pool(&held);
    assert!(has(&text, ".section\t.rodata"), "{}", text);
    assert!(has(&text, ".byte"), "{}", text);
    assert!(has(&text, ".align\t8"), "{}", text);
}

// fn f(): i32 { 1 }
#[test]
fn every_body_is_given_a_name_the_linker_can_see() {
    let mut f = Fixture::new();
    let entry = f.block();
    let one = f.integer(entry, 1);
    f.term(entry, MIRTerm::Return(Some(one)));
    let mut held = narrowed(f.body(entry), 4);
    held.symbol = "__F1t1f".to_string();
    let (text, _) = shown(&held);
    assert!(has(&text, ".globl\t__F1t1f"), "{}", text);
    assert!(has(&text, ".type\t__F1t1f, @function"), "{}", text);
}

// ---- The three registers a copy insists on -----------------------------------

#[test]
fn a_copy_reads_both_addresses_before_it_writes_either() {
    let mut f = Fixture::new();
    let to = f.param();
    let from = f.param();
    let entry = f.block();
    f.effect(entry, MIRInstKind::Copy { to, from, bytes: 16 });
    f.term(entry, MIRTerm::Return(None));
    let (text, _) = shown(&f.body(entry));
    let held: Vec<&str> = text
        .lines()
        .map(|line| line.trim())
        .filter(|line| line.starts_with("movq") && (line.ends_with("%rdi") || line.ends_with("%rsi")))
        .collect();
    assert!(!held.is_empty(), "nothing sets up a copy: {}", text);
    for line in held {
        let from = line.split_whitespace().nth(1).unwrap_or("").trim_end_matches(',');
        assert!(from == "%r10" || from == "%r11", "a copy reads its address out of {}: {}", from, line);
    }
    assert!(has(&text, "rep movsb"), "{}", text);
}

// ---- The two registers the divide names for itself ---------------------------

fn divisors(text: &str) -> Vec<String> {
    text.lines()
        .map(str::trim)
        .filter(|line| line.starts_with("idiv") || line.starts_with("div"))
        .filter_map(|line| line.split_whitespace().nth(1).map(str::to_string))
        .collect()
}

fn gp(name: &'static str) -> Reg {
    Reg { name, class: Class::Int }
}

fn divided(lhs: Reg, rhs: Reg, op: MIRBinOp) -> String {
    let regs = vec![MIRReg::one(Class::Int, 8, 1, 1); 3];
    let held = Linear {
        symbol: "__F1t1f".to_string(),
        regs,
        frame: Vec::new(),
        params: Vec::new(),
        lines: vec![Line::Inst(MIRInst { def: Some(0), kind: MIRInstKind::Bin { op, lhs: 1, rhs: 2 }, line: 1, col: 1 })],
    };
    let at = Allocation { at: vec![Where::In(gp("rcx")), Where::In(lhs), Where::In(rhs)], spills: 0, most: 3 };
    let m = x86_64();
    let b = Body::new(&held, &at, &m, 0);
    body(&b).0
}

#[test]
fn a_divisor_in_a_register_the_divide_writes_is_moved_out_of_the_way() {
    for op in [MIRBinOp::SDiv, MIRBinOp::SRem, MIRBinOp::UDiv, MIRBinOp::URem] {
        for (lhs, rhs) in
            [(gp("r8"), gp("rdx")), (gp("r8"), gp("rax")), (gp("rax"), gp("rdx")), (gp("rdx"), gp("rax"))]
        {
            let out = divided(lhs, rhs, op);
            let seen = divisors(&out);
            assert_eq!(seen.len(), 1, "{}", out);
            for held in seen {
                assert!(
                    !matches!(held.as_str(), "%rax" | "%eax" | "%rdx" | "%edx"),
                    "{:?} with the divisor in {} reads {}:\n{}",
                    op,
                    rhs.name,
                    held,
                    out
                );
            }
        }
    }
}

#[test]
fn a_divide_never_reads_the_registers_it_writes_for_itself() {
    for op in [MIRBinOp::SDiv, MIRBinOp::SRem, MIRBinOp::UDiv, MIRBinOp::URem] {
        for held in [two(op), narrowed(two(op), 4)] {
            let (text, _) = shown(&held);
            for one in divisors(&text) {
                assert!(
                    !matches!(one.as_str(), "%rax" | "%eax" | "%rdx" | "%edx"),
                    "a divide reads {}, which it writes for itself:\n{}",
                    one,
                    text
                );
            }
        }
    }
}

// The divide of one small body, line for line: the divisor comes out of
// `%rsi`, which the divide does not touch, and the quotient is put back.
#[test]
fn a_divide_comes_out_line_for_line() {
    let out = divided(gp("r8"), gp("rdx"), MIRBinOp::SDiv);
    let want = "\t.text\n\t.globl\t__F1t1f\n\t.type\t__F1t1f, @function\n__F1t1f:\n\
                \tpushq\t%rbp\n\tmovq\t%rsp, %rbp\n\
                \tpushq\t%rax\n\tpushq\t%rdx\n\tmovq\t%rdx, %r11\n\tmovq\t%r8, %rax\n\
                \tcqto\n\tidivq\t%r11\n\tmovq\t%rax, %r10\n\tpopq\t%rdx\n\tpopq\t%rax\n\
                \tmovq\t%r10, %rcx\n\t.size\t__F1t1f, .-__F1t1f\n";
    assert_eq!(out, want);
}
