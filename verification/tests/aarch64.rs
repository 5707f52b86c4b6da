// What aarch64 comes out as. The bodies are built by hand, in the shape a
// lowering gives the sources named above them, and allocated and laid out as
// a whole program would be.

use fortec_mir::emit::aarch64::body;
use fortec_mir::emit::body::Body;
use fortec_mir::fixture::Fixture;
use fortec_mir::linear::{linearise, Line, Linear};
use fortec_mir::machine::{aarch64, Class, Reg};
use fortec_mir::mir_nodes::{
    MIRBinOp, MIRBody, MIRCmpOp, MIRConst, MIRInst, MIRInstKind, MIRReg, MIRScalar, MIRSlot, MIRTerm,
};
use fortec_mir::regalloc::{allocate, Allocation, Where};

fn shown(held: &MIRBody) -> (String, Vec<String>) {
    let m = aarch64();
    let mut lin = linearise(held);
    let at = allocate(&mut lin, &m);
    let b = Body::new(&lin, &at, &m, 0);
    body(&b)
}

fn has(text: &str, want: &str) -> bool {
    text.lines().any(|line| line.contains(want))
}

// fn f(a: i64, b: i64): i64 { a % b }
fn remainder() -> MIRBody {
    let mut f = Fixture::new();
    let a = f.param();
    let b = f.param();
    let entry = f.block();
    let r = f.push(entry, MIRInstKind::Bin { op: MIRBinOp::SRem, lhs: a, rhs: b });
    f.term(entry, MIRTerm::Return(Some(r)));
    f.body(entry)
}

// ---- The frame -------------------------------------------------------------

// fn f(a: i32): i32 { a }
#[test]
fn every_body_saves_what_it_has_to_and_puts_it_back() {
    let mut f = Fixture::new();
    let a = f.param();
    let entry = f.block();
    f.term(entry, MIRTerm::Return(Some(a)));
    let (text, _) = shown(&f.body(entry));
    // The frame pointer and the link register go down together and come back
    // together, which is what this machine's pair instructions are for.
    assert!(has(&text, "stp\tx29, x30, [sp, #-16]!"), "{}", text);
    assert!(has(&text, "mov\tx29, sp"), "{}", text);
    assert!(has(&text, "ldp\tx29, x30, [sp], #16"), "{}", text);
    assert!(has(&text, "ret"), "{}", text);
}

// ---- The instructions ------------------------------------------------------

// A remainder is two instructions here and no registers are put out of the
// way: the quotient, and the dividend less the quotient times the divisor.
#[test]
fn a_remainder_is_a_divide_and_a_multiply_subtract() {
    let (text, _) = shown(&remainder());
    assert!(has(&text, "sdiv"), "{}", text);
    assert!(has(&text, "msub"), "{}", text);
    assert!(!has(&text, "push"), "nothing has to be got out of the way: {}", text);
}

// The whole of one small body, line for line.
#[test]
fn a_remainder_body_comes_out_line_for_line() {
    let (text, said) = shown(&remainder());
    let want = "\t.text\n\t.globl\t__F1t\n\t.type\t__F1t, @function\n__F1t:\n\
                \tstp\tx29, x30, [sp, #-16]!\n\tmov\tx29, sp\n.LB0_0:\n\
                \tsdiv\tx8, x0, x1\n\tmsub\tx2, x8, x1, x0\n\tmov\tx0, x2\n\
                \tmov\tsp, x29\n\tldp\tx29, x30, [sp], #16\n\tret\n\t.size\t__F1t, .-__F1t\n";
    assert_eq!(text, want);
    assert!(said.is_empty(), "{:?}", said);
}

// fn f(a: i32, b: i32): i32 { if a < b { 1 } else { 0 } }
//
// A comparison sets flags and `cset` reads them, which is the shape x86-64 has
// too and RISC-V does not.
#[test]
fn a_comparison_sets_flags_and_a_register_is_set_from_them() {
    let mut f = Fixture::new();
    let a = f.param();
    let b = f.param();
    let (entry, then, els) = (f.block(), f.block(), f.block());
    let c = f.less(entry, a, b);
    f.term(entry, MIRTerm::Branch { cond: c, then, els });
    let one = f.integer(then, 1);
    f.term(then, MIRTerm::Return(Some(one)));
    let zero = f.integer(els, 0);
    f.term(els, MIRTerm::Return(Some(zero)));
    let (text, _) = shown(&f.body(entry));
    assert!(has(&text, "cmp\t"), "{}", text);
    assert!(has(&text, "cset"), "{}", text);
    assert!(has(&text, "cbnz"), "{}", text);
}

// fn f(): i64 { 1234605616436508552 }
//
// A wide constant is built sixteen bits at a time, there being no instruction
// that takes a whole one.
#[test]
fn a_wide_constant_is_built_a_piece_at_a_time() {
    let mut f = Fixture::new();
    let entry = f.block();
    let n = f.integer(entry, 1234605616436508552);
    f.term(entry, MIRTerm::Return(Some(n)));
    let (text, _) = shown(&f.body(entry));
    assert!(has(&text, "movz"), "{}", text);
    assert!(has(&text, "movk"), "{}", text);
    // 0x1122334455667788, a piece at a time from the bottom.
    assert!(has(&text, ", #30600, lsl #0"), "{}", text);
    assert!(has(&text, ", #21862, lsl #16"), "{}", text);
    assert!(has(&text, ", #13124, lsl #32"), "{}", text);
    assert!(has(&text, ", #4386, lsl #48"), "{}", text);
}

// fn f(): i64 { 7 }
//
// A small one is one instruction, or every nought in a program would be four.
#[test]
fn a_small_constant_is_one_instruction() {
    let mut f = Fixture::new();
    let entry = f.block();
    let n = f.integer(entry, 7);
    f.term(entry, MIRTerm::Return(Some(n)));
    let (text, _) = shown(&f.body(entry));
    assert_eq!(text.lines().filter(|l| l.contains("movk")).count(), 0, "{}", text);
    assert!(has(&text, ", #7, lsl #0"), "{}", text);
}

// A constant of nothing but noughts is still a constant.
#[test]
fn a_nought_is_one_movz() {
    let mut f = Fixture::new();
    let entry = f.block();
    let n = f.integer(entry, 0);
    f.term(entry, MIRTerm::Return(Some(n)));
    let (text, _) = shown(&f.body(entry));
    assert!(text.lines().any(|l| l.starts_with("\tmovz\t") && l.ends_with(", #0")), "{}", text);
    assert_eq!(text.matches("movz").count(), 1, "{}", text);
    assert!(!has(&text, "movk"), "{}", text);
}

// fn f(): i64 { 65536 }
//
// Nought pieces are skipped, the low one too: the first instruction puts down
// the lowest piece that is not nought.
#[test]
fn a_nought_low_piece_is_skipped() {
    let mut f = Fixture::new();
    let entry = f.block();
    let n = f.integer(entry, 0x10000);
    f.term(entry, MIRTerm::Return(Some(n)));
    let (text, _) = shown(&f.body(entry));
    assert!(has(&text, ", #1, lsl #16"), "{}", text);
    assert!(text.lines().any(|l| l.starts_with("\tmovz\t") && l.ends_with(", #1, lsl #16")), "{}", text);
    assert!(!has(&text, "lsl #0"), "{}", text);
    assert!(!has(&text, "movk"), "{}", text);
}

// fn f(): str { "hi" }
//
// An address is a page and then the rest of the way, this machine having no
// instruction that reaches an arbitrary symbol.
#[test]
fn a_symbol_is_reached_in_two_steps() {
    let mut f = Fixture::new();
    let entry = f.block();
    let at = f.push(entry, MIRInstKind::Symbol("__S1t2hi".to_string()));
    f.term(entry, MIRTerm::Return(Some(at)));
    let (text, _) = shown(&f.body(entry));
    assert!(has(&text, "adrp"), "{}", text);
    assert!(has(&text, ":lo12:"), "{}", text);
    assert!(has(&text, ", __S1t2hi"), "{}", text);
    assert!(has(&text, ", :lo12:__S1t2hi"), "{}", text);
}

// fn f(a: i64, b: i64): i64 { a + b }
//
// The destination is written first, which is the opposite of the other file
// here and is the one thing most likely to be got backwards.
#[test]
fn the_destination_comes_first() {
    let mut f = Fixture::new();
    let a = f.param();
    let b = f.param();
    let entry = f.block();
    let got = f.add(entry, a, b);
    f.term(entry, MIRTerm::Return(Some(got)));
    let (text, _) = shown(&f.body(entry));
    let held = text.lines().find(|l| l.contains("add\tx")).expect("an add");
    let parts: Vec<&str> = held.split_whitespace().collect();
    assert_eq!(parts.len(), 4, "three operands: {}", held);
}

// ---- What is said rather than written --------------------------------------

// fn f(): i64 { g(n, n, n, n, n, n, n, n, n) }
//
// Nine integer arguments and eight registers to pass them in: nothing here
// puts one on the stack, so the call is not written, and that is said.
#[test]
fn a_call_with_more_arguments_than_registers_is_said_and_not_written() {
    let mut f = Fixture::new();
    let entry = f.block();
    let n = f.integer(entry, 1);
    let args: Vec<usize> = (0..9).map(|_| n).collect();
    let got = f.call(entry, "g", args);
    f.term(entry, MIRTerm::Return(Some(got)));
    let (text, said) = shown(&f.body(entry));
    assert_eq!(
        said,
        vec!["__F1t: a call with 9 arguments is not emitted -- nothing here puts one on the stack".to_string()]
    );
    assert!(!has(&text, "\tbl\t"), "{}", text);
}

// Eight arguments fit, and go in the first eight registers.
#[test]
fn a_call_with_as_many_arguments_as_registers_is_written() {
    let mut f = Fixture::new();
    let entry = f.block();
    let n = f.integer(entry, 1);
    let args: Vec<usize> = (0..8).map(|_| n).collect();
    let got = f.call(entry, "g", args);
    f.term(entry, MIRTerm::Return(Some(got)));
    let (text, said) = shown(&f.body(entry));
    assert!(said.is_empty(), "{:?}", said);
    assert!(has(&text, "\tbl\tg"), "{}", text);
    assert!(has(&text, "x7"), "{}", text);
}

// ---- The frame, by hand ----------------------------------------------------

fn reg(class: Class) -> MIRReg {
    MIRReg { class, bytes: 8, lanes: 1, line: 1, col: 1 }
}

fn inst(def: Option<usize>, kind: MIRInstKind) -> Line {
    Line::Inst(MIRInst { def, kind, line: 1, col: 1 })
}

// A value kept in a slot past the reach of a load's short form: the address is
// worked out into a scratch register first, not written as an offset the
// assembler would refuse.
#[test]
fn a_slot_past_the_short_reach_is_addressed_through_a_scratch_register() {
    let held = Linear {
        symbol: "__F1t".to_string(),
        regs: vec![reg(Class::Int), reg(Class::Int)],
        frame: vec![MIRSlot { bytes: 400, align: 8, name: "x".to_string(), spill: false }],
        params: vec![],
        lines: vec![
            Line::Label(0),
            inst(Some(0), MIRInstKind::Const(MIRConst::Int(5))),
            inst(Some(1), MIRInstKind::Move(0)),
            Line::Term(MIRTerm::Return(Some(1))),
        ],
    };
    let x0 = Reg { name: "x0", class: Class::Int };
    let at = Allocation { at: vec![Where::In(x0), Where::Spilled(0)], spills: 1, most: 2 };
    let m = aarch64();
    let b = Body::new(&held, &at, &m, 0);
    assert_eq!(b.offsets, vec![400]);
    let (text, _) = body(&b);
    assert!(has(&text, "\tmov\tx16, x0"), "{}", text);
    assert!(has(&text, "\tsub\tx8, x29, #400"), "{}", text);
    assert!(has(&text, "\tstr\tx16, [x8]"), "{}", text);
    assert!(has(&text, "\tldr\tx16, [x8]"), "{}", text);
    assert!(has(&text, "\tmov\tx0, x16"), "{}", text);
    assert!(!has(&text, "#-400"), "{}", text);
}

// A block copy past the window steps both addresses rather than writing an
// offset no load takes.
#[test]
fn a_copy_past_the_window_steps_the_addresses() {
    let held = Linear {
        symbol: "__F1t".to_string(),
        regs: vec![reg(Class::Int), reg(Class::Int)],
        frame: vec![],
        params: vec![0, 1],
        lines: vec![
            Line::Label(0),
            inst(None, MIRInstKind::Copy { to: 0, from: 1, bytes: 5000 }),
            Line::Term(MIRTerm::Return(None)),
        ],
    };
    let x0 = Reg { name: "x0", class: Class::Int };
    let x1 = Reg { name: "x1", class: Class::Int };
    let at = Allocation { at: vec![Where::In(x0), Where::In(x1)], spills: 0, most: 2 };
    let m = aarch64();
    let b = Body::new(&held, &at, &m, 0);
    let (text, _) = body(&b);
    // The addresses go into the scratch registers, where they may step.
    assert!(has(&text, "\tmov\tx17, x1"), "{}", text);
    assert!(has(&text, "\tmov\tx16, x0"), "{}", text);
    assert!(has(&text, "\tadd\tx17, x17, #4032"), "{}", text);
    assert!(has(&text, "\tadd\tx16, x16, #4032"), "{}", text);
    // 5000 bytes is 625 words, and nothing past the window is an offset.
    assert_eq!(text.lines().filter(|l| l.starts_with("\tldr\t")).count(), 625, "{}", text);
    for line in text.lines().filter(|l| l.starts_with("\tldr\t") || l.starts_with("\tstr\t")) {
        let off: usize = line.rsplit('#').next().unwrap().trim_end_matches(']').parse().unwrap();
        assert!(off < 4032, "{}", line);
    }
}

// A float constant goes in through an integer register and across.
#[test]
fn a_float_constant_goes_through_an_integer_register() {
    let held = Linear {
        symbol: "__F1t".to_string(),
        regs: vec![reg(Class::Float)],
        frame: vec![],
        params: vec![],
        lines: vec![
            Line::Label(0),
            inst(Some(0), MIRInstKind::Const(MIRConst::Float(0x3ff0000000000000))),
            Line::Term(MIRTerm::Return(Some(0))),
        ],
    };
    let d0 = Reg { name: "d0", class: Class::Float };
    let at = Allocation { at: vec![Where::In(d0)], spills: 0, most: 1 };
    let m = aarch64();
    let b = Body::new(&held, &at, &m, 0);
    let (text, _) = body(&b);
    assert!(has(&text, "\tmovz\tx16, #16368, lsl #48"), "{}", text);
    assert!(!has(&text, "movk"), "{}", text);
    assert!(has(&text, "\tfmov\td0, x16"), "{}", text);
}

// A signed eight-byte integer to a float, and a comparison of two floats that
// an unordered operand has to come out false for.
#[test]
fn a_conversion_and_a_float_comparison_use_their_own_mnemonics() {
    let held = Linear {
        symbol: "__F1t".to_string(),
        regs: vec![reg(Class::Int), reg(Class::Float), reg(Class::Int)],
        frame: vec![],
        params: vec![0],
        lines: vec![
            Line::Label(0),
            inst(
                Some(1),
                MIRInstKind::Convert { of: 0, from: MIRScalar::Int { bytes: 8, signed: true }, to: MIRScalar::Float { bytes: 8 } },
            ),
            inst(Some(2), MIRInstKind::Cmp { op: MIRCmpOp::FLt, lhs: 1, rhs: 1 }),
            Line::Term(MIRTerm::Return(Some(2))),
        ],
    };
    let x0 = Reg { name: "x0", class: Class::Int };
    let d1 = Reg { name: "d1", class: Class::Float };
    let x2 = Reg { name: "x2", class: Class::Int };
    let at = Allocation { at: vec![Where::In(x0), Where::In(d1), Where::In(x2)], spills: 0, most: 3 };
    let m = aarch64();
    let b = Body::new(&held, &at, &m, 0);
    let (text, _) = body(&b);
    assert!(has(&text, "\tscvtf\td1, x0"), "{}", text);
    assert!(has(&text, "\tfcmp\td1, d1"), "{}", text);
    assert!(has(&text, "\tcset\tw2, mi"), "{}", text);
}
