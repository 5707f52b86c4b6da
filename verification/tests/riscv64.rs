// What riscv64 comes out as. The bodies are built by hand, in the shape a
// lowering gives the sources named above them, and allocated and laid out as
// a whole program would be.

use fortec_mir::emit::body::Body;
use fortec_mir::emit::riscv64::body;
use fortec_mir::fixture::Fixture;
use fortec_mir::linear::{linearise, Line, Linear};
use fortec_mir::machine::{riscv64, Class, Reg};
use fortec_mir::mir_nodes::{
    MIRBinOp, MIRBody, MIRCmpOp, MIRConst, MIRInst, MIRInstKind, MIRReg, MIRScalar, MIRTerm,
};
use fortec_mir::regalloc::{allocate, Allocation, Where};

fn shown(held: &MIRBody) -> (String, Vec<String>) {
    let m = riscv64();
    let mut lin = linearise(held);
    let at = allocate(&mut lin, &m);
    let b = Body::new(&lin, &at, &m, 0);
    body(&b)
}

fn has(text: &str, want: &str) -> bool {
    text.lines().any(|line| line.contains(want))
}

// Every register of the body made `bytes` wide.
fn narrowed(mut held: MIRBody, bytes: usize) -> MIRBody {
    for one in held.regs.iter_mut() {
        one.bytes = bytes;
    }
    held
}

// fn f(a, b) { a <op> b }, at eight bytes.
fn two(op: MIRBinOp) -> MIRBody {
    let mut f = Fixture::new();
    let a = f.param();
    let b = f.param();
    let entry = f.block();
    let got = f.push(entry, MIRInstKind::Bin { op, lhs: a, rhs: b });
    f.term(entry, MIRTerm::Return(Some(got)));
    f.body(entry)
}

// fn f(a, b) { if a <op> b { 1 } else { 0 } }
fn choice(op: MIRCmpOp) -> MIRBody {
    let mut f = Fixture::new();
    let a = f.param();
    let b = f.param();
    let (entry, then, els) = (f.block(), f.block(), f.block());
    let c = f.push(entry, MIRInstKind::Cmp { op, lhs: a, rhs: b });
    f.term(entry, MIRTerm::Branch { cond: c, then, els });
    let one = f.integer(then, 1);
    f.term(then, MIRTerm::Return(Some(one)));
    let zero = f.integer(els, 0);
    f.term(els, MIRTerm::Return(Some(zero)));
    f.body(entry)
}

// ---- The frame -------------------------------------------------------------

// fn f(a: i32): i32 { a }
#[test]
fn tests_every_body_saves_what_it_has_to_and_puts_it_back() {
    let mut f = Fixture::new();
    let a = f.param();
    let entry = f.block();
    f.term(entry, MIRTerm::Return(Some(a)));
    let (text, _) = shown(&narrowed(f.body(entry), 4));
    assert!(has(&text, "sd\tra, 8(sp)"), "{}", text);
    assert!(has(&text, "sd\ts0, 0(sp)"), "{}", text);
    assert!(has(&text, "ld\ts0, 0(sp)"), "{}", text);
    assert!(has(&text, "ret"), "{}", text);
}

// The whole of one small body, line for line.
#[test]
fn a_body_that_hands_its_argument_back_comes_out_line_for_line() {
    let mut f = Fixture::new();
    let a = f.param();
    let entry = f.block();
    f.term(entry, MIRTerm::Return(Some(a)));
    let (text, said) = shown(&f.body(entry));
    let want = "\t.text\n\t.globl\t__F1t\n\t.type\t__F1t, @function\n__F1t:\n\
                \taddi\tsp, sp, -16\n\tsd\tra, 8(sp)\n\tsd\ts0, 0(sp)\n\taddi\ts0, sp, 0\n\
                .LB0_0:\n\
                \taddi\tsp, s0, 0\n\tld\ts0, 0(sp)\n\tld\tra, 8(sp)\n\taddi\tsp, sp, 16\n\tret\n\
                \t.size\t__F1t, .-__F1t\n";
    assert_eq!(text, want);
    assert!(said.is_empty(), "{:?}", said);
}

// ---- The instructions ------------------------------------------------------

// fn f(a: i32, b: i32): i32 { if a < b { 1 } else { 0 } }
//
// No flags at all: a comparison writes a one or a nought into a register,
// which is what the MIR's own comparison already means, and a branch is on
// that value.
#[test]
fn a_comparison_is_a_value_and_the_branch_is_on_it() {
    let (text, _) = shown(&narrowed(choice(MIRCmpOp::SLt), 4));
    assert!(has(&text, "slt"), "{}", text);
    assert!(has(&text, "bnez"), "{}", text);
    assert!(!has(&text, "cmp"), "there is nothing to compare against: {}", text);
    // Four bytes, so each side is extended with its sign before `slt` reads
    // all sixty-four bits.
    assert!(has(&text, "sext.w"), "{}", text);
}

// fn f(a: i64, b: i64): i32 { if a == b { 1 } else { 0 } }
//
// Equality has no instruction, so it is a difference and a test against
// nought.
#[test]
fn equality_is_a_difference_that_is_nought() {
    let (text, _) = shown(&choice(MIRCmpOp::Eq));
    assert!(has(&text, "xor"), "{}", text);
    assert!(has(&text, "seqz"), "{}", text);
}

// fn f(a: i64, b: i64): i64 { a % b }
//
// A remainder has an instruction of its own here, where aarch64 needs two.
#[test]
fn a_remainder_is_one_instruction() {
    let (text, _) = shown(&two(MIRBinOp::SRem));
    assert!(has(&text, "rem\t"), "{}", text);
}

// fn f(a: i32, b: i32): i32 { a + b } and the same at eight bytes.
//
// The `w` forms are the only narrow arithmetic there is, and they leave the
// answer sign-extended through the register.
#[test]
fn a_four_byte_operation_uses_the_narrow_form() {
    let (text, _) = shown(&narrowed(two(MIRBinOp::Add), 4));
    assert!(has(&text, "addw"), "{}", text);
    let (text, _) = shown(&two(MIRBinOp::Add));
    assert!(has(&text, "add\t"), "{}", text);
    assert!(!has(&text, "addw"), "{}", text);
}

// fn f(a: i32, b: i32): i32 { a & b }
//
// Bitwise operations have no narrow form and want none.
#[test]
fn a_bitwise_operation_has_no_narrow_form() {
    let (text, _) = shown(&narrowed(two(MIRBinOp::And), 4));
    assert!(has(&text, "and\t"), "{}", text);
    assert!(!has(&text, "andw"), "{}", text);
}

// A struct of four hundred words carried from one slot to another: the copy
// is bigger than the offsets a load or a store reach, so past the window the
// addresses step instead.
#[test]
fn a_copy_too_big_for_one_run_of_offsets_steps_the_addresses() {
    let mut f = Fixture::new();
    let entry = f.block();
    let from = f.slot("w", 3200);
    let to = f.slot("v", 3200);
    let a = f.address(entry, from);
    let c = f.address(entry, to);
    f.effect(entry, MIRInstKind::Copy { to: c, from: a, bytes: 3200 });
    f.term(entry, MIRTerm::Return(None));
    let (text, _) = shown(&f.body(entry));
    let mut seen = 0;
    for line in text.lines() {
        let held = line.trim();
        let Some(at) = held.rfind(", ") else { continue };
        let rest = &held[at + 2..];
        let Some(end) = rest.find('(') else { continue };
        let Ok(off) = rest[..end].parse::<i64>() else { continue };
        seen += 1;
        assert!((-2048..=2047).contains(&off), "`{}` is past the twelve bits signed an offset here has", held);
    }
    assert!(seen >= 800, "{}", text);
    assert!(has(&text, "\taddi\tt1, t1, 2016"), "{}", text);
    assert!(has(&text, "\taddi\tt0, t0, 2016"), "{}", text);
}

// ---- By hand -----------------------------------------------------------------

fn reg(class: Class, bytes: usize) -> MIRReg {
    MIRReg { class, bytes, lanes: 1, line: 1, col: 1 }
}

fn inst(def: Option<usize>, kind: MIRInstKind) -> Line {
    Line::Inst(MIRInst { def, kind, line: 1, col: 1 })
}

// A float to an integer rounds towards nought, which is not this machine's
// default; a constant float goes in through an integer register.
#[test]
fn a_float_to_an_integer_rounds_towards_nought() {
    let held = Linear {
        symbol: "__F1t".to_string(),
        regs: vec![reg(Class::Float, 8), reg(Class::Int, 4)],
        frame: vec![],
        params: vec![],
        lines: vec![
            Line::Label(0),
            inst(Some(0), MIRInstKind::Const(MIRConst::Float(0x4000000000000000))),
            inst(
                Some(1),
                MIRInstKind::Convert { of: 0, from: MIRScalar::Float { bytes: 8 }, to: MIRScalar::Int { bytes: 4, signed: true } },
            ),
            Line::Term(MIRTerm::Return(Some(1))),
        ],
    };
    let fa0 = Reg { name: "fa0", class: Class::Float };
    let a0 = Reg { name: "a0", class: Class::Int };
    let at = Allocation { at: vec![Where::In(fa0), Where::In(a0)], spills: 0, most: 2 };
    let m = riscv64();
    let b = Body::new(&held, &at, &m, 0);
    let (text, _) = body(&b);
    assert!(has(&text, "\tli\tt0, 4611686018427387904"), "{}", text);
    assert!(has(&text, "\tfmv.d.x\tfa0, t0"), "{}", text);
    assert!(has(&text, "\tfcvt.w.d\ta0, fa0, rtz"), "{}", text);
}

// A slot far down the frame is worked out into a scratch register first.
#[test]
fn a_slot_past_two_kilobytes_is_reached_through_a_scratch_register() {
    let mut f = Fixture::new();
    let entry = f.block();
    let _near = f.slot("near", 3000);
    let far = f.slot("far", 8);
    let at = f.address(entry, far);
    f.term(entry, MIRTerm::Return(Some(at)));
    let (text, _) = shown(&f.body(entry));
    assert!(has(&text, "\tli\ta0, 3008"), "{}", text);
    assert!(has(&text, "\tsub\ta0, s0, a0"), "{}", text);
    assert!(has(&text, "\tli\tt0, 3008") || has(&text, "\taddi\tsp, sp, -3008"), "{}", text);
}

// Nine integer arguments and eight registers to pass them in: the call is not
// written, and that is said.
#[test]
fn a_call_with_more_arguments_than_registers_is_said() {
    let mut f = Fixture::new();
    let entry = f.block();
    let n = f.integer(entry, 1);
    let args: Vec<usize> = (0..9).map(|_| n).collect();
    let got = f.call(entry, "g", args);
    f.term(entry, MIRTerm::Return(Some(got)));
    let (text, said) = shown(&f.body(entry));
    assert_eq!(
        said,
        vec!["__F1t: a call with 9 arguments is not emitted -- nothing here puts one on the stack".to_string()]
    );
    assert!(!has(&text, "\tcall\t"), "{}", text);
}
