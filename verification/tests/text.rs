// What the listing says, checked as text, and how a frame is written down.
//
// The listings are of bodies built by hand, in the shape a lowering gives the
// sources named above each test.

use fortec_mir::fixture::{diamond, machine, Fixture};
use fortec_mir::linear::linearise;
use fortec_mir::mir_nodes::{
    MIRBinOp, MIRCmpOp, MIRConstBody, MIRConstant, MIRInstKind, MIRProgram, MIRSlot, MIRTerm,
};
use fortec_mir::regalloc::{allocate, Where};
use fortec_mir::text::{body_text, frame, render};

fn shown(p: &MIRProgram) -> String {
    render(p, &machine())
}

fn lines(text: &str) -> Vec<String> {
    text.lines().map(|line| line.to_string()).collect()
}

fn has(text: &str, want: &str) -> bool {
    text.lines().any(|line| line.contains(want))
}

// fn f(): i32 { 1 }
fn one() -> MIRProgram {
    let mut f = Fixture::new();
    let entry = f.block();
    let n = f.integer(entry, 1);
    f.term(entry, MIRTerm::Return(Some(n)));
    f.program(entry)
}

// fn f(a: i32): i32 { if a > 0 { 1 } else { 2 } }
fn either() -> MIRProgram {
    let mut f = Fixture::new();
    let a = f.param();
    let (entry, then, els, join) = (f.block(), f.block(), f.block(), f.block());
    let zero = f.integer(entry, 0);
    let cond = f.push(entry, MIRInstKind::Cmp { op: MIRCmpOp::SGt, lhs: a, rhs: zero });
    f.term(entry, MIRTerm::Branch { cond, then, els });
    let x = f.integer(then, 1);
    f.term(then, MIRTerm::Goto(join));
    let y = f.integer(els, 2);
    f.term(els, MIRTerm::Goto(join));
    let got = f.phi(join, vec![(then, x), (els, y)]);
    f.term(join, MIRTerm::Return(Some(got)));
    f.program(entry)
}

// A body taking one address and reading what `kind` makes of it.
fn reading(kind: impl Fn(usize, usize) -> MIRInstKind) -> MIRProgram {
    let mut f = Fixture::new();
    let p = f.param();
    let i = f.param();
    let entry = f.block();
    let at = f.push(entry, kind(p, i));
    let got = f.push(entry, MIRInstKind::Load { from: at, bytes: 8 });
    f.term(entry, MIRTerm::Return(Some(got)));
    f.program(entry)
}

// fn f(a, b) { a <op> b }
fn binary(op: MIRBinOp) -> MIRProgram {
    let mut f = Fixture::new();
    let a = f.param();
    let b = f.param();
    let entry = f.block();
    let got = f.push(entry, MIRInstKind::Bin { op, lhs: a, rhs: b });
    f.term(entry, MIRTerm::Return(Some(got)));
    f.program(entry)
}

// fn f(): str { <bytes> }
fn literal(bytes: &[u8]) -> MIRProgram {
    let mut f = Fixture::new();
    let entry = f.block();
    let at = f.push(entry, MIRInstKind::Symbol("__S0".to_string()));
    f.term(entry, MIRTerm::Return(Some(at)));
    let mut p = f.program(entry);
    p.pool.push(MIRConstant { symbol: "__S0".to_string(), held: MIRConstBody::Bytes(bytes.to_vec()) });
    p
}

// fn f(a: i32, b: i32, c: i32): i32 { (a + b) * (b + c) }
fn sums() -> MIRProgram {
    let mut f = Fixture::new();
    let a = f.param();
    let b = f.param();
    let c = f.param();
    let entry = f.block();
    let left = f.add(entry, a, b);
    let right = f.add(entry, b, c);
    let got = f.push(entry, MIRInstKind::Bin { op: MIRBinOp::Mul, lhs: left, rhs: right });
    f.term(entry, MIRTerm::Return(Some(got)));
    f.program(entry)
}

// fn f(n: i32): i32 { var t = 0; var i = 0; while i < n { t = t + i; i = i + 1 }; t }
fn counting() -> MIRProgram {
    let mut f = Fixture::new();
    let n = f.param();
    let (entry, head, body, exit) = (f.block(), f.block(), f.block(), f.block());
    let t0 = f.integer(entry, 0);
    let i0 = f.integer(entry, 0);
    f.term(entry, MIRTerm::Goto(head));
    let t = f.phi(head, vec![(entry, t0), (body, t0)]);
    let i = f.phi(head, vec![(entry, i0), (body, i0)]);
    let more = f.less(head, i, n);
    f.term(head, MIRTerm::Branch { cond: more, then: body, els: exit });
    let t1 = f.add(body, t, i);
    let one = f.integer(body, 1);
    let i1 = f.add(body, i, one);
    f.term(body, MIRTerm::Goto(head));
    f.set_phi_edge(head, 0, body, t1);
    f.set_phi_edge(head, 1, body, i1);
    f.term(exit, MIRTerm::Return(Some(t)));
    f.program(entry)
}

// ---- The page ---------------------------------------------------------------

#[test]
fn a_body_is_written_under_the_symbol_it_compiles_to() {
    let out = shown(&one());
    assert!(
        lines(&out).iter().any(|line| line.starts_with("__F") && line.ends_with(':')),
        "{}",
        out
    );
}

#[test]
fn every_block_gets_a_label() {
    let out = shown(&either());
    let labels = out.lines().filter(|line| line.trim_start().starts_with(".L")).count();
    assert!(labels >= 3, "{}", out);
}

#[test]
fn a_body_says_how_big_its_frame_is() {
    let out = shown(&one());
    assert!(has(&out, "frame "), "{}", out);
}

// ---- What the instructions look like ----------------------------------------

#[test]
fn a_terminator_is_written_at_the_end_of_its_block() {
    let out = shown(&one());
    assert!(has(&out, "ret "), "{}", out);
}

#[test]
fn a_branch_names_both_labels() {
    let out = shown(&either());
    assert!(
        out.lines().any(|line| line.trim_start().starts_with("br ") && line.matches(".L").count() == 2),
        "{}",
        out
    );
}

// struct Pair { a: i8, b: i64 }  fn f(p: Pair): i8 { p.a }
#[test]
fn a_load_says_how_many_bytes_it_reads() {
    let mut f = Fixture::new();
    let p = f.param();
    let entry = f.block();
    let got = f.push(entry, MIRInstKind::Load { from: p, bytes: 1 });
    f.term(entry, MIRTerm::Return(Some(got)));
    let out = shown(&f.program(entry));
    assert!(has(&out, "load.1 "), "{}", out);
}

// struct Pair { a: i8, b: i64 }  fn f(p: Pair): i64 { p.b }
#[test]
fn an_offset_says_how_far_along_it_is() {
    let out = shown(&reading(|p, _| MIRInstKind::Offset { base: p, bytes: 8 }));
    assert!(has(&out, "+ 8]"), "{}", out);
}

// fn f(xs: i32[4], i: i32): i32 { xs[i] }
#[test]
fn an_index_says_the_stride_it_steps_by() {
    let out = shown(&reading(|xs, i| MIRInstKind::Scaled { base: xs, index: i, scale: 4 }));
    assert!(has(&out, "*4]"), "{}", out);
}

#[test]
fn a_signed_and_an_unsigned_division_read_differently() {
    let signed = shown(&binary(MIRBinOp::SDiv));
    let unsigned = shown(&binary(MIRBinOp::UDiv));
    assert!(has(&signed, "sdiv "), "{}", signed);
    assert!(has(&unsigned, "udiv "), "{}", unsigned);
}

// fn g(x: i32): i32 { x }  fn f(): i32 { g(1) }
#[test]
fn a_call_names_what_it_calls_and_what_it_hands_over() {
    let mut f = Fixture::new();
    let entry = f.block();
    let one = f.integer(entry, 1);
    let got = f.call(entry, "__F1t1g3i32", vec![one]);
    f.term(entry, MIRTerm::Return(Some(got)));
    let out = shown(&f.program(entry));
    assert!(
        out.lines().any(|line| line.contains("call ") && line.contains("1g")),
        "{}",
        out
    );
}

// ---- The pool ---------------------------------------------------------------

#[test]
fn a_string_is_written_under_the_pool() {
    let out = shown(&literal(b"hi"));
    assert!(has(&out, "pool:"), "{}", out);
    assert!(has(&out, "\"hi\""), "{}", out);
}

#[test]
fn a_byte_that_is_not_printable_is_written_as_its_number() {
    let out = shown(&literal(b"a\nb"));
    assert!(has(&out, "\\x0a"), "{}", out);
}

// ---- What a register is written as -------------------------------------------

#[test]
fn no_virtual_register_reaches_the_page() {
    let out = shown(&sums());
    for line in out.lines() {
        if line.trim_start().starts_with("[fp-") {
            continue;
        }
        assert!(!line.contains('%'), "a virtual register reached the page: {}", line);
    }
}

#[test]
fn every_register_the_listing_names_has_somewhere_to_be() {
    let p = binary(MIRBinOp::Add);
    let mut linear = linearise(&p.bodies[0]);
    let out = allocate(&mut linear, &machine());
    let text = body_text(&linear, &out, &machine());
    for line in text.lines() {
        let held = line.trim();
        if held.ends_with(':') || held.starts_with("frame ") || held.starts_with("[fp-") {
            continue;
        }
        assert!(!held.split_whitespace().any(|word| word == "_"), "{}", text);
    }
    assert_eq!(out.of(linear.regs.len() + 10), Where::Nowhere);
}

// ---- The whole thing ---------------------------------------------------------

#[test]
fn a_loop_prints_as_a_page_of_known_shapes() {
    let out = shown(&counting());
    for line in out.lines() {
        let held = line.trim();
        if held.is_empty() || held.ends_with(':') || held.starts_with("frame ") {
            continue;
        }
        if held.starts_with("[fp-") {
            continue;
        }
        assert!(
            !held.contains("Undef") && !held.contains('{'),
            "a line the printer did not have a case for: {}",
            line
        );
    }
    assert!(has(&out, "jmp .L"), "a loop with nothing to jump back to:\n{}", out);
}

// ---- Exact pages ---------------------------------------------------------------

#[test]
fn a_constant_returned_is_one_page_exactly() {
    let out = shown(&one());
    assert_eq!(
        out,
        "__F1t:\n    frame 0 bytes\n  .L0:\n      rax = const 1\n      ret rax\n\n"
    );
}

#[test]
fn a_diamond_is_four_labels_and_its_branch() {
    let (f, [entry, ..]) = diamond();
    let out = shown(&f.program(entry));
    assert!(has(&out, "br rax, .L1, .L2"), "{}", out);
    assert_eq!(out.lines().filter(|line| line.trim_start().starts_with(".L")).count(), 4, "{}", out);
}

#[test]
fn every_kind_of_literal_byte_is_quoted_as_a_reader_would() {
    let out = shown(&literal(b"\"\\ \x7f"));
    assert!(has(&out, "    __S0 = \"\\\"\\\\ \\x7f\""), "{}", out);
}

#[test]
fn a_table_of_names_is_written_between_brackets() {
    let mut p = one();
    p.pool.push(MIRConstant {
        symbol: "__V0".to_string(),
        held: MIRConstBody::Words(vec!["a".to_string(), "b".to_string()]),
    });
    let out = shown(&p);
    assert!(has(&out, "    __V0 = [a, b]"), "{}", out);
}

#[test]
fn a_spilled_register_is_named_by_its_slot() {
    let out = shown(&sums());
    assert!(!has(&out, " _ "), "{}", out);
    let mut f = Fixture::new();
    let entry = f.block();
    let x = f.push(entry, MIRInstKind::Offset { base: 0, bytes: -16 });
    f.term(entry, MIRTerm::Return(Some(x)));
    let out = shown(&f.program(entry));
    assert!(has(&out, "+ -16]"), "{}", out);
}

#[test]
fn the_frame_is_rounded_to_what_the_stack_wants() {
    let held = vec![
        MIRSlot { bytes: 9, align: 1, name: "$0".to_string(), spill: false },
    ];
    let (_, size) = frame(&held, &machine());
    assert_eq!(size, 16, "the stack is kept to {}", machine().stack);
}

#[test]
fn nothing_in_the_frame_overlaps_anything_else() {
    let held = vec![
        MIRSlot { bytes: 1, align: 1, name: "$0".to_string(), spill: false },
        MIRSlot { bytes: 8, align: 8, name: "$1".to_string(), spill: false },
        MIRSlot { bytes: 4, align: 4, name: "$2".to_string(), spill: false },
    ];
    let (offsets, _) = frame(&held, &machine());
    for (at, slot) in held.iter().enumerate() {
        for (other, one) in held.iter().enumerate() {
            if at == other {
                continue;
            }
            let a = (offsets[at] - slot.bytes, offsets[at]);
            let b = (offsets[other] - one.bytes, offsets[other]);
            assert!(a.1 <= b.0 || b.1 <= a.0, "{:?} and {:?} overlap", a, b);
        }
    }
}

#[test]
fn each_slot_sits_where_its_alignment_allows() {
    let held = vec![
        MIRSlot { bytes: 1, align: 1, name: "$0".to_string(), spill: false },
        MIRSlot { bytes: 8, align: 8, name: "$1".to_string(), spill: false },
    ];
    let (offsets, _) = frame(&held, &machine());
    assert_eq!(offsets[1] % 8, 0, "a word has to be on a word");
}

// The numbers themselves, for a byte then a word then four bytes.
#[test]
fn each_offset_is_where_the_slot_ends_below_the_frame_pointer() {
    let held = vec![
        MIRSlot { bytes: 1, align: 1, name: "$0".to_string(), spill: false },
        MIRSlot { bytes: 8, align: 8, name: "$1".to_string(), spill: false },
        MIRSlot { bytes: 4, align: 4, name: "$2".to_string(), spill: false },
    ];
    let (offsets, size) = frame(&held, &machine());
    assert_eq!(offsets, vec![1, 16, 20]);
    assert_eq!(size, 32);
}

#[test]
fn an_empty_frame_takes_no_room() {
    let (offsets, size) = frame(&[], &machine());
    assert!(offsets.is_empty());
    assert_eq!(size, 0);
}
