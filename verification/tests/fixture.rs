// Reading a body back: what the entry reaches, what each instruction does, and
// finding a body by the fn it was made for.

use fortec_mir::fixture::{body_of, count, diamond, insts, kinds, Fixture};
use fortec_mir::mir_nodes::{MIRConst, MIRInstKind, MIRTerm};

// A block nothing jumps to is still in the arena; what is read back is only
// what can run.
#[test]
fn insts_are_only_those_the_entry_reaches() {
    let mut f = Fixture::new();
    let (at, orphan) = (f.block(), f.block());
    let one = f.integer(at, 1);
    f.term(at, MIRTerm::Return(Some(one)));
    f.integer(orphan, 2);
    f.term(orphan, MIRTerm::Unreachable);
    let body = f.body(at);
    let held = insts(&body);
    assert_eq!(held.len(), 1, "{:#?}", held);
    assert_eq!(held[0].0, at);
    assert_eq!(held[0].1.def, Some(one));
    assert!(matches!(held[0].1.kind, MIRInstKind::Const(MIRConst::Int(1))));
}

// Block by block, each block's instructions in the order they were made.
#[test]
fn insts_come_block_by_block_in_order() {
    let mut f = Fixture::new();
    let (entry, next) = (f.block(), f.block());
    let a = f.integer(entry, 1);
    let b = f.integer(entry, 2);
    f.term(entry, MIRTerm::Goto(next));
    let c = f.add(next, a, b);
    f.term(next, MIRTerm::Return(Some(c)));
    let body = f.body(entry);
    let held = insts(&body);
    let blocks: Vec<usize> = held.iter().map(|(at, _)| *at).collect();
    assert_eq!(blocks, vec![entry, entry, next]);
    let defs: Vec<Option<usize>> = held.iter().map(|(_, inst)| inst.def).collect();
    assert_eq!(defs, vec![Some(a), Some(b), Some(c)]);
}

#[test]
fn kinds_are_what_each_instruction_does() {
    let mut f = Fixture::new();
    let at = f.block();
    let a = f.integer(at, 3);
    let b = f.integer(at, 4);
    let c = f.add(at, a, b);
    f.term(at, MIRTerm::Return(Some(c)));
    let body = f.body(at);
    let held = kinds(&body);
    assert_eq!(held.len(), 3);
    assert!(matches!(held[0], MIRInstKind::Const(MIRConst::Int(3))));
    assert!(matches!(held[1], MIRInstKind::Const(MIRConst::Int(4))));
    assert!(matches!(held[2], MIRInstKind::Bin { lhs, rhs, .. } if lhs == a && rhs == b));
}

#[test]
fn count_counts_what_it_is_asked_for() {
    let mut f = Fixture::new();
    let at = f.block();
    let a = f.integer(at, 3);
    let b = f.integer(at, 4);
    let c = f.add(at, a, b);
    f.term(at, MIRTerm::Return(Some(c)));
    let body = f.body(at);
    assert_eq!(count(&body, |kind| matches!(kind, MIRInstKind::Const(_))), 2);
    assert_eq!(count(&body, |kind| matches!(kind, MIRInstKind::Bin { .. })), 1);
    assert_eq!(count(&body, |kind| matches!(kind, MIRInstKind::Move(_))), 0);
}

// The diamond's one instruction is its condition; the three blocks after it
// hold nothing but a jump.
#[test]
fn the_diamond_holds_one_instruction() {
    let (f, [entry, ..]) = diamond();
    let body = f.body(entry);
    assert_eq!(insts(&body).len(), 1);
    assert_eq!(count(&body, |_| true), 1);
}

// A symbol has the length of each part in front of it, so `1f` is the fn
// called `f`; the first body holding the name is the one given back.
#[test]
fn body_of_finds_the_first_body_holding_the_name() {
    let (f, [entry, ..]) = diamond();
    let mut p = f.program(entry);
    let mut g = Fixture::new();
    let at = g.block();
    let one = g.integer(at, 1);
    g.term(at, MIRTerm::Return(Some(one)));
    let mut other = g.body(at);
    other.symbol = "__F1t1g".to_string();
    p.bodies.push(other);
    let mut again = diamond().0.body(entry);
    again.symbol = "__F1t1g3i32".to_string();
    p.bodies.push(again);

    assert_eq!(body_of(&p, "1g").symbol, "__F1t1g");
    assert_eq!(body_of(&p, "3i32").symbol, "__F1t1g3i32");
    assert_eq!(body_of(&p, "__F1t").symbol, "__F1t");
}
