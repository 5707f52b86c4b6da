// What every machine's emitter knows about one body: how its frame sits under
// the frame pointer, which callee-saved registers it puts back, its labels,
// and what it refuses. The bodies are built by hand, in the shape a lowering
// gives the sources named above them.

use fortec_mir::emit::body::{kept, label, refuses, Body};
use fortec_mir::emit::Site;
use fortec_mir::fixture::Fixture;
use fortec_mir::linear::linearise;
use fortec_mir::machine::{aarch64, riscv64, x86_64, Class, Machine, Reg};
use fortec_mir::mir_nodes::{MIRBinOp, MIRBody, MIRInstKind, MIRTerm};
use fortec_mir::regalloc::allocate;

fn machines() -> Vec<Machine> {
    vec![x86_64(), aarch64(), riscv64()]
}

// fn f(a: i64, b: i64, c: i64, d: i64, e: i64, g: i64): i64 {
//     let h = a * b; let i = c * d; let j = e * g
//     let k = h + i; let l = i + j; h + i + j + k + l }
// with a slot in its frame as well, so there is a slot to find.
fn many() -> MIRBody {
    let mut f = Fixture::new();
    let ps: Vec<usize> = (0..6).map(|_| f.param()).collect();
    let entry = f.block();
    f.slot("x", 8);
    let mul = |f: &mut Fixture, a, b| f.push(entry, MIRInstKind::Bin { op: MIRBinOp::Mul, lhs: a, rhs: b });
    let h = mul(&mut f, ps[0], ps[1]);
    let i = mul(&mut f, ps[2], ps[3]);
    let j = mul(&mut f, ps[4], ps[5]);
    let k = f.add(entry, h, i);
    let l = f.add(entry, i, j);
    let s1 = f.add(entry, h, i);
    let s2 = f.add(entry, s1, j);
    let s3 = f.add(entry, s2, k);
    let s4 = f.add(entry, s3, l);
    f.term(entry, MIRTerm::Return(Some(s4)));
    f.body(entry)
}

#[test]
fn nothing_in_a_frame_overlaps_the_registers_saved_above_it() {
    for m in machines() {
        let body = many();
        let mut held = linearise(&body);
        let at = allocate(&mut held, &m);
        let one = Body::new(&held, &at, &m, 0);
        let above = one.saved.len() * m.word;
        assert!(!one.offsets.is_empty());
        for off in &one.offsets {
            assert!(*off > above, "{}: a slot at {} is inside the saved area", m.name, off);
            assert!(*off <= one.frame, "{}: a slot at {} is past the frame", m.name, off);
        }
        for which in 0..one.saved.len() {
            assert!(one.saved_at(which) <= above, "{}", m.name);
        }
    }
}

// fn f(): i32 { var x = 1; x }
#[test]
fn a_frame_is_a_whole_number_of_what_the_stack_stays_aligned_to() {
    for m in machines() {
        let mut f = Fixture::new();
        let entry = f.block();
        let slot = f.slot("x", 4);
        let one = f.integer(entry, 1);
        let to = f.address(entry, slot);
        f.store(entry, to, one);
        let got = f.load(entry, to);
        f.term(entry, MIRTerm::Return(Some(got)));
        let body = f.body(entry);
        let mut held = linearise(&body);
        let at = allocate(&mut held, &m);
        let one = Body::new(&held, &at, &m, 0);
        assert_eq!(one.frame % m.stack, 0, "{}: {}", m.name, one.frame);
        assert!(one.frame >= 4);
    }
}

// fn f(a: i32): i32 { a }
#[test]
fn a_body_saves_only_the_registers_it_writes() {
    let mut f = Fixture::new();
    let a = f.param();
    let entry = f.block();
    f.term(entry, MIRTerm::Return(Some(a)));
    let body = f.body(entry);
    let mut held = linearise(&body);
    let m = x86_64();
    let at = allocate(&mut held, &m);
    let one = Body::new(&held, &at, &m, 0);
    assert!(one.saved.is_empty(), "{:?}", one.saved);
}

// A value alive across a call goes in a register a call keeps, and what a
// call keeps is saved: here both parameters, the one the call reads and the
// one read after it.
#[test]
fn the_registers_kept_across_a_call_are_saved() {
    let mut f = Fixture::new();
    let a = f.param();
    let b = f.param();
    let entry = f.block();
    let got = f.call(entry, "__F1t1g3i32", vec![a]);
    let sum = f.add(entry, got, b);
    f.term(entry, MIRTerm::Return(Some(sum)));
    let body = f.body(entry);
    let mut held = linearise(&body);
    let m = x86_64();
    let at = allocate(&mut held, &m);
    let saved = kept(&held, &at, &m);
    assert_eq!(saved, vec![Reg { name: "rbx", class: Class::Int }, Reg { name: "r12", class: Class::Int }]);
    let one = Body::new(&held, &at, &m, 3);
    assert_eq!(one.saved, saved);
    assert_eq!(one.frame, 16);
    assert_eq!(one.saved_at(0), 8);
    assert_eq!(one.site(b), Site::In(Reg { name: "r12", class: Class::Int }));
    assert_eq!(one.site(held.regs.len()), Site::Nowhere);
    assert_eq!(one.bytes(a), 8);
    assert_eq!(one.class(a), Class::Int);
    assert_eq!(label(&one, 2), ".LB3_2");
}

#[test]
fn an_ordinary_body_refuses_nothing() {
    let mut f = Fixture::new();
    let a = f.param();
    let b = f.param();
    let entry = f.block();
    let sum = f.add(entry, a, b);
    f.term(entry, MIRTerm::Return(Some(sum)));
    let held = linearise(&f.body(entry));
    assert!(refuses(&held).is_empty());
}

// Each kind of vector instruction is named once, in the order it first
// appears.
#[test]
fn every_kind_of_vector_is_refused_once_by_name() {
    let mut f = Fixture::new();
    let a = f.param();
    let entry = f.block();
    let v = f.push(entry, MIRInstKind::Pack(vec![a, a]));
    f.push(entry, MIRInstKind::Lane { of: v, at: 0 });
    f.push(entry, MIRInstKind::Pack(vec![a]));
    f.effect(entry, MIRInstKind::VecStore { to: a, value: v });
    f.term(entry, MIRTerm::Return(None));
    let held = linearise(&f.body(entry));
    assert_eq!(
        refuses(&held),
        vec![
            "__F1t: a vector built by hand is not emitted -- widening is on, and nothing here writes vectors".to_string(),
            "__F1t: one lane of a vector is not emitted -- widening is on, and nothing here writes vectors".to_string(),
            "__F1t: a vector written is not emitted -- widening is on, and nothing here writes vectors".to_string(),
        ]
    );
}
