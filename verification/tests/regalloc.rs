// Where the registers go, and the two rules that make an answer right rather
// than merely an answer: two values wanted at the same time are never in one
// register, and a value wanted after a call is never in a register the call
// may have written. Both are checked by walking the listing and asking what is
// live where, rather than by reading the allocator's own answer back to
// itself. The bodies are built by hand, in the shape a lowering gives the
// sources named above them.

use fortec_mir::fixture::{machine, Fixture};
use fortec_mir::linear::{linearise, Line, Linear};
use fortec_mir::machine::{x86_64, Class, Machine, Reg};
use fortec_mir::mir_nodes::{
    uses, MIRBinOp, MIRBlockId, MIRBody, MIRFrameId, MIRInst, MIRInstKind, MIRRegId, MIRTerm,
};
use fortec_mir::regalloc::{allocate, Allocation, Where};

fn run(body: &MIRBody) -> (Linear, Allocation) {
    let mut held = linearise(body);
    let out = allocate(&mut held, &machine());
    (held, out)
}

// A machine with almost nothing to hand out, for making it run short on
// purpose. Two integer registers, one of which a call keeps.
fn cramped() -> Machine {
    Machine {
        ints: vec![Reg { name: "a", class: Class::Int }, Reg { name: "b", class: Class::Int }],
        floats: vec![],
        args: vec![],
        fargs: vec![],
        saved: vec![Reg { name: "b", class: Class::Int }],
        clobbered: vec![Reg { name: "a", class: Class::Int }],
        ..x86_64()
    }
}

// fn f(a: i32, b: i32, c: i32): i32 { (a + b) * (b + c) }
fn sums() -> MIRBody {
    let mut f = Fixture::new();
    let a = f.param();
    let b = f.param();
    let c = f.param();
    let entry = f.block();
    let left = f.add(entry, a, b);
    let right = f.add(entry, b, c);
    let got = f.push(entry, MIRInstKind::Bin { op: MIRBinOp::Mul, lhs: left, rhs: right });
    f.term(entry, MIRTerm::Return(Some(got)));
    f.body(entry)
}

// fn f(a: i32, b: i32): i32 { a + b }
fn pair() -> MIRBody {
    let mut f = Fixture::new();
    let a = f.param();
    let b = f.param();
    let entry = f.block();
    let got = f.add(entry, a, b);
    f.term(entry, MIRTerm::Return(Some(got)));
    f.body(entry)
}

// fn g(x: i32): i32 { x }  fn f(a: i32, b: i32): i32 { g(a) + b }
fn calling() -> MIRBody {
    let mut f = Fixture::new();
    let a = f.param();
    let b = f.param();
    let entry = f.block();
    let got = f.call(entry, "__F1t1g3i32", vec![a]);
    let sum = f.add(entry, got, b);
    f.term(entry, MIRTerm::Return(Some(sum)));
    f.body(entry)
}

// Which registers are live at each line: named at or before it, and again at or
// after it.
fn live_at(held: &Linear) -> Vec<Vec<MIRRegId>> {
    let mut low: Vec<Option<usize>> = vec![None; held.regs.len()];
    let mut high: Vec<Option<usize>> = vec![None; held.regs.len()];
    let mark = |reg: MIRRegId, at: usize, low: &mut Vec<Option<usize>>, high: &mut Vec<Option<usize>>| {
        if reg >= low.len() {
            return;
        }
        low[reg] = Some(low[reg].map_or(at, |h: usize| h.min(at)));
        high[reg] = Some(high[reg].map_or(at, |h: usize| h.max(at)));
    };
    for &reg in &held.params {
        mark(reg, 0, &mut low, &mut high);
    }
    for (at, line) in held.lines.iter().enumerate() {
        match line {
            Line::Inst(inst) => {
                for reg in uses(&inst.kind) {
                    mark(reg, at, &mut low, &mut high);
                }
                if let Some(def) = inst.def {
                    mark(def, at, &mut low, &mut high);
                }
            }
            Line::Term(term) => {
                for reg in term.uses() {
                    mark(reg, at, &mut low, &mut high);
                }
            }
            Line::Label(_) => {}
        }
    }
    (0..held.lines.len())
        .map(|at| {
            (0..held.regs.len())
                .filter(|&reg| match (low[reg], high[reg]) {
                    (Some(from), Some(to)) => from <= at && at <= to,
                    _ => false,
                })
                .collect()
        })
        .collect()
}

// ---- The rule that makes it an allocation ----------------------------------

fn no_two_live_share(held: &Linear, out: &Allocation) {
    for (at, live) in live_at(held).into_iter().enumerate() {
        for (i, &one) in live.iter().enumerate() {
            for &other in &live[i + 1..] {
                if let (Where::In(a), Where::In(b)) = (out.of(one), out.of(other)) {
                    assert_ne!(
                        a.name, b.name,
                        "%{} and %{} are both live at line {} and both in {}",
                        one, other, at, a.name
                    );
                }
            }
        }
    }
}

#[test]
fn nothing_live_at_once_shares_a_register() {
    let (held, out) = run(&sums());
    no_two_live_share(&held, &out);
}

#[test]
fn nothing_live_at_once_shares_a_register_when_there_are_not_enough() {
    let mut held = linearise(&sums());
    let out = allocate(&mut held, &cramped());
    assert!(out.spills > 0, "it should have run short: {:#?}", out);
    no_two_live_share(&held, &out);
}

// ---- The rule about calls --------------------------------------------------

#[test]
fn a_value_live_across_a_call_is_kept_somewhere_a_call_keeps() {
    let (held, out) = run(&calling());
    let calls: Vec<usize> = held
        .lines
        .iter()
        .enumerate()
        .filter(|(_, line)| matches!(line, Line::Inst(MIRInst { kind: MIRInstKind::Call { .. }, .. })))
        .map(|(at, _)| at)
        .collect();
    assert!(!calls.is_empty(), "there should be a call");
    let live = live_at(&held);
    let mut crossed = 0;
    for &call in &calls {
        for &reg in &live[call] {
            let after = live.get(call + 1).map(|held| held.contains(&reg)).unwrap_or(false);
            let before = call > 0 && live[call - 1].contains(&reg);
            if !(before && after) {
                continue;
            }
            crossed += 1;
            if let Where::In(held) = out.of(reg) {
                assert!(
                    machine().keeps(held),
                    "%{} is live across the call at line {} and is in {}, which a call may write",
                    reg,
                    call,
                    held.name
                );
            }
        }
    }
    assert!(crossed > 0, "`b` is wanted after the call");
}

// ---- Spilling --------------------------------------------------------------

#[test]
fn everything_spilled_gets_a_slot_marked_as_one() {
    let mut held = linearise(&sums());
    let before = held.frame.len();
    let out = allocate(&mut held, &cramped());
    assert!(out.spills > 0);
    assert_eq!(held.frame.len(), before + out.spills, "one slot each");
    assert_eq!(held.frame.iter().filter(|slot| slot.spill).count(), out.spills, "and each of them marked");
}

#[test]
fn no_two_spills_share_a_slot() {
    let mut held = linearise(&sums());
    let out = allocate(&mut held, &cramped());
    let mut rooms: Vec<MIRFrameId> = out
        .at
        .iter()
        .filter_map(|held| match held {
            Where::Spilled(slot) => Some(*slot),
            _ => None,
        })
        .collect();
    let count = rooms.len();
    rooms.sort_unstable();
    rooms.dedup();
    assert_eq!(rooms.len(), count, "two values in one slot");
}

#[test]
fn a_body_that_fits_spills_nothing() {
    let (_, out) = run(&pair());
    assert_eq!(out.spills, 0, "{:#?}", out);
}

// ---- What each answer is ---------------------------------------------------

#[test]
fn every_register_that_is_used_gets_an_answer() {
    let (held, out) = run(&pair());
    for line in &held.lines {
        let reads = match line {
            Line::Inst(inst) => uses(&inst.kind),
            Line::Term(term) => term.uses(),
            Line::Label(_) => Vec::new(),
        };
        for reg in reads {
            assert_ne!(out.of(reg), Where::Nowhere, "%{} is read and went nowhere", reg);
        }
    }
}

// fn f(a: f64, b: f64, c: i32): f64 { let _ = c; a + b }
#[test]
fn a_register_is_given_one_of_its_own_class() {
    let mut f = Fixture::new();
    let a = f.floating();
    let b = f.floating();
    let c = f.param();
    let entry = f.block();
    let sum = f.floating();
    f.making(entry, sum, MIRInstKind::Bin { op: MIRBinOp::FAdd, lhs: a, rhs: b });
    let kept = f.push(entry, MIRInstKind::Move(c));
    f.effect(entry, MIRInstKind::Move(kept));
    f.term(entry, MIRTerm::Return(Some(sum)));
    let mut body = f.body(entry);
    body.params = vec![a, b, c];
    let (held, out) = run(&body);
    let mut given = 0;
    for (reg, held) in held.regs.iter().enumerate() {
        if let Where::In(one) = out.of(reg) {
            given += 1;
            assert_eq!(one.class, held.class, "%{} is in {}", reg, one.name);
        }
    }
    assert!(given >= 4, "{:#?}", out);
}

#[test]
fn the_frame_register_is_never_given_to_anything() {
    let (_, out) = run(&sums());
    for held in &out.at {
        if let Where::In(reg) = held {
            assert_ne!(reg.name, machine().frame.name);
        }
    }
}

#[test]
fn the_worst_point_is_counted() {
    let (_, out) = run(&sums());
    assert!(out.most >= 2, "{:#?}", out);
}

// fn g(x: i64): i64 { x }
// fn f(n: i64): i64 { let step = 3; var t = 0; var i = 0;
//     while i < n { t = t + g(i * step); i = i + 1 }; t }
//
// `step` is made before the loop and read at the top of its body, above the
// call, so it is wanted again on the next turn: alive round the loop, and so
// across the call in it.
#[test]
fn a_value_live_round_a_loop_is_kept_across_a_call_inside_it() {
    let mut f = Fixture::new();
    let n = f.param();
    let (entry, head, body, exit) = (f.block(), f.block(), f.block(), f.block());
    let step = f.integer(entry, 3);
    let t0 = f.integer(entry, 0);
    let i0 = f.integer(entry, 0);
    f.term(entry, MIRTerm::Goto(head));
    let t = f.phi(head, vec![(entry, t0), (body, t0)]);
    let i = f.phi(head, vec![(entry, i0), (body, i0)]);
    let more = f.less(head, i, n);
    f.term(head, MIRTerm::Branch { cond: more, then: body, els: exit });
    let times = f.push(body, MIRInstKind::Bin { op: MIRBinOp::Mul, lhs: i, rhs: step });
    let got = f.call(body, "__F1t1g3i64", vec![times]);
    let t1 = f.add(body, t, got);
    let one = f.integer(body, 1);
    let i1 = f.add(body, i, one);
    f.term(body, MIRTerm::Goto(head));
    f.set_phi_edge(head, 0, body, t1);
    f.set_phi_edge(head, 1, body, i1);
    f.term(exit, MIRTerm::Return(Some(t)));
    let (held, out) = run(&f.body(entry));

    // The arc a backward jump closes over, which is the loop.
    let mut at: Vec<(MIRBlockId, usize)> = Vec::new();
    for (line, one) in held.lines.iter().enumerate() {
        if let Line::Label(block) = one {
            at.push((*block, line));
        }
    }
    let mut arcs: Vec<(usize, usize)> = Vec::new();
    for (line, one) in held.lines.iter().enumerate() {
        let Line::Term(term) = one else { continue };
        for to in term.targets() {
            match at.iter().find(|(block, _)| *block == to) {
                Some((_, back)) if *back <= line => arcs.push((*back, line)),
                _ => {}
            }
        }
    }
    assert!(!arcs.is_empty(), "there should be a loop: {:#?}", held.lines);

    let live = live_at(&held);
    let mut checked = 0;
    for (from, to) in arcs {
        let calls: Vec<usize> = (from..=to)
            .filter(|&line| matches!(held.lines[line], Line::Inst(MIRInst { kind: MIRInstKind::Call { .. }, .. })))
            .collect();
        if calls.is_empty() {
            continue;
        }
        for reg in 0..held.regs.len() {
            let inside = (from..=to).any(|line| live[line].contains(&reg));
            let outside = (0..held.lines.len())
                .filter(|line| *line < from || *line > to)
                .any(|line| live[line].contains(&reg));
            if !(inside && outside) {
                continue;
            }
            checked += 1;
            if let Where::In(one) = out.of(reg) {
                assert!(
                    machine().keeps(one),
                    "%{} is live round a loop with a call in it and is in {}",
                    reg,
                    one.name
                );
            }
        }
    }
    assert!(checked > 0);
    assert_ne!(out.of(step), Where::Nowhere);
}

// ---- Exact answers ---------------------------------------------------------

// Two values and their sum, on a machine with room for all of them: each is
// given the first free register in the order the machine prefers them.
#[test]
fn the_first_free_register_is_the_one_given() {
    let (_, out) = run(&pair());
    let names: Vec<&str> = out
        .at
        .iter()
        .map(|held| match held {
            Where::In(reg) => reg.name,
            _ => "-",
        })
        .collect();
    assert_eq!(names, vec!["rax", "rcx", "rdx"]);
    assert_eq!(out.spills, 0);
}

// With two registers and three parameters wanted from the first line, the one
// that ends furthest away goes to the frame, in a slot named after it.
#[test]
fn the_one_that_ends_furthest_away_is_the_one_spilled() {
    let mut held = linearise(&sums());
    let before = held.frame.len();
    let out = allocate(&mut held, &cramped());
    let spilled: Vec<usize> = (0..out.at.len()).filter(|&reg| matches!(out.at[reg], Where::Spilled(_))).collect();
    assert!(!spilled.is_empty());
    for &reg in &spilled {
        let Where::Spilled(slot) = out.at[reg] else { unreachable!() };
        assert!(slot >= before);
        assert_eq!(held.frame[slot].name, format!("%{}", reg));
        assert_eq!(held.frame[slot].bytes, 8);
        assert_eq!(held.frame[slot].align, 8);
        assert!(held.frame[slot].spill);
    }
}

// A register that is not the body's is nowhere.
#[test]
fn a_register_that_is_not_the_bodys_is_nowhere() {
    let (held, out) = run(&pair());
    assert_eq!(out.at.len(), held.regs.len());
    assert_eq!(out.of(held.regs.len()), Where::Nowhere);
}
