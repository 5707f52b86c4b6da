//! The parts of emitting that are the same for every machine: where a call's
//! arguments go, the order to make a set of register moves in, the names an
//! assembler will take, and the sections a pool and the globals go in.

pub mod aarch64;
pub mod body;
pub mod line;
pub mod riscv64;
pub mod x86_64;

use vstd::prelude::*;
use vstd::set_lib::lemma_map_size;
use vstd::string::StringSliceAdditionalSpecFns;
use crate::emit::body::{body_fits, laid_out, Body};
use crate::linear::{linearise, linearised, phis_read_regs, Linear};
use crate::machine::{holds, same_text, Class, Machine, Reg};
use vstd::utf8::encode_utf8;
use crate::mir_nodes::{blocks_v, MIRBody, MIRConstBody, MIRConstant, MIRGlobal, MIRProgram};
use crate::regalloc::{allocate, allocated, scan_of, Allocation};
use crate::spell::{decimal, hex2, hex_digit, push_char, push_decimal, push_hex2, push_text};

verus! {

// ---- Where the arguments go ------------------------------------------------

/// How many of the first `n` classes are `class`.
pub open spec fn count_of(classes: Seq<Class>, n: int, class: Class) -> nat
    decreases n,
{
    if n <= 0 {
        0
    } else {
        count_of(classes, n - 1, class) + if classes[n - 1] == class { 1nat } else { 0nat }
    }
}

/// The register the argument at `i` goes in: the next one of its own file,
/// however many of the other file came before it, or none where the file has
/// run out.
pub open spec fn passed_in(m: Machine, classes: Seq<Class>, i: int) -> Option<Reg> {
    let list = match classes[i] {
        Class::Int => m.args@,
        Class::Float => m.fargs@,
    };
    let which = count_of(classes, i, classes[i]);
    if which < list.len() {
        Some(list[which as int])
    } else {
        None
    }
}

/// Which register each argument of a call goes in, by the order of the two
/// files. `None` where a call has more arguments of a class than there are
/// registers for.
pub fn passing(m: &Machine, classes: &[Class]) -> (r: Vec<Option<Reg>>)
    ensures
        r@.len() == classes@.len(),
        forall|i: int| 0 <= i < classes@.len() ==> r@[i] == passed_in(*m, classes@, i),
{
    let mut ints: usize = 0;
    let mut floats: usize = 0;
    let mut out: Vec<Option<Reg>> = Vec::new();
    let mut i: usize = 0;
    while i < classes.len()
        invariant
            i <= classes@.len(),
            out@.len() == i,
            ints == count_of(classes@, i as int, Class::Int),
            floats == count_of(classes@, i as int, Class::Float),
            ints + floats == i,
            forall|j: int| 0 <= j < i ==> out@[j] == passed_in(*m, classes@, j),
        decreases classes@.len() - i,
    {
        let class = classes[i];
        let held = match class {
            Class::Int => {
                let one = if ints < m.args.len() { Some(m.args[ints]) } else { None };
                ints = ints + 1;
                one
            },
            Class::Float => {
                let one = if floats < m.fargs.len() { Some(m.fargs[floats]) } else { None };
                floats = floats + 1;
                one
            },
        };
        out.push(held);
        i = i + 1;
    }
    out
}

// ---- Moving several registers at once --------------------------------------

/// One step of a set of moves made in order. `Save` puts a register's value
/// in the scratch register and `Restore` writes the scratch register into
/// one.
#[derive(Debug, Clone, Copy, PartialEq, Eq)]
pub enum Step {
    Move { to: Reg, from: Reg },
    Save(Reg),
    Restore(Reg),
}

/// What each register holds after `steps` have run, named by the register
/// whose value it held before the first of them, and what the scratch
/// register holds. Every register starts out holding its own value, and the
/// scratch register `scratch`.
pub open spec fn played(steps: Seq<Step>, scratch: (Seq<char>, Class)) -> (
    spec_fn((Seq<char>, Class)) -> (Seq<char>, Class),
    (Seq<char>, Class),
)
    decreases steps.len(),
{
    if steps.len() == 0 {
        (|r: (Seq<char>, Class)| r, scratch)
    } else {
        let (held, sc) = played(steps.drop_last(), scratch);
        match steps.last() {
            Step::Move { to, from } => (
                |r: (Seq<char>, Class)| if r == to@ { held(from@) } else { held(r) },
                sc,
            ),
            Step::Save(one) => (held, held(one@)),
            Step::Restore(to) => (|r: (Seq<char>, Class)| if r == to@ { sc } else { held(r) }, sc),
        }
    }
}

/// What `r` holds after `steps`, from a scratch register holding `sc`.
pub open spec fn holding(steps: Seq<Step>, sc: (Seq<char>, Class), r: (Seq<char>, Class)) -> (Seq<char>, Class) {
    (played(steps, sc).0)(r)
}

/// Whether no two moves write the same register.
pub open spec fn destinations_distinct(moves: Seq<(Reg, Reg)>) -> bool {
    forall|i: int, j: int| 0 <= i < j < moves.len() ==> (#[trigger] moves[i]).0@ != (#[trigger] moves[j]).0@
}

/// Whether some move writes `r`.
pub open spec fn written(moves: Seq<(Reg, Reg)>, r: (Seq<char>, Class)) -> bool {
    exists|i: int| 0 <= i < moves.len() && (#[trigger] moves[i]).0@ == r
}

/// Whether `steps`, run from any scratch value, leave every destination
/// holding what its source held before, and every other register as it was.
pub open spec fn realizes(steps: Seq<Step>, moves: Seq<(Reg, Reg)>) -> bool {
    &&& forall|sc: (Seq<char>, Class), i: int|
        0 <= i < moves.len() ==> #[trigger] holding(steps, sc, moves[i].0@) == moves[i].1@
    &&& forall|sc: (Seq<char>, Class), r: (Seq<char>, Class)|
        !written(moves, r) ==> #[trigger] holding(steps, sc, r) == r
}

/// Whether a remaining move still wants to read `r`.
pub open spec fn wanted(left: Seq<(Reg, Option<Reg>)>, r: Reg) -> bool {
    exists|j: int|
        0 <= j < left.len() && (#[trigger] left[j]).1 is Some && left[j].1->0@ == r@
}

/// Whether every remaining move writes a register another still wants.
pub open spec fn all_wanted(left: Seq<(Reg, Option<Reg>)>) -> bool {
    forall|i: int| 0 <= i < left.len() ==> wanted(left, (#[trigger] left[i]).0)
}

/// Whether the index `k` of `moves` is one that no remaining move stands for.
pub open spec fn done(idx: Seq<int>, k: int) -> bool {
    forall|i: int| 0 <= i < idx.len() ==> (#[trigger] idx[i]) != k
}

/// Whether a move already made wrote `r`.
pub open spec fn made_into(moves: Seq<(Reg, Reg)>, idx: Seq<int>, r: (Seq<char>, Class)) -> bool {
    exists|k: int| 0 <= k < moves.len() && done(idx, k) && (#[trigger] moves[k]).0@ == r
}

/// Whether a remaining move reads the scratch register.
pub open spec fn reads_scratch(left: Seq<(Reg, Option<Reg>)>) -> bool {
    exists|i: int| 0 <= i < left.len() && (#[trigger] left[i]).1 is None
}

/// What holds between the rounds of `ordered`: each remaining move stands
/// for one of `moves`, reading either its own source or the scratch register
/// that holds what `saved` held; every move already made has left its
/// destination holding its source; every register no made move wrote is as
/// it was; and nothing still wanted has been written over.
pub open spec fn between(
    moves: Seq<(Reg, Reg)>,
    left: Seq<(Reg, Option<Reg>)>,
    idx: Seq<int>,
    out: Seq<Step>,
    saved: (Seq<char>, Class),
) -> bool {
    &&& left.len() == idx.len()
    &&& forall|i: int| 0 <= i < idx.len() ==> 0 <= #[trigger] idx[i] < moves.len()
    &&& forall|i: int, j: int| 0 <= i < j < idx.len() ==> idx[i] != idx[j]
    &&& forall|i: int| 0 <= i < left.len() ==> (#[trigger] left[i]).0 == moves[idx[i]].0
    &&& forall|i: int|
        0 <= i < left.len() ==> ((#[trigger] left[i]).1 is Some ==> left[i].1->0 == moves[idx[i]].1)
    &&& forall|i: int|
        0 <= i < left.len() ==> ((#[trigger] left[i]).1 is None ==> moves[idx[i]].1@ == saved)
    &&& forall|i: int, k: int|
        0 <= i < left.len() && 0 <= k < moves.len() && done(idx, k) && (#[trigger] left[i]).1 is Some
            ==> left[i].1->0@ != (#[trigger] moves[k]).0@
    &&& forall|sc: (Seq<char>, Class), k: int|
        0 <= k < moves.len() && done(idx, k) ==> #[trigger] holding(out, sc, moves[k].0@) == moves[k].1@
    &&& forall|sc: (Seq<char>, Class), r: (Seq<char>, Class)|
        !made_into(moves, idx, r) ==> #[trigger] holding(out, sc, r) == r
    &&& forall|sc: (Seq<char>, Class)|
        reads_scratch(left) ==> (#[trigger] played(out, sc)).1 == saved
}

/// Where every remaining move is wanted, none of them reads the scratch
/// register. Each move's destination is read by some other's source, and two
/// moves never share a destination, so that is an injection from all of them
/// into the ones with a register for a source.
proof fn all_wanted_reads_no_scratch(left: Seq<(Reg, Option<Reg>)>)
    requires
        forall|i: int, j: int| 0 <= i < j < left.len() ==> (#[trigger] left[i]).0@ != (#[trigger] left[j]).0@,
        all_wanted(left),
    ensures
        forall|i: int| 0 <= i < left.len() ==> (#[trigger] left[i]).1 is Some,
{
    let all = Set::new(|i: int| 0 <= i < left.len());
    let some = Set::new(|i: int| 0 <= i < left.len() && left[i].1 is Some);
    let blocker = |i: int|
        choose|j: int| 0 <= j < left.len() && (#[trigger] left[j]).1 is Some && left[j].1->0@ == left[i].0@;
    vstd::set_lib::lemma_int_range(0, left.len() as int);
    assert(all =~= vstd::set_lib::set_int_range(0, left.len() as int));
    assert forall|i: int| all.contains(i) implies some.contains(blocker(i)) by {
        assert(wanted(left, left[i].0));
    }
    assert(vstd::relations::injective_on(blocker, all)) by {
        assert forall|a: int, b: int| all.contains(a) && all.contains(b) && #[trigger] blocker(a) == #[trigger] blocker(b) implies a == b by {
            assert(wanted(left, left[a].0));
            assert(wanted(left, left[b].0));
            if a < b {
                assert(left[a].0@ != left[b].0@);
            } else if b < a {
                assert(left[b].0@ != left[a].0@);
            }
        }
    }
    let image = all.map(blocker);
    lemma_map_size(all, image, blocker);
    assert(image.subset_of(some)) by {
        assert forall|j: int| image.contains(j) implies some.contains(j) by {
            let i = choose|i: int| all.contains(i) && blocker(i) == j;
        }
    }
    assert(some.subset_of(all));
    vstd::set_lib::lemma_len_subset(image, some);
    vstd::set_lib::lemma_len_subset(some, all);
    assert(some.finite()) by {
        vstd::set_lib::lemma_set_subset_finite(all, some);
    }
    assert(some =~= all) by {
        vstd::set_lib::lemma_subset_equality(some, all);
    }
    assert forall|i: int| 0 <= i < left.len() implies (#[trigger] left[i]).1 is Some by {
        assert(all.contains(i));
        assert(some.contains(i));
    }
}

/// Putting aside what `to` holds, where nothing reads the scratch register
/// yet, and pointing every move that wanted `to` at the scratch register
/// instead, keeps every promise `between` makes.
proof fn ordered_saves(
    kept: Seq<(Reg, Reg)>,
    before: Seq<(Reg, Option<Reg>)>,
    after: Seq<(Reg, Option<Reg>)>,
    idx: Seq<int>,
    out0: Seq<Step>,
    out: Seq<Step>,
    saved: (Seq<char>, Class),
    to: Reg,
)
    requires
        forall|a: int, b: int| 0 <= a < b < kept.len() ==> (#[trigger] kept[a]).0@ != (#[trigger] kept[b]).0@,
        between(kept, before, idx, out0, saved),
        forall|i: int| 0 <= i < before.len() ==> (#[trigger] before[i]).1 is Some,
        before.len() > 0,
        to == before[0].0,
        out == out0.push(Step::Save(to)),
        after.len() == before.len(),
        forall|j: int| 0 <= j < after.len() ==> (#[trigger] after[j]).0 == before[j].0,
        forall|j: int|
            0 <= j < after.len() ==> (#[trigger] after[j]).1 == (if before[j].1 is Some && before[j].1->0@ == to@ {
                None
            } else {
                before[j].1
            }),
    ensures
        between(kept, after, idx, out, to@),
{
    assert(out.drop_last() =~= out0);
    assert forall|sc: (Seq<char>, Class), r: (Seq<char>, Class)| #[trigger] holding(out, sc, r) == holding(out0, sc, r) by {
    }
    assert forall|sc: (Seq<char>, Class)| (#[trigger] played(out, sc)).1 == to@ by {
        assert(played(out, sc).1 == holding(out0, sc, to@));
        if made_into(kept, idx, to@) {
            let k = choose|k: int| 0 <= k < kept.len() && done(idx, k) && (#[trigger] kept[k]).0@ == to@;
            assert(idx[0] != k);
            assert(kept[idx[0]].0@ == to@);
        }
    }
    assert forall|sc: (Seq<char>, Class), k: int|
        0 <= k < kept.len() && done(idx, k) implies #[trigger] holding(out, sc, kept[k].0@) == kept[k].1@ by {
        assert(holding(out, sc, kept[k].0@) == holding(out0, sc, kept[k].0@));
    }
    assert forall|sc: (Seq<char>, Class), r: (Seq<char>, Class)|
        !made_into(kept, idx, r) implies #[trigger] holding(out, sc, r) == r by {
        assert(holding(out, sc, r) == holding(out0, sc, r));
    }
    assert forall|i: int| 0 <= i < after.len() implies ((#[trigger] after[i]).1 is None ==> kept[idx[i]].1@ == to@) by {
        assert(before[i].1 is Some);
    }
    assert forall|i: int, k: int|
        0 <= i < after.len() && 0 <= k < kept.len() && done(idx, k) && (#[trigger] after[i]).1 is Some
            implies after[i].1->0@ != (#[trigger] kept[k]).0@ by {
        assert(before[i].1 is Some);
    }
}

/// Making the move at `at`, whose destination nothing remaining reads,
/// keeps every promise `between` makes once that move is taken off the list.
proof fn ordered_makes(
    kept: Seq<(Reg, Reg)>,
    left: Seq<(Reg, Option<Reg>)>,
    idx: Seq<int>,
    out0: Seq<Step>,
    out: Seq<Step>,
    saved: (Seq<char>, Class),
    at: int,
)
    requires
        forall|a: int, b: int| 0 <= a < b < kept.len() ==> (#[trigger] kept[a]).0@ != (#[trigger] kept[b]).0@,
        between(kept, left, idx, out0, saved),
        0 <= at < left.len(),
        !wanted(left, left[at].0),
        out == out0.push(
            match left[at].1 {
                Some(one) => Step::Move { to: left[at].0, from: one },
                None => Step::Restore(left[at].0),
            },
        ),
    ensures
        between(kept, left.remove(at), idx.remove(at), out, saved),
{
    let nleft = left.remove(at);
    let nidx = idx.remove(at);
    let k0 = idx[at];
    let e = left[at];
    assert(out.drop_last() =~= out0);
    assert forall|k: int| 0 <= k < kept.len() implies (done(nidx, k) <==> (done(idx, k) || k == k0)) by {
        if done(idx, k) {
            assert forall|i: int| 0 <= i < nidx.len() implies (#[trigger] nidx[i]) != k by {
                if i < at {
                    assert(nidx[i] == idx[i]);
                } else {
                    assert(nidx[i] == idx[i + 1]);
                }
            }
        }
        if k == k0 {
            assert forall|i: int| 0 <= i < nidx.len() implies (#[trigger] nidx[i]) != k by {
                if i < at {
                    assert(nidx[i] == idx[i]);
                } else {
                    assert(nidx[i] == idx[i + 1]);
                }
            }
        }
        if done(nidx, k) && k != k0 {
            assert forall|i: int| 0 <= i < idx.len() implies (#[trigger] idx[i]) != k by {
                if i < at {
                    assert(nidx[i] == idx[i]);
                } else if i > at {
                    assert(nidx[i - 1] == idx[i]);
                }
            }
        }
    }
    assert forall|sc: (Seq<char>, Class), r: (Seq<char>, Class)|
        r != e.0@ implies #[trigger] holding(out, sc, r) == holding(out0, sc, r) by {
    }
    assert forall|sc: (Seq<char>, Class)| #[trigger] holding(out, sc, e.0@) == kept[k0].1@ by {
        match e.1 {
            Some(one) => {
                assert(one == kept[k0].1);
                assert(holding(out, sc, e.0@) == holding(out0, sc, one@));
                if made_into(kept, idx, one@) {
                    let k = choose|k: int| 0 <= k < kept.len() && done(idx, k) && (#[trigger] kept[k]).0@ == one@;
                    assert(left[at].1->0@ != kept[k].0@);
                }
            },
            None => {
                assert(reads_scratch(left));
                assert(played(out0, sc).1 == saved);
            },
        }
    }
    assert forall|sc: (Seq<char>, Class)| (#[trigger] played(out, sc)).1 == played(out0, sc).1 by {
    }
    assert forall|sc: (Seq<char>, Class), k: int|
        0 <= k < kept.len() && done(nidx, k) implies #[trigger] holding(out, sc, kept[k].0@) == kept[k].1@ by {
        if k != k0 {
            assert(kept[k].0 == kept[k].0);
            assert(kept[k0].0 == e.0);
            if k < k0 {
                assert(kept[k].0@ != kept[k0].0@);
            } else {
                assert(kept[k0].0@ != kept[k].0@);
            }
            assert(holding(out, sc, kept[k].0@) == holding(out0, sc, kept[k].0@));
        }
    }
    assert forall|sc: (Seq<char>, Class), r: (Seq<char>, Class)|
        !made_into(kept, nidx, r) implies #[trigger] holding(out, sc, r) == r by {
        assert(kept[k0].0 == e.0);
        assert(r != e.0@);
        assert(holding(out, sc, r) == holding(out0, sc, r));
        if made_into(kept, idx, r) {
            let k = choose|k: int| 0 <= k < kept.len() && done(idx, k) && (#[trigger] kept[k]).0@ == r;
            assert(done(nidx, k));
        }
    }
    assert forall|sc: (Seq<char>, Class)| reads_scratch(nleft) implies (#[trigger] played(out, sc)).1 == saved by {
        let i = choose|i: int| 0 <= i < nleft.len() && (#[trigger] nleft[i]).1 is None;
        if i < at {
            assert(left[i] == nleft[i]);
        } else {
            assert(left[i + 1] == nleft[i]);
        }
        assert(reads_scratch(left));
    }
    assert forall|i: int, k: int|
        0 <= i < nleft.len() && 0 <= k < kept.len() && done(nidx, k) && (#[trigger] nleft[i]).1 is Some
            implies nleft[i].1->0@ != (#[trigger] kept[k]).0@ by {
        let j = if i < at { i } else { i + 1 };
        assert(left[j] == nleft[i]);
        if k == k0 {
            assert(kept[k0].0 == e.0);
            if nleft[i].1->0@ == e.0@ {
                assert(wanted(left, e.0));
            }
        }
    }
    assert forall|i: int, j: int| 0 <= i < j < nidx.len() implies nidx[i] != nidx[j] by {
        let a = if i < at { i } else { i + 1 };
        let b = if j < at { j } else { j + 1 };
        assert(nidx[i] == idx[a]);
        assert(nidx[j] == idx[b]);
    }
    assert forall|i: int| 0 <= i < nleft.len() implies (#[trigger] nleft[i]).0 == kept[nidx[i]].0 && (nleft[i].1 is Some ==> nleft[i].1->0 == kept[nidx[i]].1) && (nleft[i].1 is None ==> kept[nidx[i]].1@ == saved) && 0 <= nidx[i] < kept.len() by {
        let a = if i < at { i } else { i + 1 };
        assert(nidx[i] == idx[a]);
        assert(nleft[i] == left[a]);
    }
}

/// With nothing left to move, every one of `moves` has been made.
proof fn ordered_finishes(
    moves: Seq<(Reg, Reg)>,
    kept: Seq<(Reg, Reg)>,
    from_of: Seq<int>,
    idx: Seq<int>,
    out: Seq<Step>,
    saved: (Seq<char>, Class),
)
    requires
        destinations_distinct(moves),
        between(kept, Seq::empty(), idx, out, saved),
        kept.len() == from_of.len(),
        forall|j: int| 0 <= j < kept.len() ==> 0 <= #[trigger] from_of[j] < moves.len(),
        forall|j: int, k: int| 0 <= j < k < kept.len() ==> from_of[j] < from_of[k],
        forall|j: int| 0 <= j < kept.len() ==> (#[trigger] kept[j]) == moves[from_of[j]],
        forall|j: int| 0 <= j < kept.len() ==> (#[trigger] kept[j]).0@ != kept[j].1@,
        forall|m: int|
            0 <= m < moves.len() && (#[trigger] moves[m]).0@ != moves[m].1@ ==> exists|j: int|
                0 <= j < kept.len() && #[trigger] from_of[j] == m,
    ensures
        realizes(out, moves),
{
    assert(idx.len() == 0);
    assert forall|k: int| 0 <= k < kept.len() implies done(idx, k) by {
    }
    assert forall|sc: (Seq<char>, Class), i: int|
        0 <= i < moves.len() implies #[trigger] holding(out, sc, moves[i].0@) == moves[i].1@ by {
        if moves[i].0@ != moves[i].1@ {
            let j = choose|j: int| 0 <= j < kept.len() && #[trigger] from_of[j] == i;
            assert(kept[j] == moves[i]);
            assert(done(idx, j));
        } else {
            if made_into(kept, idx, moves[i].0@) {
                let k = choose|k: int| 0 <= k < kept.len() && done(idx, k) && (#[trigger] kept[k]).0@ == moves[i].0@;
                assert(kept[k] == moves[from_of[k]]);
                if from_of[k] < i {
                    assert(moves[from_of[k]].0@ != moves[i].0@);
                } else if from_of[k] > i {
                    assert(moves[i].0@ != moves[from_of[k]].0@);
                }
            }
        }
    }
    assert forall|sc: (Seq<char>, Class), r: (Seq<char>, Class)|
        !written(moves, r) implies #[trigger] holding(out, sc, r) == r by {
        if made_into(kept, idx, r) {
            let k = choose|k: int| 0 <= k < kept.len() && done(idx, k) && (#[trigger] kept[k]).0@ == r;
            assert(kept[k] == moves[from_of[k]]);
            assert(written(moves, r));
        }
    }
}

// ---- Which order exactly ---------------------------------------------------

/// The step that makes a remaining move: from its source, or back out of the
/// scratch register where its source was put aside.
pub open spec fn step_of(e: (Reg, Option<Reg>)) -> Step {
    match e.1 {
        Some(one) => Step::Move { to: e.0, from: one },
        None => Step::Restore(e.0),
    }
}

/// The moves that do something, in the order given: every one whose
/// destination is not its source.
pub open spec fn pending(moves: Seq<(Reg, Reg)>, n: int) -> Seq<(Reg, Option<Reg>)>
    decreases n,
{
    if n <= 0 {
        Seq::empty()
    } else {
        pending(moves, n - 1) + if moves[n - 1].0@ != moves[n - 1].1@ {
            seq![(moves[n - 1].0, Some(moves[n - 1].1))]
        } else {
            Seq::empty()
        }
    }
}

/// The steps for the moves of `left` from `lo` up to `hi` whose destination
/// nothing still wants, the last of them first.
pub open spec fn ready_between(left: Seq<(Reg, Option<Reg>)>, lo: int, hi: int) -> Seq<Step>
    decreases hi - lo,
{
    if hi <= lo {
        Seq::empty()
    } else {
        (if !wanted(left, left[hi - 1].0) {
            seq![step_of(left[hi - 1])]
        } else {
            Seq::empty()
        }) + ready_between(left, lo, hi - 1)
    }
}

/// The moves of `left` from `lo` up to `hi` that still have to wait, in
/// order.
pub open spec fn waiting_between(left: Seq<(Reg, Option<Reg>)>, lo: int, hi: int) -> Seq<(Reg, Option<Reg>)>
    decreases hi - lo,
{
    if hi <= lo {
        Seq::empty()
    } else {
        waiting_between(left, lo, hi - 1) + if wanted(left, left[hi - 1].0) {
            seq![left[hi - 1]]
        } else {
            Seq::empty()
        }
    }
}

/// `left` with every move that wanted `to` reading the scratch register
/// instead.
pub open spec fn unsourced(left: Seq<(Reg, Option<Reg>)>, to: Reg) -> Seq<(Reg, Option<Reg>)> {
    Seq::new(
        left.len(),
        |j: int| if left[j].1 is Some && left[j].1->0@ == to@ { (left[j].0, None::<Reg>) } else { left[j] },
    )
}

proof fn waiting_no_longer(left: Seq<(Reg, Option<Reg>)>, lo: int, hi: int)
    requires
        lo <= hi,
    ensures
        waiting_between(left, lo, hi).len() <= hi - lo,
        (exists|c: int| lo <= c < hi && !wanted(left, (#[trigger] left[c]).0)) ==> waiting_between(left, lo, hi).len() < hi - lo,
    decreases hi - lo,
{
    if hi > lo {
        waiting_no_longer(left, lo, hi - 1);
        if exists|c: int| lo <= c < hi && !wanted(left, (#[trigger] left[c]).0) {
            let c = choose|c: int| lo <= c < hi && !wanted(left, (#[trigger] left[c]).0);
            if c < hi - 1 {
                assert(lo <= c < hi - 1 && !wanted(left, left[c].0));
            }
        }
    }
}

proof fn unsourced_frees(left: Seq<(Reg, Option<Reg>)>)
    requires
        left.len() > 0,
    ensures
        unsourced(left, left[0].0).len() == left.len(),
        !all_wanted(unsourced(left, left[0].0)),
{
    let u = unsourced(left, left[0].0);
    assert(u[0].0 == left[0].0);
    if wanted(u, u[0].0) {
        let j = choose|j: int| 0 <= j < u.len() && (#[trigger] u[j]).1 is Some && u[j].1->0@ == u[0].0@;
        assert(u[j] == left[j]);
    }
}

/// Every step `ordered` takes from the moves `left` on: where every one of
/// them writes something another still wants, the first one's destination is
/// put aside and whatever wanted it reads the scratch register; otherwise the
/// ones nothing wants go, the last of them first, and the rest wait.
#[verifier::opaque]
pub closed spec fn steps_from(left: Seq<(Reg, Option<Reg>)>) -> Seq<Step>
    decreases 2 * left.len() + if all_wanted(left) { 1int } else { 0int },
{
    if left.len() == 0 {
        Seq::empty()
    } else if all_wanted(left) {
        proof {
            unsourced_frees(left);
        }
        seq![Step::Save(left[0].0)] + steps_from(unsourced(left, left[0].0))
    } else {
        proof {
            let c = choose|c: int| 0 <= c < left.len() && !wanted(left, (#[trigger] left[c]).0);
            assert(0 <= c < left.len() && !wanted(left, left[c].0));
            waiting_no_longer(left, 0, left.len() as int);
        }
        ready_between(left, 0, left.len() as int) + steps_from(waiting_between(left, 0, left.len() as int))
    }
}

proof fn steps_from_saves(left: Seq<(Reg, Option<Reg>)>)
    requires
        left.len() > 0,
        all_wanted(left),
    ensures
        steps_from(left) == seq![Step::Save(left[0].0)] + steps_from(unsourced(left, left[0].0)),
{
    reveal(steps_from);
}

proof fn steps_from_ready(left: Seq<(Reg, Option<Reg>)>)
    requires
        left.len() > 0,
        !all_wanted(left),
    ensures
        steps_from(left) == ready_between(left, 0, left.len() as int) + steps_from(waiting_between(left, 0, left.len() as int)),
{
    reveal(steps_from);
}

proof fn steps_from_none(left: Seq<(Reg, Option<Reg>)>)
    requires
        left.len() == 0,
    ensures
        steps_from(left) == Seq::<Step>::empty(),
{
    reveal(steps_from);
}

/// The steps `ordered` gives for `moves`.
pub open spec fn order_of(moves: Seq<(Reg, Reg)>) -> Seq<Step> {
    steps_from(pending(moves, moves.len() as int))
}

proof fn ready_between_split(left: Seq<(Reg, Option<Reg>)>, a: int, b: int, c: int)
    requires
        a <= b <= c,
    ensures
        ready_between(left, a, c) == ready_between(left, b, c) + ready_between(left, a, b),
        waiting_between(left, a, c) == waiting_between(left, a, b) + waiting_between(left, b, c),
    decreases c - b,
{
    if c == b {
        assert(ready_between(left, b, c) =~= Seq::<Step>::empty());
        assert(ready_between(left, a, c) =~= ready_between(left, b, c) + ready_between(left, a, b));
        assert(waiting_between(left, a, c) =~= waiting_between(left, a, b) + waiting_between(left, b, c));
    } else {
        ready_between_split(left, a, b, c - 1);
        assert(ready_between(left, a, c) =~= ready_between(left, b, c) + ready_between(left, a, b));
        assert(waiting_between(left, a, c) =~= waiting_between(left, a, b) + waiting_between(left, b, c));
    }
}

proof fn all_wait_between(left: Seq<(Reg, Option<Reg>)>, a: int, b: int)
    requires
        0 <= a <= b <= left.len(),
        forall|c: int| a <= c < b ==> wanted(left, (#[trigger] left[c]).0),
    ensures
        ready_between(left, a, b) == Seq::<Step>::empty(),
        waiting_between(left, a, b) == left.subrange(a, b),
    decreases b - a,
{
    if b > a {
        all_wait_between(left, a, b - 1);
        assert(wanted(left, left[b - 1].0));
        assert(ready_between(left, a, b) =~= Seq::<Step>::empty());
        assert(waiting_between(left, a, b) =~= left.subrange(a, b));
    }
}

/// Where the moves handled so far in a round begin: at the `k`th of `ready`,
/// or at the end while none has been.
pub open spec fn lo_of(ready: Seq<usize>, k: int, n: int) -> int {
    if k < ready.len() {
        ready[k] as int
    } else {
        n
    }
}

proof fn ready_round_step(
    round: Seq<(Reg, Option<Reg>)>,
    ready: Seq<usize>,
    k: int,
    out_r: Seq<Step>,
    out0: Seq<Step>,
    left0: Seq<(Reg, Option<Reg>)>,
)
    requires
        0 < k <= ready.len(),
        forall|m: int| 0 <= m < ready.len() ==> #[trigger] ready[m] < round.len(),
        forall|m: int, n: int| 0 <= m < n < ready.len() ==> ready[m] < ready[n],
        forall|m: int| 0 <= m < ready.len() ==> !wanted(round, round[#[trigger] ready[m] as int].0),
        forall|c: int|
            0 <= c < round.len() && !wanted(round, (#[trigger] round[c]).0) ==> exists|m: int|
                0 <= m < ready.len() && ready[m] == c,
        out0 == out_r + ready_between(round, lo_of(ready, k, round.len() as int), round.len() as int),
        left0 == round.subrange(0, lo_of(ready, k, round.len() as int)) + waiting_between(
            round,
            lo_of(ready, k, round.len() as int),
            round.len() as int,
        ),
    ensures
        ready[k - 1] < left0.len(),
        left0[ready[k - 1] as int] == round[ready[k - 1] as int],
        out0.push(step_of(round[ready[k - 1] as int])) == out_r + ready_between(
            round,
            lo_of(ready, k - 1, round.len() as int),
            round.len() as int,
        ),
        left0.remove(ready[k - 1] as int) == round.subrange(0, lo_of(ready, k - 1, round.len() as int)) + waiting_between(
            round,
            lo_of(ready, k - 1, round.len() as int),
            round.len() as int,
        ),
{
    let n = round.len() as int;
    let lo = lo_of(ready, k, n);
    let at = ready[k - 1] as int;
    assert(lo_of(ready, k - 1, n) == at);
    assert(at < lo) by {
        if k < ready.len() {
            assert(ready[k - 1] < ready[k]);
        }
    }
    assert forall|c: int| at + 1 <= c < lo implies wanted(round, (#[trigger] round[c]).0) by {
        if !wanted(round, round[c].0) {
            let m = choose|m: int| 0 <= m < ready.len() && ready[m] == c;
            if m <= k - 1 {
                if m < k - 1 {
                    assert(ready[m] < ready[k - 1]);
                }
            } else if m >= k {
                if m > k {
                    assert(ready[k] < ready[m]);
                }
                assert(k < ready.len());
            }
        }
    }
    all_wait_between(round, at + 1, lo);
    ready_between_split(round, at, lo, n);
    ready_between_split(round, at, at + 1, lo);
    assert(ready_between(round, at, at + 1) =~= seq![step_of(round[at])]) by {
        assert(!wanted(round, round[at].0));
        assert(ready_between(round, at, at) =~= Seq::<Step>::empty());
    }
    assert(waiting_between(round, at, at + 1) =~= Seq::<(Reg, Option<Reg>)>::empty()) by {
        assert(!wanted(round, round[at].0));
        assert(waiting_between(round, at, at) =~= Seq::<(Reg, Option<Reg>)>::empty());
    }
    let w = waiting_between(round, lo, n);
    assert(left0.len() == lo + w.len());
    assert(left0[at] == round.subrange(0, lo)[at]);
    assert(out0.push(step_of(round[at])) =~= out_r + ready_between(round, at, n));
    assert(left0.remove(at) =~= round.subrange(0, at) + waiting_between(round, at, n)) by {
        assert(waiting_between(round, at, lo) =~= round.subrange(at + 1, lo));
        assert(waiting_between(round, at, n) =~= round.subrange(at + 1, lo) + w);
    }
}

proof fn ready_round_end(
    round: Seq<(Reg, Option<Reg>)>,
    ready: Seq<usize>,
    out_r: Seq<Step>,
    out0: Seq<Step>,
    left0: Seq<(Reg, Option<Reg>)>,
)
    requires
        ready.len() > 0,
        forall|m: int| 0 <= m < ready.len() ==> #[trigger] ready[m] < round.len(),
        forall|m: int, n: int| 0 <= m < n < ready.len() ==> ready[m] < ready[n],
        forall|c: int|
            0 <= c < round.len() && !wanted(round, (#[trigger] round[c]).0) ==> exists|m: int|
                0 <= m < ready.len() && ready[m] == c,
        out0 == out_r + ready_between(round, lo_of(ready, 0, round.len() as int), round.len() as int),
        left0 == round.subrange(0, lo_of(ready, 0, round.len() as int)) + waiting_between(
            round,
            lo_of(ready, 0, round.len() as int),
            round.len() as int,
        ),
    ensures
        out0 == out_r + ready_between(round, 0, round.len() as int),
        left0 == waiting_between(round, 0, round.len() as int),
{
    let n = round.len() as int;
    let lo = ready[0] as int;
    assert forall|c: int| 0 <= c < lo implies wanted(round, (#[trigger] round[c]).0) by {
        if !wanted(round, round[c].0) {
            let m = choose|m: int| 0 <= m < ready.len() && ready[m] == c;
            if m > 0 {
                assert(ready[0] < ready[m]);
            }
        }
    }
    all_wait_between(round, 0, lo);
    ready_between_split(round, 0, lo, n);
    assert(out0 =~= out_r + ready_between(round, 0, n));
    assert(left0 =~= waiting_between(round, 0, n));
}

proof fn save_keeps_order(
    start: Seq<(Reg, Option<Reg>)>,
    out0: Seq<Step>,
    out: Seq<Step>,
    before: Seq<(Reg, Option<Reg>)>,
    left: Seq<(Reg, Option<Reg>)>,
    to: Reg,
)
    requires
        steps_from(start) == out0 + steps_from(before),
        before.len() > 0,
        all_wanted(before),
        to == before[0].0,
        out == out0.push(Step::Save(to)),
        left.len() == before.len(),
        forall|j: int| 0 <= j < left.len() ==> (#[trigger] left[j]).0 == before[j].0,
        forall|j: int|
            0 <= j < left.len() ==> (#[trigger] left[j]).1 == (if before[j].1 is Some && before[j].1->0@ == to@ {
                None
            } else {
                before[j].1
            }),
    ensures
        steps_from(start) == out + steps_from(left),
{
    assert(left =~= unsourced(before, to));
    steps_from_saves(before);
    assert(steps_from(start) =~= out + steps_from(left));
}

proof fn round_begins(
    round: Seq<(Reg, Option<Reg>)>,
    ready: Seq<usize>,
    out_r: Seq<Step>,
)
    requires
        ready.len() > 0,
        forall|m: int| 0 <= m < ready.len() ==> #[trigger] ready[m] < round.len(),
        forall|m: int| 0 <= m < ready.len() ==> !wanted(round, round[#[trigger] ready[m] as int].0),
    ensures
        !all_wanted(round),
        round.len() > 0,
        out_r == out_r + ready_between(round, lo_of(ready, ready.len() as int, round.len() as int), round.len() as int),
        round == round.subrange(0, lo_of(ready, ready.len() as int, round.len() as int)) + waiting_between(
            round,
            lo_of(ready, ready.len() as int, round.len() as int),
            round.len() as int,
        ),
{
    let c = ready[0] as int;
    assert(!wanted(round, round[c].0));
    let n = round.len() as int;
    assert(ready_between(round, n, n) =~= Seq::<Step>::empty());
    assert(waiting_between(round, n, n) =~= Seq::<(Reg, Option<Reg>)>::empty());
    assert(out_r =~= out_r + ready_between(round, n, n));
    assert(round =~= round.subrange(0, n) + waiting_between(round, n, n));
}

proof fn round_ends(
    start: Seq<(Reg, Option<Reg>)>,
    round: Seq<(Reg, Option<Reg>)>,
    ready: Seq<usize>,
    out_r: Seq<Step>,
    out: Seq<Step>,
    left: Seq<(Reg, Option<Reg>)>,
)
    requires
        ready.len() > 0,
        round.len() > 0,
        !all_wanted(round),
        steps_from(start) == out_r + steps_from(round),
        forall|m: int| 0 <= m < ready.len() ==> #[trigger] ready[m] < round.len(),
        forall|m: int, n: int| 0 <= m < n < ready.len() ==> ready[m] < ready[n],
        forall|c: int|
            0 <= c < round.len() && !wanted(round, (#[trigger] round[c]).0) ==> exists|m: int|
                0 <= m < ready.len() && ready[m] == c,
        out == out_r + ready_between(round, lo_of(ready, 0, round.len() as int), round.len() as int),
        left == round.subrange(0, lo_of(ready, 0, round.len() as int)) + waiting_between(
            round,
            lo_of(ready, 0, round.len() as int),
            round.len() as int,
        ),
    ensures
        steps_from(start) == out + steps_from(left),
{
    ready_round_end(round, ready, out_r, out, left);
    steps_from_ready(round);
    assert(steps_from(start) =~= out + steps_from(left));
}

// ---- How many steps ------------------------------------------------------

/// How many of `steps` write a register: the moves and the restores.
pub open spec fn writes_in(steps: Seq<Step>) -> nat
    decreases steps.len(),
{
    if steps.len() == 0 {
        0
    } else {
        writes_in(steps.drop_last()) + if steps.last() is Save { 0nat } else { 1nat }
    }
}

/// How many of `moves` change something: those whose destination is not
/// their source.
pub open spec fn changing(moves: Seq<(Reg, Reg)>) -> nat
    decreases moves.len(),
{
    if moves.len() == 0 {
        0
    } else {
        changing(moves.drop_last()) + if moves.last().0@ != moves.last().1@ { 1nat } else { 0nat }
    }
}

proof fn writes_in_add(a: Seq<Step>, b: Seq<Step>)
    ensures
        writes_in(a + b) == writes_in(a) + writes_in(b),
    decreases b.len(),
{
    if b.len() == 0 {
        assert(a + b =~= a);
    } else {
        writes_in_add(a, b.drop_last());
        assert((a + b).drop_last() =~= a + b.drop_last());
    }
}

proof fn pending_counts(moves: Seq<(Reg, Reg)>, n: int)
    requires
        0 <= n <= moves.len(),
    ensures
        pending(moves, n).len() == changing(moves.take(n)),
    decreases n,
{
    if n > 0 {
        pending_counts(moves, n - 1);
        assert(moves.take(n).drop_last() =~= moves.take(n - 1));
    }
}

proof fn ready_counts(left: Seq<(Reg, Option<Reg>)>, lo: int, hi: int)
    requires
        lo <= hi,
    ensures
        writes_in(ready_between(left, lo, hi)) + waiting_between(left, lo, hi).len() == hi - lo,
    decreases hi - lo,
{
    if hi > lo {
        ready_counts(left, lo, hi - 1);
        let rest = ready_between(left, lo, hi - 1);
        if !wanted(left, left[hi - 1].0) {
            let one = seq![step_of(left[hi - 1])];
            writes_in_add(one, rest);
            assert(one.drop_last() =~= Seq::<Step>::empty());
            assert(!(step_of(left[hi - 1]) is Save));
            assert(writes_in(Seq::<Step>::empty()) == 0);
            assert(writes_in(one) == 1);
            assert(ready_between(left, lo, hi) == one + rest);
            assert(waiting_between(left, lo, hi) =~= waiting_between(left, lo, hi - 1));
        } else {
            assert(ready_between(left, lo, hi) =~= rest);
            assert(waiting_between(left, lo, hi).len() == waiting_between(left, lo, hi - 1).len() + 1);
        }
    }
}

proof fn steps_from_counts(left: Seq<(Reg, Option<Reg>)>)
    ensures
        writes_in(steps_from(left)) == left.len(),
    decreases 2 * left.len() + if all_wanted(left) { 1int } else { 0int },
{
    if left.len() == 0 {
        steps_from_none(left);
    } else if all_wanted(left) {
        unsourced_frees(left);
        steps_from_saves(left);
        let one = seq![Step::Save(left[0].0)];
        steps_from_counts(unsourced(left, left[0].0));
        writes_in_add(one, steps_from(unsourced(left, left[0].0)));
        assert(one.drop_last() =~= Seq::<Step>::empty());
        assert(writes_in(Seq::<Step>::empty()) == 0);
        assert(writes_in(one) == 0);
    } else {
        let n = left.len() as int;
        let c = choose|c: int| 0 <= c < left.len() && !wanted(left, (#[trigger] left[c]).0);
        assert(0 <= c < n && !wanted(left, left[c].0));
        waiting_no_longer(left, 0, n);
        steps_from_ready(left);
        ready_counts(left, 0, n);
        steps_from_counts(waiting_between(left, 0, n));
        writes_in_add(ready_between(left, 0, n), steps_from(waiting_between(left, 0, n)));
    }
}

/// Every move that changes something is made by exactly one step that
/// writes its destination -- a move from its source, or a restore of what was
/// put aside -- and no other step writes a register: the moves and the
/// restores `ordered` gives are as many as the moves whose destination is not
/// their source.
pub proof fn each_change_written_once(moves: Seq<(Reg, Reg)>)
    ensures
        writes_in(order_of(moves)) == changing(moves),
{
    pending_counts(moves, moves.len() as int);
    assert(moves.take(moves.len() as int) =~= moves);
    steps_from_counts(pending(moves, moves.len() as int));
}

/// How many of `steps` put a register aside.
pub open spec fn saves_in(steps: Seq<Step>) -> nat
    decreases steps.len(),
{
    if steps.len() == 0 {
        0
    } else {
        saves_in(steps.drop_last()) + if steps.last() is Save { 1nat } else { 0nat }
    }
}

/// How many of `steps` write the scratch register back into one.
pub open spec fn restores_in(steps: Seq<Step>) -> nat
    decreases steps.len(),
{
    if steps.len() == 0 {
        0
    } else {
        restores_in(steps.drop_last()) + if steps.last() is Restore { 1nat } else { 0nat }
    }
}

/// How many of the remaining moves from `lo` up to `hi` read the scratch
/// register.
pub open spec fn unsourced_between(left: Seq<(Reg, Option<Reg>)>, lo: int, hi: int) -> nat
    decreases hi - lo,
{
    if hi <= lo {
        0
    } else {
        unsourced_between(left, lo, hi - 1) + if left[hi - 1].1 is None { 1nat } else { 0nat }
    }
}

/// Whether no two remaining moves write the same register.
pub open spec fn left_distinct(left: Seq<(Reg, Option<Reg>)>) -> bool {
    forall|i: int, j: int| 0 <= i < j < left.len() ==> (#[trigger] left[i]).0@ != (#[trigger] left[j]).0@
}

proof fn saves_restores_add(a: Seq<Step>, b: Seq<Step>)
    ensures
        saves_in(a + b) == saves_in(a) + saves_in(b),
        restores_in(a + b) == restores_in(a) + restores_in(b),
    decreases b.len(),
{
    if b.len() == 0 {
        assert(a + b =~= a);
    } else {
        saves_restores_add(a, b.drop_last());
        assert((a + b).drop_last() =~= a + b.drop_last());
    }
}

proof fn unsourced_count_one(left: Seq<(Reg, Option<Reg>)>, lo: int, hi: int, j0: int)
    requires
        lo <= hi,
        forall|j: int| lo <= j < hi ==> ((#[trigger] left[j]).1 is None <==> j == j0),
    ensures
        unsourced_between(left, lo, hi) == if lo <= j0 < hi { 1nat } else { 0nat },
    decreases hi - lo,
{
    if hi > lo {
        unsourced_count_one(left, lo, hi - 1, j0);
    }
}

/// A move that reads what the `i`th remaining move writes.
pub open spec fn reader_of(left: Seq<(Reg, Option<Reg>)>, i: int) -> int {
    choose|j: int| 0 <= j < left.len() && (#[trigger] left[j]).1 is Some && left[j].1->0@ == left[i].0@
}

/// Whether the `x`th remaining move is the one picked to read what some move
/// writes.
pub open spec fn picked(left: Seq<(Reg, Option<Reg>)>, x: int) -> bool {
    exists|i: int| 0 <= i < left.len() && #[trigger] reader_of(left, i) == x
}

proof fn reader_reads(left: Seq<(Reg, Option<Reg>)>, i: int)
    requires
        all_wanted(left),
        0 <= i < left.len(),
    ensures
        0 <= reader_of(left, i) < left.len(),
        left[reader_of(left, i)].1 is Some,
        left[reader_of(left, i)].1->0@ == left[i].0@,
{
    assert(wanted(left, left[i].0));
}

/// Where every remaining move is wanted, picking for each one a move that
/// reads what it writes picks every move: two moves never write the same
/// register, so no move is picked twice.
#[verifier::spinoff_prover]
#[verifier::rlimit(100)]
proof fn readers_cover(left: Seq<(Reg, Option<Reg>)>)
    requires
        left_distinct(left),
        all_wanted(left),
    ensures
        forall|x: int| 0 <= x < left.len() ==> #[trigger] picked(left, x),
{
    let n = left.len() as int;
    let all = vstd::set_lib::set_int_range(0, n);
    let f = |i: int| reader_of(left, i);
    vstd::set_lib::lemma_int_range(0, n);
    assert(vstd::relations::injective_on(f, all)) by {
        assert forall|a: int, b: int| all.contains(a) && all.contains(b) && #[trigger] f(a) == #[trigger] f(b) implies a == b by {
            reader_reads(left, a);
            reader_reads(left, b);
            if a < b {
                assert(left[a].0@ != left[b].0@);
            } else if b < a {
                assert(left[b].0@ != left[a].0@);
            }
        }
    }
    let image = all.map(f);
    lemma_map_size(all, image, f);
    assert(image.subset_of(all)) by {
        assert forall|x: int| image.contains(x) implies all.contains(x) by {
            let i = choose|i: int| all.contains(i) && f(i) == x;
            reader_reads(left, i);
        }
    }
    vstd::set_lib::lemma_subset_equality(image, all);
    assert forall|x: int| 0 <= x < n implies #[trigger] picked(left, x) by {
        assert(all.contains(x));
        assert(image.contains(x));
        let i = choose|i: int| #[trigger] all.contains(i) && f(i) == x;
        assert(reader_of(left, i) == x);
        assert(0 <= i < n);
    }
}

/// Where every remaining move is wanted, exactly one of them reads what the
/// first of them writes.
proof fn one_reader(left: Seq<(Reg, Option<Reg>)>, j: int, k: int)
    requires
        left_distinct(left),
        all_wanted(left),
        0 <= j < left.len(),
        0 <= k < left.len(),
        left[j].1 is Some && left[j].1->0@ == left[0].0@,
        left[k].1 is Some && left[k].1->0@ == left[0].0@,
    ensures
        j == k,
{
    readers_cover(left);
    assert(picked(left, j) && picked(left, k));
    let ij = choose|i: int| 0 <= i < left.len() && #[trigger] reader_of(left, i) == j;
    let ik = choose|i: int| 0 <= i < left.len() && #[trigger] reader_of(left, i) == k;
    reader_reads(left, ij);
    reader_reads(left, ik);
    if ij != 0 {
        assert(left[0].0@ != left[ij].0@);
    }
    if ik != 0 {
        assert(left[0].0@ != left[ik].0@);
    }
}

proof fn ready_restores(left: Seq<(Reg, Option<Reg>)>, lo: int, hi: int)
    requires
        0 <= lo <= hi <= left.len(),
        left_distinct(left),
    ensures
        saves_in(ready_between(left, lo, hi)) == 0,
        restores_in(ready_between(left, lo, hi)) + unsourced_between(
            waiting_between(left, lo, hi),
            0,
            waiting_between(left, lo, hi).len() as int,
        ) == unsourced_between(left, lo, hi),
        left_distinct(waiting_between(left, lo, hi)),
        forall|i: int|
            0 <= i < waiting_between(left, lo, hi).len() ==> exists|k: int|
                lo <= k < hi && (#[trigger] waiting_between(left, lo, hi)[i]).0@ == left[k].0@,
    decreases hi - lo,
{
    if hi > lo {
        ready_restores(left, lo, hi - 1);
        let rest = ready_between(left, lo, hi - 1);
        let w0 = waiting_between(left, lo, hi - 1);
        let w = waiting_between(left, lo, hi);
        if !wanted(left, left[hi - 1].0) {
            let one = seq![step_of(left[hi - 1])];
            saves_restores_add(one, rest);
            assert(one.drop_last() =~= Seq::<Step>::empty());
            assert(saves_in(Seq::<Step>::empty()) == 0 && restores_in(Seq::<Step>::empty()) == 0);
            assert(ready_between(left, lo, hi) == one + rest);
            assert(w =~= w0);
        } else {
            assert(ready_between(left, lo, hi) =~= rest);
            assert(w =~= w0.push(left[hi - 1]));
            assert(w.drop_last() =~= w0);
            assert(unsourced_between(w, 0, w.len() as int) == unsourced_between(w, 0, w0.len() as int) + if left[hi - 1].1 is None { 1nat } else { 0nat });
            assert(unsourced_between(w, 0, w0.len() as int) == unsourced_between(w0, 0, w0.len() as int)) by {
                same_unsourced(w, w0, w0.len() as int);
            }
            assert forall|i: int, j: int| 0 <= i < j < w.len() implies (#[trigger] w[i]).0@ != (#[trigger] w[j]).0@ by {
                if j == w.len() - 1 {
                    assert(w[i] == w0[i]);
                    let k = choose|k: int| lo <= k < hi - 1 && (#[trigger] w0[i]).0@ == left[k].0@;
                    assert(left[k].0@ != left[hi - 1].0@);
                } else {
                    assert(w[i] == w0[i] && w[j] == w0[j]);
                }
            }
            assert forall|i: int| 0 <= i < w.len() implies exists|k: int| lo <= k < hi && (#[trigger] w[i]).0@ == left[k].0@ by {
                if i < w0.len() {
                    assert(w[i] == w0[i]);
                    let k = choose|k: int| lo <= k < hi - 1 && (#[trigger] w0[i]).0@ == left[k].0@;
                    assert(lo <= k < hi && w[i].0@ == left[k].0@);
                } else {
                    assert(w[i] == left[hi - 1]);
                }
            }
        }
    }
}

proof fn same_unsourced(a: Seq<(Reg, Option<Reg>)>, b: Seq<(Reg, Option<Reg>)>, n: int)
    requires
        0 <= n <= a.len(),
        n <= b.len(),
        forall|i: int| 0 <= i < n ==> a[i] == b[i],
    ensures
        unsourced_between(a, 0, n) == unsourced_between(b, 0, n),
    decreases n,
{
    if n > 0 {
        same_unsourced(a, b, n - 1);
    }
}

#[verifier::spinoff_prover]
#[verifier::rlimit(40)]
proof fn steps_from_restores(left: Seq<(Reg, Option<Reg>)>)
    requires
        left_distinct(left),
    ensures
        restores_in(steps_from(left)) == unsourced_between(left, 0, left.len() as int) + saves_in(steps_from(left)),
    decreases 2 * left.len() + if all_wanted(left) { 1int } else { 0int },
{
    let n = left.len() as int;
    if left.len() == 0 {
        steps_from_none(left);
    } else if all_wanted(left) {
        unsourced_frees(left);
        steps_from_saves(left);
        all_wanted_reads_no_scratch(left);
        let to = left[0].0;
        let u = unsourced(left, to);
        assert(wanted(left, left[0].0));
        let j0 = choose|j: int| 0 <= j < left.len() && (#[trigger] left[j]).1 is Some && left[j].1->0@ == to@;
        assert forall|j: int| 0 <= j < n implies ((#[trigger] u[j]).1 is None <==> j == j0) by {
            if u[j].1 is None {
                one_reader(left, j, j0);
            }
        }
        unsourced_count_one(u, 0, n, j0);
        unsourced_count_one(left, 0, n, -1);
        assert(left_distinct(u));
        steps_from_restores(u);
        let one = seq![Step::Save(to)];
        saves_restores_add(one, steps_from(u));
        assert(one.drop_last() =~= Seq::<Step>::empty());
        assert(saves_in(Seq::<Step>::empty()) == 0 && restores_in(Seq::<Step>::empty()) == 0);
    } else {
        let c = choose|c: int| 0 <= c < left.len() && !wanted(left, (#[trigger] left[c]).0);
        assert(0 <= c < n && !wanted(left, left[c].0));
        waiting_no_longer(left, 0, n);
        steps_from_ready(left);
        ready_restores(left, 0, n);
        steps_from_restores(waiting_between(left, 0, n));
        saves_restores_add(ready_between(left, 0, n), steps_from(waiting_between(left, 0, n)));
    }
}

proof fn pending_sourced(moves: Seq<(Reg, Reg)>, n: int)
    requires
        0 <= n <= moves.len(),
        destinations_distinct(moves),
    ensures
        left_distinct(pending(moves, n)),
        unsourced_between(pending(moves, n), 0, pending(moves, n).len() as int) == 0,
        forall|i: int| 0 <= i < pending(moves, n).len() ==> exists|k: int|
            0 <= k < n && (#[trigger] pending(moves, n)[i]).0@ == moves[k].0@,
    decreases n,
{
    if n > 0 {
        pending_sourced(moves, n - 1);
        let p0 = pending(moves, n - 1);
        let p = pending(moves, n);
        if moves[n - 1].0@ != moves[n - 1].1@ {
            assert(p =~= p0.push((moves[n - 1].0, Some(moves[n - 1].1))));
            assert(p.drop_last() =~= p0);
            same_unsourced(p, p0, p0.len() as int);
            assert forall|i: int, j: int| 0 <= i < j < p.len() implies (#[trigger] p[i]).0@ != (#[trigger] p[j]).0@ by {
                if j == p.len() - 1 {
                    assert(p[i] == p0[i]);
                    let k = choose|k: int| 0 <= k < n - 1 && (#[trigger] p0[i]).0@ == moves[k].0@;
                    assert(moves[k].0@ != moves[n - 1].0@);
                } else {
                    assert(p[i] == p0[i] && p[j] == p0[j]);
                }
            }
            assert forall|i: int| 0 <= i < p.len() implies exists|k: int| 0 <= k < n && (#[trigger] p[i]).0@ == moves[k].0@ by {
                if i < p0.len() {
                    assert(p[i] == p0[i]);
                    let k = choose|k: int| 0 <= k < n - 1 && (#[trigger] p0[i]).0@ == moves[k].0@;
                    assert(0 <= k < n && p[i].0@ == moves[k].0@);
                } else {
                    assert(p[i].0 == moves[n - 1].0);
                }
            }
        } else {
            assert(p =~= p0);
            assert forall|i: int| 0 <= i < p.len() implies exists|k: int| 0 <= k < n && (#[trigger] p[i]).0@ == moves[k].0@ by {
                let k = choose|k: int| 0 <= k < n - 1 && (#[trigger] p0[i]).0@ == moves[k].0@;
                assert(0 <= k < n && p[i].0@ == moves[k].0@);
            }
        }
    }
}

/// Where no two moves write the same register, every register `ordered`
/// puts aside is read back by exactly one move: the saves and the restores
/// are as many as each other.
pub proof fn saves_match_restores(moves: Seq<(Reg, Reg)>)
    requires
        destinations_distinct(moves),
    ensures
        saves_in(order_of(moves)) == restores_in(order_of(moves)),
{
    pending_sourced(moves, moves.len() as int);
    steps_from_restores(pending(moves, moves.len() as int));
}

/// The order to make a set of moves in so that none of them writes over
/// something a later one still wants.
///
/// A move whose destination nothing else reads may go now; what is left when
/// there are no such moves is a cycle, and it is broken by putting aside what
/// the first of them is about to write over -- the destination, not the
/// source -- and letting whatever wanted that register read the scratch
/// register in its own turn.
#[verifier::rlimit(60)]
#[verifier::spinoff_prover]
pub fn ordered(moves: &[(Reg, Reg)]) -> (r: Vec<Step>)
    ensures
        r@ == order_of(moves@),
        destinations_distinct(moves@) ==> realizes(r@, moves@),
        (forall|i: int| 0 <= i < moves@.len() ==> (#[trigger] moves@[i]).0@ == moves@[i].1@) ==> r@.len() == 0,
{
    // The moves that do something, and which of `moves` each one is.
    let ghost mut kept: Seq<(Reg, Reg)> = Seq::empty();
    let ghost mut from_of: Seq<int> = Seq::empty();
    let mut left: Vec<(Reg, Option<Reg>)> = Vec::new();
    let mut i: usize = 0;
    while i < moves.len()
        invariant
            i <= moves@.len(),
            kept.len() == from_of.len(),
            left@.len() == kept.len(),
            forall|j: int| 0 <= j < kept.len() ==> 0 <= #[trigger] from_of[j] < i,
            forall|j: int, k: int| 0 <= j < k < kept.len() ==> from_of[j] < from_of[k],
            forall|j: int| 0 <= j < kept.len() ==> (#[trigger] kept[j]) == moves@[from_of[j]],
            forall|j: int| 0 <= j < kept.len() ==> (#[trigger] kept[j]).0@ != kept[j].1@,
            forall|j: int| 0 <= j < kept.len() ==> (#[trigger] left@[j]) == (kept[j].0, Some(kept[j].1)),
            forall|m: int|
                0 <= m < i && (#[trigger] moves@[m]).0@ != moves@[m].1@ ==> exists|j: int|
                    0 <= j < kept.len() && #[trigger] from_of[j] == m,
            left@ == pending(moves@, i as int),
        decreases moves@.len() - i,
    {
        let (to, from) = moves[i];
        proof {
            assert(moves@[i as int] == (to, from));
        }
        if !to.same(&from) {
            left.push((to, Some(from)));
            proof {
                let ghost before_from = from_of;
                kept = kept.push((to, from));
                from_of = from_of.push(i as int);
                assert forall|m: int|
                    0 <= m < i + 1 && (#[trigger] moves@[m]).0@ != moves@[m].1@ implies exists|j: int|
                        0 <= j < kept.len() && #[trigger] from_of[j] == m by {
                    if m == i {
                        assert(from_of[kept.len() - 1] == m);
                    } else {
                        let j = choose|j: int| 0 <= j < before_from.len() && #[trigger] before_from[j] == m;
                        assert(from_of[j] == m);
                    }
                }
            }
        }
        proof {
            assert(left@ =~= pending(moves@, i + 1));
        }
        i = i + 1;
    }
    let ghost start = left@;
    let ghost distinct = destinations_distinct(moves@);
    proof {
        if distinct {
            assert forall|a: int, b: int| 0 <= a < b < kept.len() implies (#[trigger] kept[a]).0@ != (#[trigger] kept[b]).0@ by {
                assert(moves@[from_of[a]].0@ != moves@[from_of[b]].0@);
            }
        }
    }
    let ghost mut idx: Seq<int> = Seq::new(kept.len(), |j: int| j);
    let ghost mut saved: (Seq<char>, Class) = (Seq::empty(), Class::Int);
    let mut out: Vec<Step> = Vec::new();
    proof {
        assert(!reads_scratch(left@));
        assert forall|sc: (Seq<char>, Class), r: (Seq<char>, Class)| #[trigger] holding(out@, sc, r) == r by {
        }
        assert forall|k: int| 0 <= k < kept.len() implies !done(idx, k) by {
            assert(idx[k] == k);
        }
        assert forall|i: int| 0 <= i < left@.len() implies (#[trigger] left@[i]).0 == kept[idx[i]].0 && left@[i].1 is Some && left@[i].1->0 == kept[idx[i]].1 by {
            assert(idx[i] == i);
        }
    }
    proof {
        assert(out@ + steps_from(left@) =~= steps_from(start));
    }
    while left.len() > 0
        invariant
            start == pending(moves@, moves@.len() as int),
            steps_from(start) == out@ + steps_from(left@),
            distinct ==> forall|a: int, b: int| 0 <= a < b < kept.len() ==> (#[trigger] kept[a]).0@ != (#[trigger] kept[b]).0@,
            distinct ==> between(kept, left@, idx, out@, saved),
            left@.len() == idx.len(),
            forall|j: int| 0 <= j < kept.len() ==> (#[trigger] kept[j]).0@ != kept[j].1@,
            kept.len() == 0 ==> (left@.len() == 0 && out@.len() == 0),
            kept.len() == from_of.len(),
            forall|j: int| 0 <= j < kept.len() ==> 0 <= #[trigger] from_of[j] < moves@.len(),
            forall|j: int, k: int| 0 <= j < k < kept.len() ==> from_of[j] < from_of[k],
            forall|j: int| 0 <= j < kept.len() ==> (#[trigger] kept[j]) == moves@[from_of[j]],
            forall|m: int|
                0 <= m < moves@.len() && (#[trigger] moves@[m]).0@ != moves@[m].1@ ==> exists|j: int|
                    0 <= j < kept.len() && #[trigger] from_of[j] == m,
            distinct == destinations_distinct(moves@),
        decreases 2 * left@.len() + if all_wanted(left@) { 1int } else { 0int },
    {
        // Anything whose destination is not still wanted as a source.
        let mut ready: Vec<usize> = Vec::new();
        let mut a: usize = 0;
        while a < left.len()
            invariant
                a <= left@.len(),
                forall|m: int| 0 <= m < ready@.len() ==> #[trigger] ready@[m] < a,
                forall|m: int, n: int| 0 <= m < n < ready@.len() ==> ready@[m] < ready@[n],
                forall|m: int| 0 <= m < ready@.len() ==> #[trigger] ready@[m] + (ready@.len() - m) <= a,
                forall|m: int| 0 <= m < ready@.len() ==> !wanted(left@, left@[#[trigger] ready@[m] as int].0),
                forall|c: int| 0 <= c < a && !wanted(left@, (#[trigger] left@[c]).0) ==> exists|m: int| 0 <= m < ready@.len() && ready@[m] == c,
            decreases left@.len() - a,
        {
            let mut hit = false;
            let mut b: usize = 0;
            while b < left.len()
                invariant
                    a < left@.len(),
                    b <= left@.len(),
                    hit == exists|j: int| 0 <= j < b && (#[trigger] left@[j]).1 is Some && left@[j].1->0@ == left@[a as int].0@,
                decreases left@.len() - b,
            {
                match left[b].1 {
                    Some(one) => {
                        if one.same(&left[a].0) {
                            hit = true;
                        }
                    },
                    None => {},
                }
                b = b + 1;
            }
            let ghost ready0 = ready@;
            if !hit {
                ready.push(a);
                proof {
                    assert(ready@[ready@.len() - 1] == a);
                }
            }
            proof {
                assert forall|c: int| 0 <= c < a + 1 && !wanted(left@, (#[trigger] left@[c]).0) implies exists|m: int| 0 <= m < ready@.len() && ready@[m] == c by {
                    if c < a {
                        let m = choose|m: int| 0 <= m < ready0.len() && ready0[m] == c;
                        assert(ready@[m] == c);
                    } else {
                        assert(ready@[ready@.len() - 1] == a);
                    }
                }
            }
            a = a + 1;
        }

        if ready.len() == 0 {
            // Every one that is left is in a cycle. Put aside what the first
            // of them is about to write over, and say that whatever wanted to
            // read that register reads the scratch -- but do not read it back
            // yet.
            let to = left[0].0;
            proof {
                assert forall|i: int| 0 <= i < left@.len() implies wanted(left@, (#[trigger] left@[i]).0) by {
                    if !wanted(left@, left@[i].0) {
                        assert(exists|m: int| 0 <= m < ready@.len() && ready@[m] == i);
                    }
                }
            }
            let ghost before = left@;
            let ghost out0 = out@;
            out.push(Step::Save(to));
            let mut c: usize = 0;
            while c < left.len()
                invariant
                    c <= left@.len(),
                    left@.len() == before.len(),
                    to == before[0].0,
                    forall|j: int| 0 <= j < left@.len() ==> (#[trigger] left@[j]).0 == before[j].0,
                    forall|j: int| 0 <= j < c ==> (#[trigger] left@[j]).1 == (if before[j].1 is Some && before[j].1->0@ == to@ { None } else { before[j].1 }),
                    forall|j: int| c <= j < left@.len() ==> (#[trigger] left@[j]).1 == before[j].1,
                decreases left@.len() - c,
            {
                let held = left[c];
                match held.1 {
                    Some(one) => {
                        if one.same(&to) {
                            left.set(c, (held.0, None));
                        }
                    },
                    None => {},
                }
                c = c + 1;
            }
            proof {
                if distinct {
                    assert forall|a: int, b: int| 0 <= a < b < before.len() implies (#[trigger] before[a]).0@ != (#[trigger] before[b]).0@ by {
                        assert(kept[idx[a]].0@ != kept[idx[b]].0@);
                    }
                    all_wanted_reads_no_scratch(before);
                    ordered_saves(kept, before, left@, idx, out0, out@, saved, to);
                    saved = to@;
                }
                assert(!wanted(left@, left@[0].0));
                save_keeps_order(start, out0, out@, before, left@, to);
            }
            continue;
        }

        let ghost round = left@;
        let ghost idx0 = idx;
        let ghost out_r = out@;
        proof {
            round_begins(round, ready@, out_r);
        }
        let mut k: usize = ready.len();
        while k > 0
            invariant
                ready@.len() > 0,
                round.len() > 0,
                !all_wanted(round),
                steps_from(start) == out_r + steps_from(round),
                forall|c: int|
                    0 <= c < round.len() && !wanted(round, (#[trigger] round[c]).0) ==> exists|m: int|
                        0 <= m < ready@.len() && ready@[m] == c,
                out@ == out_r + ready_between(round, lo_of(ready@, k as int, round.len() as int), round.len() as int),
                left@ == round.subrange(0, lo_of(ready@, k as int, round.len() as int)) + waiting_between(
                    round,
                    lo_of(ready@, k as int, round.len() as int),
                    round.len() as int,
                ),
                k <= ready@.len(),
                forall|m: int| 0 <= m < ready@.len() ==> #[trigger] ready@[m] < round.len(),
                forall|m: int, n: int| 0 <= m < n < ready@.len() ==> ready@[m] < ready@[n],
                forall|m: int| 0 <= m < ready@.len() ==> #[trigger] ready@[m] + (ready@.len() - m) <= round.len(),
                forall|m: int| 0 <= m < ready@.len() ==> !wanted(round, round[#[trigger] ready@[m] as int].0),
                left@.len() == idx.len(),
                left@.len() == round.len() - (ready@.len() - k),
                forall|m: int| 0 <= m < k ==> #[trigger] left@[ready@[m] as int] == round[ready@[m] as int],
                forall|m: int| 0 <= m < k ==> #[trigger] idx[ready@[m] as int] == idx0[ready@[m] as int],
                distinct ==> between(kept, left@, idx, out@, saved),
                distinct ==> forall|m: int| 0 <= m < k ==> !wanted(left@, left@[#[trigger] ready@[m] as int].0),
                distinct ==> forall|a: int, b: int| 0 <= a < b < kept.len() ==> (#[trigger] kept[a]).0@ != (#[trigger] kept[b]).0@,
            decreases k,
        {
            k = k - 1;
            let at = ready[k];
            let (to, from) = left[at];
            let ghost out0 = out@;
            let ghost left0 = left@;
            proof {
                ready_round_step(round, ready@, k + 1, out_r, out0, left0);
            }
            match from {
                Some(one) => out.push(Step::Move { to, from: one }),
                None => out.push(Step::Restore(to)),
            }
            left.remove(at);
            proof {
                assert(out@ == out0.push(step_of(round[at as int])));
                if distinct {
                    ordered_makes(kept, left0, idx, out0, out@, saved, at as int);
                }
                idx = idx.remove(at as int);
                assert forall|m: int| 0 <= m < k implies #[trigger] left@[ready@[m] as int] == round[ready@[m] as int] by {
                    assert(ready@[m] < ready@[k as int]);
                }
                assert forall|m: int| 0 <= m < k implies #[trigger] idx[ready@[m] as int] == idx0[ready@[m] as int] by {
                    assert(ready@[m] < ready@[k as int]);
                }
                if distinct {
                    assert forall|m: int| 0 <= m < k implies !wanted(left@, left@[#[trigger] ready@[m] as int].0) by {
                        assert(ready@[m] < ready@[k as int]);
                        assert(left0[ready@[m] as int] == left@[ready@[m] as int]);
                        if wanted(left@, left@[ready@[m] as int].0) {
                            let j = choose|j: int| 0 <= j < left@.len() && (#[trigger] left@[j]).1 is Some && left@[j].1->0@ == left@[ready@[m] as int].0@;
                            if j < at {
                                assert(left0[j] == left@[j]);
                            } else {
                                assert(left0[j + 1] == left@[j]);
                            }
                        }
                    }
                }
            }
        }
        proof {
            round_ends(start, round, ready@, out_r, out@, left@);
        }
    }
    proof {
        steps_from_none(left@);
        assert(out@ =~= steps_from(start));
        if distinct {
            assert(left@ =~= Seq::<(Reg, Option<Reg>)>::empty());
            ordered_finishes(moves@, kept, from_of, idx, out@, saved);
        }
        if forall|i: int| 0 <= i < moves@.len() ==> (#[trigger] moves@[i]).0@ == moves@[i].1@ {
            if kept.len() > 0 {
                assert(kept[0] == moves@[from_of[0]]);
                assert(kept[0].0@ != kept[0].1@);
                assert(moves@[from_of[0]].0@ != moves@[from_of[0]].1@);
            }
        }
    }
    out
}

// ---- Names an assembler will take ------------------------------------------

/// Whether a byte stands for itself in a symbol: a letter, a digit or an
/// underscore.
pub open spec fn plain(b: u8) -> bool {
    (48 <= b <= 57) || (65 <= b <= 90) || (97 <= b <= 122) || b == 95
}

/// One byte of a name as it is written in a symbol: itself where it is
/// plain, and otherwise a dot and two hexadecimal digits.
pub open spec fn escaped_byte(b: u8) -> Seq<char> {
    if plain(b) {
        seq![b as char]
    } else {
        seq!['.'] + hex2(b)
    }
}

/// Bytes as they are written in a symbol, one after another.
pub open spec fn escaped(bytes: Seq<u8>) -> Seq<char>
    decreases bytes.len(),
{
    if bytes.len() == 0 {
        Seq::empty()
    } else {
        escaped(bytes.drop_last()) + escaped_byte(bytes.last())
    }
}

/// A name as a symbol: every byte of its UTF-8 spelling escaped.
pub open spec fn symbol_of(name: &str) -> Seq<char> {
    escaped(name.spec_bytes())
}

/// A symbol an assembler will take. Everything outside letters, digits and an
/// underscore becomes a dot and two hexadecimal digits -- a byte of the
/// character's UTF-8 encoding each -- and a dot is itself escaped, which is
/// what makes the mapping one-to-one.
pub fn symbol(name: &str) -> (r: String)
    ensures
        r@ == symbol_of(name),
{
    let bytes = name.as_bytes();
    let mut out = String::new();
    let mut i: usize = 0;
    while i < bytes.len()
        invariant
            i <= bytes@.len(),
            bytes@ == name.spec_bytes(),
            out@ == escaped(bytes@.subrange(0, i as int)),
        decreases bytes@.len() - i,
    {
        let b = bytes[i];
        let ghost before = out@;
        if (48 <= b && b <= 57) || (65 <= b && b <= 90) || (97 <= b && b <= 122) || b == 95 {
            push_char(&mut out, b as char);
        } else {
            push_char(&mut out, '.');
            push_hex2(&mut out, b);
        }
        proof {
            let next = bytes@.subrange(0, i + 1);
            assert(next.drop_last() =~= bytes@.subrange(0, i as int));
            assert(next.last() == b);
            assert(out@ =~= before + escaped_byte(b));
        }
        i = i + 1;
    }
    proof {
        assert(bytes@.subrange(0, bytes@.len() as int) =~= bytes@);
    }
    out
}

/// The value of one hexadecimal digit as `hex_digit` writes it.
pub open spec fn hex_value(c: char) -> int {
    if '0' <= c <= '9' {
        c as int - 48
    } else {
        c as int - 87
    }
}

/// The bytes a symbol was escaped from: a dot and two digits are one byte,
/// and anything else is the byte it spells.
pub open spec fn unescaped(out: Seq<char>) -> Seq<u8>
    decreases out.len(),
{
    if out.len() == 0 {
        Seq::empty()
    } else if out[0] == '.' && out.len() >= 3 {
        seq![(hex_value(out[1]) * 16 + hex_value(out[2])) as u8] + unescaped(out.skip(3))
    } else {
        seq![out[0] as u8] + unescaped(out.skip(1))
    }
}

proof fn escaped_front(b: u8, rest: Seq<u8>)
    ensures
        escaped(seq![b] + rest) == escaped_byte(b) + escaped(rest),
    decreases rest.len(),
{
    let all = seq![b] + rest;
    if rest.len() == 0 {
        assert(all.drop_last() =~= Seq::<u8>::empty());
        assert(all.last() == b);
        assert(escaped(all) == escaped(all.drop_last()) + escaped_byte(all.last()));
        assert(escaped(Seq::<u8>::empty()) =~= Seq::<char>::empty());
        assert(escaped_byte(b) + escaped(rest) =~= escaped_byte(b));
        assert(escaped(all) =~= escaped_byte(b));
    } else {
        escaped_front(b, rest.drop_last());
        assert(all.drop_last() =~= seq![b] + rest.drop_last());
        assert(all.last() == rest.last());
        assert(escaped_byte(b) + escaped(rest) =~= escaped_byte(b) + escaped(rest.drop_last())
            + escaped_byte(rest.last()));
    }
}

proof fn unescaped_front(b: u8, rest: Seq<char>)
    ensures
        unescaped(escaped_byte(b) + rest) == seq![b] + unescaped(rest),
{
    let all = escaped_byte(b) + rest;
    if plain(b) {
        assert(all[0] == b as char);
        assert(all.skip(1) =~= rest);
        assert((b as char) as u8 == b);
    } else {
        assert(all[0] == '.');
        assert(all.skip(3) =~= rest);
        let hi = (b / 16) as nat;
        let lo = (b % 16) as nat;
        assert(all[1] == hex_digit(hi));
        assert(all[2] == hex_digit(lo));
        assert(hex_value(hex_digit(hi)) == hi);
        assert(hex_value(hex_digit(lo)) == lo);
    }
}

/// Every symbol can be read back into the bytes it was escaped from.
pub proof fn symbol_reads_back(bytes: Seq<u8>)
    ensures
        unescaped(escaped(bytes)) == bytes,
    decreases bytes.len(),
{
    if bytes.len() > 0 {
        let rest = bytes.drop_first();
        assert(bytes =~= seq![bytes[0]] + rest);
        escaped_front(bytes[0], rest);
        unescaped_front(bytes[0], escaped(rest));
        symbol_reads_back(rest);
    }
}

/// No two names escape to the same symbol: a symbol can be read back into
/// the bytes of the name it was made from, and the bytes into the name.
pub proof fn no_two_names_share_a_symbol(a: &str, b: &str)
    ensures
        symbol_of(a) == symbol_of(b) ==> a@ == b@,
{
    if symbol_of(a) == symbol_of(b) {
        symbol_reads_back(a.spec_bytes());
        symbol_reads_back(b.spec_bytes());
        vstd::utf8::encode_utf8_decode_utf8(a@);
        vstd::utf8::encode_utf8_decode_utf8(b@);
    }
}

/// The bytes of two runs of characters one after the other are the bytes of
/// each, one after the other.
proof fn encoded_concat(a: Seq<char>, b: Seq<char>)
    ensures
        encode_utf8(a + b) == encode_utf8(a) + encode_utf8(b),
    decreases a.len(),
{
    if a.len() == 0 {
        assert(a + b =~= b);
        assert(encode_utf8(a) + encode_utf8(b) =~= encode_utf8(b));
    } else {
        assert((a + b).drop_first() =~= a.drop_first() + b);
        assert((a + b)[0] == a[0]);
        encoded_concat(a.drop_first(), b);
        let h = crate::emit::scalar_bytes(a[0]);
        assert(h + (encode_utf8(a.drop_first()) + encode_utf8(b)) =~= (h + encode_utf8(a.drop_first())) + encode_utf8(b));
    }
}

/// The encoding of a character, as `encode_utf8` takes it.
pub open spec fn scalar_bytes(c: char) -> Seq<u8> {
    vstd::utf8::encode_scalar(c as u32)
}

/// Escaping two runs of bytes one after the other is escaping each.
proof fn escaped_concat(x: Seq<u8>, y: Seq<u8>)
    ensures
        escaped(x + y) == escaped(x) + escaped(y),
    decreases y.len(),
{
    if y.len() == 0 {
        assert(x + y =~= x);
        assert(escaped(x) + escaped(y) =~= escaped(x));
    } else {
        assert((x + y).drop_last() =~= x + y.drop_last());
        assert((x + y).last() == y.last());
        escaped_concat(x, y.drop_last());
        assert(escaped(x) + (escaped(y.drop_last()) + escaped_byte(y.last())) =~= (escaped(x) + escaped(y.drop_last()))
            + escaped_byte(y.last()));
    }
}

/// The symbol of two names one after the other is the two symbols one after
/// the other: each character is escaped on its own.
pub proof fn symbol_of_concat(a: Seq<char>, b: Seq<char>)
    ensures
        symbol_chars(a + b) == symbol_chars(a) + symbol_chars(b),
{
    encoded_concat(a, b);
    escaped_concat(encode_utf8(a), encode_utf8(b));
}

/// Whether a character may stand in a symbol: a letter, a digit, an
/// underscore or a dot.
pub open spec fn symbol_char(c: char) -> bool {
    ('0' <= c <= '9') || ('A' <= c <= 'Z') || ('a' <= c <= 'z') || c == '_' || c == '.'
}

/// Every symbol is letters, digits, underscores and dots and nothing else.
pub proof fn symbols_are_plain(bytes: Seq<u8>)
    ensures
        forall|i: int| 0 <= i < escaped(bytes).len() ==> symbol_char(#[trigger] escaped(bytes)[i]),
    decreases bytes.len(),
{
    if bytes.len() > 0 {
        symbols_are_plain(bytes.drop_last());
        let b = bytes.last();
        let e = escaped_byte(b);
        assert forall|i: int| 0 <= i < e.len() implies symbol_char(#[trigger] e[i]) by {
            if plain(b) {
                assert(b < 128);
            }
        }
        let whole = escaped(bytes);
        let front = escaped(bytes.drop_last());
        assert forall|i: int| 0 <= i < whole.len() implies symbol_char(#[trigger] whole[i]) by {
            if i < front.len() {
                assert(whole[i] == front[i]);
            } else {
                assert(whole[i] == e[i - front.len()]);
            }
        }
    }
}

// ---- Where a variable lives -------------------------------------------------

/// Where a virtual register turned out to live, in the emitter's terms: a
/// register, a number of bytes below the frame pointer, or nowhere -- nothing
/// writes it and nothing reads it, and an instruction that makes one is still
/// emitted, since it may have an effect.
#[derive(Debug, Clone, Copy, PartialEq, Eq)]
pub enum Site {
    In(Reg),
    At(usize),
    Nowhere,
}

// ---- The pool and the data segment ------------------------------------------

/// Numbers in decimal, a comma and a space between each two.
pub open spec fn joined(bytes: Seq<u8>) -> Seq<char>
    decreases bytes.len(),
{
    if bytes.len() == 0 {
        Seq::empty()
    } else if bytes.len() == 1 {
        decimal(bytes[0] as nat)
    } else {
        joined(bytes.drop_last()) + ", "@ + decimal(bytes.last() as nat)
    }
}

/// One `.byte` line.
pub open spec fn byte_line(bytes: Seq<u8>) -> Seq<char> {
    "\t.byte\t"@ + joined(bytes) + "\n"@
}

/// Bytes sixteen to a line.
pub open spec fn lines(bytes: Seq<u8>) -> Seq<char>
    decreases bytes.len(),
{
    if bytes.len() == 0 {
        Seq::empty()
    } else if bytes.len() <= 16 {
        byte_line(bytes)
    } else {
        byte_line(bytes.take(16)) + lines(bytes.skip(16))
    }
}

/// What a label with nothing under it is given, so that it still names a
/// byte of its own.
pub open spec fn zero_line() -> Seq<char> {
    "\t.zero\t1\n"@
}

/// Bytes as directives: one `.byte` per byte, sixteen to a line, and a single
/// nought where there are none.
pub open spec fn image(bytes: Seq<u8>) -> Seq<char> {
    if bytes.len() == 0 {
        zero_line()
    } else {
        lines(bytes)
    }
}

/// A name as its symbol.
pub open spec fn symbol_chars(name: Seq<char>) -> Seq<char> {
    escaped(encode_utf8(name))
}

/// The names from `at` on, an address of eight bytes each.
pub open spec fn words_from(names: Seq<String>, at: int) -> Seq<char>
    decreases names.len() - at,
{
    if at < 0 || at >= names.len() {
        Seq::empty()
    } else {
        "\t.quad\t"@ + symbol_chars(names[at]@) + "\n"@ + words_from(names, at + 1)
    }
}

/// What is under a constant's label.
pub open spec fn held_text(held: MIRConstBody) -> Seq<char> {
    match held {
        MIRConstBody::Bytes(bytes) => image(bytes@),
        MIRConstBody::Words(names) => if names@.len() == 0 {
            zero_line()
        } else {
            words_from(names@, 0)
        },
    }
}

/// A pool entry: its label, and what is under it.
pub open spec fn const_text(c: MIRConstant) -> Seq<char> {
    symbol_chars(c.symbol@) + ":\n"@ + held_text(c.held)
}

/// Writes `bytes` as `.byte` lines, or a single nought where there are none.
fn push_image(out: &mut String, bytes: &Vec<u8>)
    ensures
        final(out)@ == old(out)@ + image(bytes@),
{
    if bytes.len() == 0 {
        push_text(out, "\t.zero\t1\n");
        proof {
            reveal_strlit("\t.zero\t1\n");
        }
        return;
    }
    let ghost start = old(out)@;
    let n = bytes.len();
    let mut at: usize = 0;
    proof {
        assert(bytes@.subrange(0, n as int) =~= bytes@);
    }
    while at < n
        invariant
            n == bytes@.len(),
            at <= n,
            out@ + lines(bytes@.subrange(at as int, n as int)) == start + lines(bytes@),
        decreases n - at,
    {
        let end = if n - at > 16 { at + 16 } else { n };
        let ghost line_start = out@;
        push_text(out, "\t.byte\t");
        let mut j: usize = at;
        while j < end
            invariant
                at < end <= bytes@.len(),
                at <= j <= end,
                out@ == line_start + "\t.byte\t"@ + joined(bytes@.subrange(at as int, j as int)),
            decreases end - j,
        {
            if j > at {
                push_text(out, ", ");
            }
            push_decimal(out, bytes[j] as usize);
            proof {
                let s = bytes@.subrange(at as int, j + 1);
                assert(s.drop_last() =~= bytes@.subrange(at as int, j as int));
                assert(s.last() == bytes@[j as int]);
                if j == at {
                    assert(bytes@.subrange(at as int, j as int).len() == 0);
                }
                assert(out@ =~= line_start + "\t.byte\t"@ + joined(s));
            }
            j = j + 1;
        }
        push_text(out, "\n");
        proof {
            let rest = bytes@.subrange(at as int, n as int);
            assert(out@ =~= line_start + byte_line(bytes@.subrange(at as int, end as int)));
            if n - at > 16 {
                assert(rest.take(16) =~= bytes@.subrange(at as int, end as int));
                assert(rest.skip(16) =~= bytes@.subrange(end as int, n as int));
            } else {
                assert(rest =~= bytes@.subrange(at as int, end as int));
                assert(bytes@.subrange(end as int, n as int) =~= Seq::<u8>::empty());
            }
            assert(out@ + lines(bytes@.subrange(end as int, n as int)) =~= line_start + lines(rest));
        }
        at = end;
    }
    proof {
        assert(bytes@.subrange(n as int, n as int) =~= Seq::<u8>::empty());
        assert(bytes@.subrange(0, n as int) =~= bytes@);
        assert(out@ =~= start + lines(bytes@));
    }
}

/// The bytes of a pool entry, as directives, under its label. One `.byte` per
/// byte rather than anything cleverer: a descriptor is not a string and a
/// string is not aligned, and the one form that is right for both is the dull
/// one. A table of addresses is a `.quad` per name, for the linker to fill in.
pub fn bytes_of(held: &MIRConstant) -> (r: String)
    ensures
        r@ == const_text(*held),
{
    let mut out = symbol(held.symbol.as_str());
    push_text(&mut out, ":\n");
    match &held.held {
        MIRConstBody::Bytes(bytes) => push_image(&mut out, bytes),
        MIRConstBody::Words(names) => {
            if names.len() == 0 {
                push_text(&mut out, "\t.zero\t1\n");
            } else {
                let ghost start = out@;
                let mut at: usize = 0;
                while at < names.len()
                    invariant
                        at <= names@.len(),
                        out@ + words_from(names@, at as int) == start + words_from(names@, 0),
                    decreases names@.len() - at,
                {
                    let ghost before = out@;
                    push_text(&mut out, "\t.quad\t");
                    let one = symbol(names[at].as_str());
                    push_text(&mut out, one.as_str());
                    push_text(&mut out, "\n");
                    proof {
                        assert(out@ + words_from(names@, at + 1) =~= before + words_from(names@, at as int));
                    }
                    at = at + 1;
                }
                proof {
                    assert(words_from(names@, at as int) =~= Seq::<char>::empty());
                }
            }
        },
    }
    out
}

/// One entry of a section: the alignment line given, its type, its label and
/// bytes, and its size, for the symbol `s`.
pub open spec fn entry_of(align_line: Seq<char>, s: Seq<char>, body: Seq<char>) -> Seq<char> {
    align_line + "\t.type\t"@ + s + ", @object\n"@ + body + "\t.size\t"@ + s + ", .-"@ + s + "\n"@
}

/// One entry, for the object named `name`.
pub open spec fn entry_text(align_line: Seq<char>, name: Seq<char>, body: Seq<char>) -> Seq<char> {
    entry_of(align_line, symbol_chars(name), body)
}

/// Writes one entry.
fn push_entry(out: &mut String, align_line: &str, s: &str, body: &str)
    ensures
        final(out)@ == old(out)@ + entry_of(align_line@, s@, body@),
{
    push_text(out, align_line);
    push_text(out, "\t.type\t");
    push_text(out, s);
    push_text(out, ", @object\n");
    push_text(out, body);
    push_text(out, "\t.size\t");
    push_text(out, s);
    push_text(out, ", .-");
    push_text(out, s);
    push_text(out, "\n");
    proof {
        assert(out@ =~= old(out)@ + entry_of(align_line@, s@, body@));
    }
}

/// The pool's entries from `at` on, each aligned by `align_line`.
pub open spec fn pool_from(held: Seq<MIRConstant>, align_line: Seq<char>, at: int) -> Seq<char>
    decreases held.len() - at,
{
    if at < 0 || at >= held.len() {
        Seq::empty()
    } else {
        entry_text(align_line, held[at].symbol@, const_text(held[at]))
            + pool_from(held, align_line, at + 1)
    }
}

/// The constant pool in `.rodata`.
pub open spec fn pool_text(held: Seq<MIRConstant>, align_line: Seq<char>) -> Seq<char> {
    "\t.section\t.rodata\n"@ + pool_from(held, align_line, 0)
}

/// Writes the pool, each entry under `align_line`.
pub(crate) fn pool_with(held: &[MIRConstant], align_line: &str) -> (r: String)
    ensures
        r@ == pool_text(held@, align_line@),
{
    let mut out = String::new();
    push_text(&mut out, "\t.section\t.rodata\n");
    let ghost start = out@;
    let mut at: usize = 0;
    while at < held.len()
        invariant
            at <= held@.len(),
            out@ + pool_from(held@, align_line@, at as int) == start + pool_from(held@, align_line@, 0),
        decreases held@.len() - at,
    {
        let ghost before = out@;
        let one = &held[at];
        let name = symbol(one.symbol.as_str());
        let body = bytes_of(one);
        push_entry(&mut out, align_line, name.as_str(), body.as_str());
        proof {
            assert(out@ + pool_from(held@, align_line@, at + 1) =~= before + pool_from(held@, align_line@, at as int));
        }
        at = at + 1;
    }
    proof {
        assert(pool_from(held@, align_line@, at as int) =~= Seq::<char>::empty());
        assert(out@ =~= "\t.section\t.rodata\n"@ + pool_from(held@, align_line@, 0));
    }
    out
}

/// The largest `k` with two to the `k` no more than `n`; nought for nought
/// and one.
pub open spec fn log2(n: nat) -> nat
    decreases n,
{
    if n <= 1 {
        0
    } else {
        1 + log2(n / 2)
    }
}

proof fn log2_at_most(n: nat)
    ensures
        log2(n) <= n,
    decreases n,
{
    if n > 1 {
        log2_at_most(n / 2);
    }
}

fn log2_of(n: usize) -> (r: usize)
    ensures
        r == log2(n as nat),
{
    let mut v = n;
    let mut k: usize = 0;
    proof {
        log2_at_most(n as nat);
    }
    while v > 1
        invariant
            k + log2(v as nat) == log2(n as nat),
            log2(n as nat) <= n,
        decreases v,
    {
        v = v / 2;
        k = k + 1;
    }
    k
}

/// How an alignment is said: in bytes, or as the power of two that it is.
pub open spec fn align_said(align: nat, pow2: bool) -> Seq<char> {
    "\t.align\t"@ + decimal(if pow2 { log2(align) } else { align }) + "\n"@
}

/// The globals from `at` on.
pub open spec fn data_from(globals: Seq<MIRGlobal>, pow2: bool, at: int) -> Seq<char>
    decreases globals.len() - at,
{
    if at < 0 || at >= globals.len() {
        Seq::empty()
    } else {
        let g = globals[at];
        entry_text(
            align_said(g.align as nat, pow2),
            g.symbol@,
            symbol_chars(g.symbol@) + ":\n"@ + image(g.bytes@),
        ) + data_from(globals, pow2, at + 1)
    }
}

/// The globals in `.data`, which may be written to -- the one reason they are
/// not the pool -- or nothing at all where there are none.
pub open spec fn data_text(globals: Seq<MIRGlobal>, pow2: bool) -> Seq<char> {
    if globals.len() == 0 {
        Seq::empty()
    } else {
        "\t.section\t.data\n"@ + data_from(globals, pow2, 0)
    }
}

/// The data segment: every global, aligned as it asks -- in bytes, or as a
/// power of two where `pow2` says the machine counts that way -- under its
/// label, with its size. Nothing at all where there are no globals: an empty
/// `.data` would be a section in every object of a program that has none.
pub fn data(globals: &[MIRGlobal], pow2: bool) -> (r: String)
    ensures
        r@ == data_text(globals@, pow2),
{
    let mut out = String::new();
    if globals.len() == 0 {
        return out;
    }
    push_text(&mut out, "\t.section\t.data\n");
    let ghost start = out@;
    let mut at: usize = 0;
    while at < globals.len()
        invariant
            at <= globals@.len(),
            out@ + data_from(globals@, pow2, at as int) == start + data_from(globals@, pow2, 0),
        decreases globals@.len() - at,
    {
        let ghost before = out@;
        let g = &globals[at];
        let name = symbol(g.symbol.as_str());
        let mut line = String::new();
        push_text(&mut line, "\t.align\t");
        let said = if pow2 { log2_of(g.align) } else { g.align };
        push_decimal(&mut line, said);
        push_text(&mut line, "\n");
        let mut body = symbol(g.symbol.as_str());
        push_text(&mut body, ":\n");
        push_image(&mut body, &g.bytes);
        push_entry(&mut out, line.as_str(), name.as_str(), body.as_str());
        proof {
            assert(line@ =~= align_said(g.align as nat, pow2));
        }
        proof {
            assert(out@ + data_from(globals@, pow2, at + 1) =~= before + data_from(globals@, pow2, at as int));
        }
        at = at + 1;
    }
    proof {
        assert(data_from(globals@, pow2, at as int) =~= Seq::<char>::empty());
        assert(out@ =~= "\t.section\t.data\n"@ + data_from(globals@, pow2, 0));
    }
    out
}

// ---- The whole program -----------------------------------------------------

/// Whether a body can be emitted on `m`: its phis read registers it has, and
/// whatever it is written out and allocated as can be counted, its frame and
/// the registers saved above it included.
pub open spec fn emittable(b: MIRBody, m: Machine) -> bool {
    &&& phis_read_regs(blocks_v(b.blocks@), b.regs@.len())
    &&& forall|l: Linear| #[trigger] linearised(b, l) ==> l.frame@.len() + l.regs@.len() <= usize::MAX
    &&& forall|l: Linear, h: Linear, a: Allocation| linearised(b, l) && #[trigger] allocated(l, h, a, m) ==> body_fits(h, a, m)
}

/// Whether a machine can be emitted for at all: a word is a byte or more, and
/// each file has a scratch register.
pub open spec fn emits_for(m: Machine) -> bool {
    m.word >= 1 && crate::emit::aarch64::has_scratch(m)
}

/// One body's text and what is said of it, by the machine's own file; a
/// machine with no file of its own gets nothing, and a line saying so.
pub open spec fn machine_body<'a>(b: Body<'a>) -> (Seq<char>, Seq<Seq<char>>) {
    let name = b.m.name@;
    if name == "x86-64"@ {
        crate::emit::x86_64::body_s(&b)
    } else if name == "aarch64"@ {
        crate::emit::aarch64::body_s(&b)
    } else if name == "riscv64"@ {
        crate::emit::riscv64::body_s(&b)
    } else {
        (Seq::empty(), seq![b.held.symbol@ + ": nothing here emits for "@ + name])
    }
}

/// Whether `b` is `body` as it is emitted, the `index`th of its program, on
/// `m`: written out in reverse postorder, allocated by linear scan, and laid
/// out.
pub open spec fn emitted<'a>(body: MIRBody, m: Machine, index: usize, b: Body<'a>) -> bool {
    &&& laid_out(*b.held, *b.at, m, index, b)
    &&& exists|l: Linear|
        #[trigger] linearised(body, l) && allocated(l, *b.held, *b.at, m) && b.at.at@ == scan_of(l, m).at && b.at.most
            == scan_of(l, m).most
}

/// Whether `text` and `said` are what emitting `body`, the `index`th of its
/// program, on `m` gives.
pub open spec fn body_emits(body: MIRBody, m: Machine, index: usize, text: Seq<char>, said: Seq<Seq<char>>) -> bool {
    exists|b: Body<'static>| #[trigger] emitted(body, m, index, b) && machine_body(b) == (text, said)
}

/// The texts of the first `n` bodies, one after another.
pub open spec fn joined_texts(texts: Seq<Seq<char>>, n: int) -> Seq<char>
    decreases n,
{
    if n <= 0 {
        Seq::empty()
    } else {
        joined_texts(texts, n - 1) + texts[n - 1]
    }
}

/// What is said of the first `n` bodies, one after another.
pub open spec fn joined_said(saids: Seq<Seq<Seq<char>>>, n: int) -> Seq<Seq<char>>
    decreases n,
{
    if n <= 0 {
        Seq::empty()
    } else {
        joined_said(saids, n - 1) + saids[n - 1]
    }
}

/// The line that tells the linker the object wants no executable stack.
pub open spec fn stack_note() -> Seq<char> {
    "\t.section\t.note.GNU-stack, \"\", @progbits\n"@
}

/// The pool in the machine's own form: aarch64 and riscv64 count an
/// alignment as a power of two, x86-64 and anything else in bytes. Nothing
/// where the pool is empty.
pub open spec fn pool_for(m: Machine, pool: Seq<MIRConstant>) -> Seq<char> {
    if pool.len() == 0 {
        Seq::empty()
    } else if m.name@ == "aarch64"@ || m.name@ == "riscv64"@ {
        pool_text(pool, "\t.align\t3\n"@)
    } else {
        pool_text(pool, "\t.align\t8\n"@)
    }
}

/// Every body of the program, each written out in reverse postorder,
/// allocated by linear scan, laid out and emitted by the machine's own file,
/// one after another; then the line that tells the linker no stack need be
/// executable; then the pool. What is said is every body's complaints, in
/// order. A body with a complaint against it is still emitted, minus the
/// instruction that could not be.
#[verifier::spinoff_prover]
pub fn render(p: &MIRProgram, m: &Machine) -> (r: (String, Vec<String>))
    requires
        emits_for(*m),
        forall|i: int| 0 <= i < p.bodies@.len() ==> emittable(#[trigger] p.bodies@[i], *m),
    ensures
        exists|texts: Seq<Seq<char>>, saids: Seq<Seq<Seq<char>>>|
            {
                &&& texts.len() == p.bodies@.len()
                &&& saids.len() == p.bodies@.len()
                &&& forall|i: int| 0 <= i < texts.len() ==> #[trigger] body_emits(p.bodies@[i], *m, i as usize, texts[i], saids[i])
                &&& r.0@ == joined_texts(texts, texts.len() as int) + stack_note() + pool_for(*m, p.pool@)
                &&& r.1@.map_values(|x: String| x@) == joined_said(saids, saids.len() as int)
            },
{
    let mut out = String::new();
    let mut said: Vec<String> = Vec::new();
    let ghost mut texts: Seq<Seq<char>> = Seq::empty();
    let ghost mut saids: Seq<Seq<Seq<char>>> = Seq::empty();
    let mut i: usize = 0;
    while i < p.bodies.len()
        invariant
            emits_for(*m),
            forall|j: int| 0 <= j < p.bodies@.len() ==> emittable(#[trigger] p.bodies@[j], *m),
            i <= p.bodies@.len(),
            texts.len() == i,
            saids.len() == i,
            forall|j: int| 0 <= j < i ==> #[trigger] body_emits(p.bodies@[j], *m, j as usize, texts[j], saids[j]),
            out@ == joined_texts(texts, i as int),
            said@.map_values(|x: String| x@) == joined_said(saids, i as int),
        decreases p.bodies@.len() - i,
    {
        let body = &p.bodies[i];
        proof {
            assert(emittable(*body, *m));
        }
        let mut held = linearise(body);
        let ghost l = held;
        let at = allocate(&mut held, m);
        proof {
            assert(body_fits(held, at, *m));
        }
        let one = Body::new(&held, &at, m, i);
        proof {
            assert(crate::emit::aarch64::workable(&one));
        }
        let (text, complaints) = if same_text(m.name, "x86-64") {
            crate::emit::x86_64::body(&one)
        } else if same_text(m.name, "aarch64") {
            crate::emit::aarch64::body(&one)
        } else if same_text(m.name, "riscv64") {
            crate::emit::riscv64::body(&one)
        } else {
            let mut line = String::new();
            push_text(&mut line, held.symbol.as_str());
            push_text(&mut line, ": nothing here emits for ");
            push_text(&mut line, m.name);
            let mut v: Vec<String> = Vec::new();
            v.push(line);
            proof {
                assert(v@.map_values(|x: String| x@) =~= machine_body(one).1);
            }
            (String::new(), v)
        };
        proof {
            assert(emitted(*body, *m, i, one));
            assert(text@ == machine_body(one).0);
            assert(complaints@.map_values(|x: String| x@) == machine_body(one).1);
            assert(body_emits(*body, *m, i, text@, complaints@.map_values(|x: String| x@)));
        }
        push_text(&mut out, text.as_str());
        let ghost before = said@.map_values(|x: String| x@);
        let mut k: usize = 0;
        while k < complaints.len()
            invariant
                k <= complaints@.len(),
                said@.map_values(|x: String| x@) == before + complaints@.subrange(0, k as int).map_values(|x: String| x@),
            decreases complaints@.len() - k,
        {
            let ghost prev = said@.map_values(|x: String| x@);
            let one = crate::spell::owned(complaints[k].as_str());
            said.push(one);
            proof {
                assert(said@.map_values(|x: String| x@) =~= prev.push(complaints@[k as int]@));
                assert(complaints@.subrange(0, k + 1).map_values(|x: String| x@) =~= complaints@.subrange(0, k as int).map_values(
                    |x: String| x@,
                ).push(complaints@[k as int]@));
                assert(said@.map_values(|x: String| x@) =~= before + complaints@.subrange(0, k + 1).map_values(|x: String| x@));
            }
            k = k + 1;
        }
        proof {
            assert(complaints@.subrange(0, complaints@.len() as int) =~= complaints@);
            let t2 = texts.push(text@);
            let s2 = saids.push(complaints@.map_values(|x: String| x@));
            assert forall|j: int| 0 <= j < i + 1 implies #[trigger] body_emits(p.bodies@[j], *m, j as usize, t2[j], s2[j]) by {
                if j < i {
                    assert(t2[j] == texts[j] && s2[j] == saids[j]);
                }
            }
            joined_prefix(t2, texts, s2, saids, i as int);
            texts = t2;
            saids = s2;
        }
        i = i + 1;
    }
    push_text(&mut out, "\t.section\t.note.GNU-stack, \"\", @progbits\n");
    if p.pool.len() > 0 {
        let text = if same_text(m.name, "aarch64") || same_text(m.name, "riscv64") {
            pool_with(p.pool.as_slice(), "\t.align\t3\n")
        } else {
            pool_with(p.pool.as_slice(), "\t.align\t8\n")
        };
        push_text(&mut out, text.as_str());
    }
    proof {
        assert(out@ =~= joined_texts(texts, texts.len() as int) + stack_note() + pool_for(*m, p.pool@));
    }
    (out, said)
}

/// Joining more leaves what the first ones join as it was.
proof fn joined_prefix(t2: Seq<Seq<char>>, t: Seq<Seq<char>>, s2: Seq<Seq<Seq<char>>>, s: Seq<Seq<Seq<char>>>, n: int)
    requires
        0 <= n <= t.len(),
        n <= t2.len(),
        n <= s.len(),
        n <= s2.len(),
        forall|j: int| 0 <= j < n ==> t2[j] == t[j] && s2[j] == s[j],
    ensures
        joined_texts(t2, n) == joined_texts(t, n),
        joined_said(s2, n) == joined_said(s, n),
    decreases n,
{
    if n > 0 {
        joined_prefix(t2, t, s2, s, n - 1);
    }
}

} // verus!
