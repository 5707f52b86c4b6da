//! Where the registers a body wanted actually go: linear scan over the
//! written-out body.
//!
//! A register is alive from the first line that names it to the last, and
//! everything between; where that reaches into a loop and out of it, the
//! value is wanted again on the next turn, so its span takes in the whole of
//! the loop, and a call anywhere in the loop is inside it. Spans are taken
//! in the order they begin; each gets a free register of its class, or, where
//! none is left, the one that ends furthest away gives its register up and
//! goes to the frame instead, unless it ends sooner than this one, which then
//! goes to the frame itself. A value alive across a call is only ever given a
//! register a call keeps.

use vstd::prelude::*;
use crate::linear::{Line, Linear};
use crate::machine::{holds, Class, Machine, Reg};
use crate::spell::{decimal, push_char, push_decimal};
use crate::mir_nodes::{kind_uses, uses, MIRBlockId, MIRFrameId, MIRInstKind, MIRReg, MIRRegId, MIRSlot};

verus! {

/// Where one register ended up.
#[derive(Debug, Clone, Copy, PartialEq, Eq)]
pub enum Where {
    In(Reg),
    /// In the frame, because there was no register to be had when it was
    /// wanted.
    Spilled(MIRFrameId),
    /// Nothing ever writes it and nothing ever reads it, so it needs nowhere.
    Nowhere,
}

#[derive(Debug, Clone, PartialEq)]
pub struct Allocation {
    /// One answer per register of the body, by its id.
    pub at: Vec<Where>,
    /// How many had to go in the frame.
    pub spills: usize,
    /// How many were wanted at once at the worst point.
    pub most: usize,
}

impl Allocation {
    /// Where `reg` ended up; nowhere for a register that is not the body's.
    pub fn of(&self, reg: MIRRegId) -> (r: Where)
        ensures
            r == (if reg < self.at@.len() { self.at@[reg as int] } else { Where::Nowhere }),
    {
        if reg < self.at.len() {
            self.at[reg]
        } else {
            Where::Nowhere
        }
    }
}

// ---- Where each register is alive ---------------------------------------------

/// The registers a line names: what it reads, then what it writes.
pub open spec fn line_regs(l: Line) -> Seq<MIRRegId> {
    match l {
        Line::Label(_) => Seq::empty(),
        Line::Inst(i) => kind_uses(i.kind) + match i.def {
            Some(d) => seq![d],
            None => Seq::empty(),
        },
        Line::Term(t) => t.spec_uses(),
    }
}

/// Whether a line names `r`, by reading or by writing it.
pub open spec fn line_names(l: Line, r: MIRRegId) -> bool {
    line_regs(l).contains(r)
}

/// Whether `r` is named at line `at`: a parameter is filled by the caller, so
/// it is named at the first line.
pub open spec fn named_at(held: Linear, r: MIRRegId, at: int) -> bool {
    (at == 0 && held.params@.contains(r)) || (0 <= at < held.lines@.len() && line_names(held.lines@[at], r))
}

/// Whether a line is a call.
pub open spec fn is_call(l: Line) -> bool {
    match l {
        Line::Inst(i) => i.kind is Call,
        _ => false,
    }
}

/// Whether a call stands after `from` and no later than `to`.
pub open spec fn call_within(held: Linear, from: int, to: int) -> bool {
    exists|c: int| from < c <= to && 0 <= c < held.lines@.len() && #[trigger] is_call(held.lines@[c])
}

/// What a register is alive for: from the first line that names it to the
/// last, widened over every loop it is alive round, and whether a call stands
/// inside.
#[derive(Debug, Clone, Copy)]
pub struct Span {
    pub reg: MIRRegId,
    pub from: usize,
    pub to: usize,
    pub class: Class,
    pub bytes: usize,
    pub across: bool,
}

/// Whether `b` is the first line that labels block `blk`.
pub open spec fn first_label(held: Linear, blk: MIRBlockId, b: int) -> bool {
    &&& 0 <= b < held.lines@.len()
    &&& held.lines@[b] == Line::Label(blk)
    &&& forall|c: int| 0 <= c < b ==> held.lines@[c] != Line::Label(blk)
}

/// Whether a jump at line `l` goes back to the label at line `b`: the lines
/// from `b` to `l` are a loop.
pub open spec fn arc(held: Linear, b: int, l: int) -> bool {
    &&& 0 <= b <= l < held.lines@.len()
    &&& match held.lines@[l] {
        Line::Term(t) => exists|k: int| 0 <= k < t.spec_targets().len() && #[trigger] first_label(held, t.spec_targets()[k], b),
        _ => false,
    }
}

/// Whether the lines from `f` to `t` take in the whole of every loop they
/// reach into and out of. A value alive inside a loop and outside it is
/// wanted again on the next turn, so it is alive round all of it.
pub open spec fn closed(held: Linear, f: int, t: int) -> bool {
    forall|b: int, l: int| #[trigger] arc(held, b, l) && b <= t && f <= l && !(b <= f && t <= l) ==> f <= b && l <= t
}

/// Whether every line naming `r` is between `f` and `t`.
pub open spec fn covers(held: Linear, r: MIRRegId, f: int, t: int) -> bool {
    forall|at: int| #[trigger] named_at(held, r, at) ==> f <= at <= t
}

/// Whether `s` is the span of its register: the least run of lines that holds
/// every line naming it and takes in the whole of every loop it reaches into
/// and out of, with its class and width, and whether a call is inside.
pub open spec fn span_of(held: Linear, s: Span) -> bool {
    &&& s.reg < held.regs@.len()
    &&& named(held, s.reg)
    &&& covers(held, s.reg, s.from as int, s.to as int)
    &&& closed(held, s.from as int, s.to as int)
    &&& forall|f: int, t: int|
        covers(held, s.reg, f, t) && #[trigger] closed(held, f, t) ==> f <= s.from && s.to <= t
    &&& s.class == held.regs@[s.reg as int].class
    &&& s.bytes == held.regs@[s.reg as int].bytes
    &&& s.across == call_within(held, s.from as int, s.to as int)
}

/// Whether `r` is named anywhere.
pub open spec fn named(held: Linear, r: MIRRegId) -> bool {
    exists|at: int| #[trigger] named_at(held, r, at)
}

/// The first line labelling `blk`, where one does.
fn find_label(held: &Linear, blk: MIRBlockId) -> (r: Option<usize>)
    ensures
        match r {
            Some(b) => first_label(*held, blk, b as int),
            None => forall|c: int| 0 <= c < held.lines@.len() ==> held.lines@[c] != Line::Label(blk),
        },
{
    let mut c: usize = 0;
    while c < held.lines.len()
        invariant
            c <= held.lines@.len(),
            forall|x: int| 0 <= x < c ==> held.lines@[x] != Line::Label(blk),
        decreases held.lines@.len() - c,
    {
        match &held.lines[c] {
            Line::Label(x) => {
                if *x == blk {
                    return Some(c);
                }
            },
            _ => {},
        }
        c = c + 1;
    }
    None
}

/// Every loop of the body, as the line of its label and the line of the jump
/// back to it.
fn arcs_of(held: &Linear) -> (r: Vec<(usize, usize)>)
    ensures
        forall|i: int| 0 <= i < r@.len() ==> arc(*held, (#[trigger] r@[i]).0 as int, r@[i].1 as int),
        forall|b: int, l: int| #[trigger] arc(*held, b, l) ==> r@.contains((b as usize, l as usize)),
{
    let mut out: Vec<(usize, usize)> = Vec::new();
    let mut l: usize = 0;
    while l < held.lines.len()
        invariant
            l <= held.lines@.len(),
            forall|i: int| 0 <= i < out@.len() ==> arc(*held, (#[trigger] out@[i]).0 as int, out@[i].1 as int),
            forall|b: int, x: int| #[trigger] arc(*held, b, x) && x < l ==> out@.contains((b as usize, x as usize)),
        decreases held.lines@.len() - l,
    {
        match &held.lines[l] {
            Line::Term(t) => {
                let targets = t.targets();
                let mut k: usize = 0;
                while k < targets.len()
                    invariant
                        l < held.lines@.len(),
                        held.lines@[l as int] == Line::Term(*t),
                        targets@ == t.spec_targets(),
                        k <= targets@.len(),
                        forall|i: int| 0 <= i < out@.len() ==> arc(*held, (#[trigger] out@[i]).0 as int, out@[i].1 as int),
                        forall|b: int, x: int| #[trigger] arc(*held, b, x) && x < l ==> out@.contains((b as usize, x as usize)),
                        forall|b: int, j: int|
                            0 <= j < k && b <= l && #[trigger] first_label(*held, targets@[j], b) ==> out@.contains(
                                (b as usize, l),
                            ),
                    decreases targets@.len() - k,
                {
                    let ghost before = out@;
                    match find_label(held, targets[k]) {
                        Some(b) => {
                            if b <= l {
                                out.push((b, l));
                                proof {
                                    assert(first_label(*held, t.spec_targets()[k as int], b as int));
                                    assert(arc(*held, b as int, l as int));
                                }
                            }
                        },
                        None => {},
                    }
                    proof {
                        assert forall|i: int| 0 <= i < out@.len() implies arc(*held, (#[trigger] out@[i]).0 as int, out@[i].1 as int) by {
                            if i < before.len() {
                                assert(out@[i] == before[i]);
                            }
                        }
                        assert forall|p: (usize, usize)| before.contains(p) implies out@.contains(p) by {
                            let i = choose|i: int| 0 <= i < before.len() && before[i] == p;
                            assert(out@[i] == before[i]);
                        }
                        assert forall|b: int, j: int|
                            0 <= j < k + 1 && b <= l && #[trigger] first_label(*held, targets@[j], b) implies out@.contains(
                                (b as usize, l),
                            ) by {
                            if j == k {
                                // The first label of a block is one line.
                                let found = find_label_spec(*held, targets@[j]);
                                first_unique(*held, targets@[j], b, found);
                                assert(out@[out@.len() - 1] == (b as usize, l));
                            }
                        }
                    }
                    k = k + 1;
                }
                proof {
                    assert forall|b: int, x: int| #[trigger] arc(*held, b, x) && x < l + 1 implies out@.contains((b as usize, x as usize)) by {
                        if x == l {
                            let j = choose|j: int| 0 <= j < t.spec_targets().len() && #[trigger] first_label(*held, t.spec_targets()[j], b);
                            assert(first_label(*held, targets@[j], b));
                        }
                    }
                }
            },
            _ => {
                proof {
                    assert forall|b: int, x: int| #[trigger] arc(*held, b, x) && x < l + 1 implies out@.contains((b as usize, x as usize)) by {
                        if x == l {
                            assert(!arc(*held, b, x));
                        }
                    }
                }
            },
        }
        l = l + 1;
    }
    out
}

/// The line a block's first label stands at, where it has one.
pub open spec fn find_label_spec(held: Linear, blk: MIRBlockId) -> int {
    choose|b: int| first_label(held, blk, b)
}

/// A block has one first label.
proof fn first_unique(held: Linear, blk: MIRBlockId, b: int, c: int)
    ensures
        first_label(held, blk, b) && first_label(held, blk, c) ==> b == c,
{
    if first_label(held, blk, b) && first_label(held, blk, c) {
        if b < c {
            assert(held.lines@[b] != Line::Label(blk));
        } else if c < b {
            assert(held.lines@[c] != Line::Label(blk));
        }
    }
}

/// Whether the run from `f` to `t` takes in the whole of every loop of
/// `arcs` it reaches into and out of.
pub open spec fn closed_over(arcs: Seq<(usize, usize)>, f: int, t: int) -> bool {
    forall|i: int|
        0 <= i < arcs.len() && (#[trigger] arcs[i]).0 <= t && f <= arcs[i].1 && !(arcs[i].0 <= f && t <= arcs[i].1) ==> f
            <= arcs[i].0 && arcs[i].1 <= t
}

/// Where `arcs` is every loop of the body and nothing else, a run takes in
/// the loops of the body exactly where it takes in those of `arcs`.
proof fn closed_agrees(held: Linear, arcs: Seq<(usize, usize)>, f: int, t: int)
    requires
        held.lines@.len() <= usize::MAX,
        forall|i: int| 0 <= i < arcs.len() ==> arc(held, (#[trigger] arcs[i]).0 as int, arcs[i].1 as int),
        forall|b: int, l: int| #[trigger] arc(held, b, l) ==> arcs.contains((b as usize, l as usize)),
    ensures
        closed(held, f, t) <==> closed_over(arcs, f, t),
{
    if closed(held, f, t) {
        assert forall|i: int|
            0 <= i < arcs.len() && (#[trigger] arcs[i]).0 <= t && f <= arcs[i].1 && !(arcs[i].0 <= f && t <= arcs[i].1) implies f
                <= arcs[i].0 && arcs[i].1 <= t by {
            assert(arc(held, arcs[i].0 as int, arcs[i].1 as int));
        }
    }
    if closed_over(arcs, f, t) {
        assert forall|b: int, l: int| #[trigger] arc(held, b, l) && b <= t && f <= l && !(b <= f && t <= l) implies f <= b && l <= t by {
            assert(arcs.contains((b as usize, l as usize)));
            let i = choose|i: int| 0 <= i < arcs.len() && arcs[i] == (b as usize, l as usize);
            assert(arcs[i].0 as int == b && arcs[i].1 as int == l);
        }
    }
}

/// Widens the run from `from` to `to` over every loop it reaches into and
/// out of, until there is none left: the least such run holding it.
fn close(arcs: &Vec<(usize, usize)>, from: usize, to: usize) -> (r: (usize, usize))
    requires
        forall|i: int| 0 <= i < arcs@.len() ==> (#[trigger] arcs@[i]).0 <= arcs@[i].1,
        from <= to,
    ensures
        r.0 <= from,
        to <= r.1,
        closed_over(arcs@, r.0 as int, r.1 as int),
        forall|f: int, t: int| f <= from && to <= t && #[trigger] closed_over(arcs@, f, t) ==> f <= r.0 && r.1 <= t,
{
    let mut f = from;
    let mut t = to;
    let mut going = true;
    while going
        invariant
            forall|i: int| 0 <= i < arcs@.len() ==> (#[trigger] arcs@[i]).0 <= arcs@[i].1,
            f <= from,
            to <= t,
            forall|lo: int, hi: int| lo <= from && to <= hi && #[trigger] closed_over(arcs@, lo, hi) ==> lo <= f && t <= hi,
            !going ==> closed_over(arcs@, f as int, t as int),
        decreases f as int + (usize::MAX - t) as int + if going { 1int } else { 0int },
    {
        let f0 = f;
        let t0 = t;
        let mut changed = false;
        let mut i: usize = 0;
        while i < arcs.len()
            invariant
                forall|x: int| 0 <= x < arcs@.len() ==> (#[trigger] arcs@[x]).0 <= arcs@[x].1,
                i <= arcs@.len(),
                f <= f0,
                t0 <= t,
                f0 <= from,
                to <= t0,
                forall|lo: int, hi: int| lo <= from && to <= hi && #[trigger] closed_over(arcs@, lo, hi) ==> lo <= f && t <= hi,
                changed ==> f < f0 || t > t0,
                !changed ==> f == f0 && t == t0,
                !changed ==> forall|x: int|
                    0 <= x < i && (#[trigger] arcs@[x]).0 <= t && f <= arcs@[x].1 && !(arcs@[x].0 <= f && t <= arcs@[x].1) ==> f
                        <= arcs@[x].0 && arcs@[x].1 <= t,
            decreases arcs@.len() - i,
        {
            let (b, l) = arcs[i];
            if b <= t && f <= l && !(b <= f && t <= l) && !(f <= b && l <= t) {
                proof {
                    assert forall|lo: int, hi: int| lo <= from && to <= hi && #[trigger] closed_over(arcs@, lo, hi) implies lo <= b
                        && l <= hi by {
                        assert(arcs@[i as int] == (b, l));
                    }
                }
                if b < f {
                    f = b;
                }
                if l > t {
                    t = l;
                }
                changed = true;
            }
            i = i + 1;
        }
        if !changed {
            going = false;
        }
    }
    (f, t)
}

/// Where every call stands, first to last.
fn calls_at(held: &Linear) -> (r: Vec<usize>)
    ensures
        forall|i: int, j: int| 0 <= i < j < r@.len() ==> #[trigger] r@[i] < #[trigger] r@[j],
        forall|c: int| 0 <= c <= usize::MAX ==> (#[trigger] r@.contains(c as usize) <==> (0 <= c < held.lines@.len()
            && is_call(held.lines@[c]))),
{
    let mut out: Vec<usize> = Vec::new();
    let mut at: usize = 0;
    while at < held.lines.len()
        invariant
            at <= held.lines@.len(),
            forall|i: int, j: int| 0 <= i < j < out@.len() ==> #[trigger] out@[i] < #[trigger] out@[j],
            forall|i: int| 0 <= i < out@.len() ==> #[trigger] out@[i] < at,
            forall|c: int| 0 <= c <= usize::MAX ==> (#[trigger] out@.contains(c as usize) <==> (0 <= c < at && is_call(
                held.lines@[c],
            ))),
        decreases held.lines@.len() - at,
    {
        let call = match &held.lines[at] {
            Line::Inst(inst) => match &inst.kind {
                MIRInstKind::Call { .. } => true,
                _ => false,
            },
            _ => false,
        };
        proof {
            assert(call == is_call(held.lines@[at as int]));
        }
        let ghost before = out@;
        if call {
            out.push(at);
        }
        proof {
            assert forall|c: int| 0 <= c <= usize::MAX implies (#[trigger] out@.contains(c as usize) <==> (0 <= c < at + 1
                && is_call(held.lines@[c]))) by {
                let was = before.contains(c as usize);
                assert(was <==> (0 <= c < at && is_call(held.lines@[c])));
                if was {
                    let i = choose|i: int| 0 <= i < before.len() && before[i] == c as usize;
                    assert(out@[i] == before[i]);
                }
                if out@.contains(c as usize) {
                    let i = choose|i: int| 0 <= i < out@.len() && out@[i] == c as usize;
                    if i < before.len() {
                        assert(before[i] == out@[i]);
                    } else {
                        assert(call && c == at);
                    }
                }
                if c == at && call {
                    assert(out@[out@.len() - 1] == at);
                }
            }
        }
        at = at + 1;
    }
    out
}

/// Whether a call in `calls` stands after `from` and no later than `to`.
fn any_call(calls: &Vec<usize>, from: usize, to: usize) -> (r: bool)
    ensures
        r == exists|i: int| 0 <= i < calls@.len() && from < #[trigger] calls@[i] <= to,
{
    let mut i: usize = 0;
    while i < calls.len()
        invariant
            i <= calls@.len(),
            forall|j: int| 0 <= j < i ==> !(from < #[trigger] calls@[j] <= to),
        decreases calls@.len() - i,
    {
        if from < calls[i] && calls[i] <= to {
            return true;
        }
        i = i + 1;
    }
    false
}

/// The lower of two answers, where there are two.
pub open spec fn lower(o: Option<usize>, a: Option<usize>) -> Option<usize> {
    match (o, a) {
        (Some(x), Some(y)) => Some(if x <= y { x } else { y }),
        (None, _) => a,
        (_, None) => o,
    }
}

pub open spec fn higher(o: Option<usize>, a: Option<usize>) -> Option<usize> {
    match (o, a) {
        (Some(x), Some(y)) => Some(if x >= y { x } else { y }),
        (None, _) => a,
        (_, None) => o,
    }
}

/// `at`, where `regs` holds `r`.
pub open spec fn here(regs: Seq<MIRRegId>, r: MIRRegId, at: usize) -> Option<usize> {
    if regs.contains(r) { Some(at) } else { None }
}

/// Whether `r` is named at line `at` among the parameters and the first `k`
/// lines.
pub open spec fn named_upto(held: Linear, r: MIRRegId, at: int, k: int) -> bool {
    (at == 0 && held.params@.contains(r)) || (0 <= at < k && at < held.lines@.len() && line_names(held.lines@[at], r))
}

/// The first line naming `r`, among the parameters and the first `k` lines.
pub open spec fn low_upto(held: Linear, r: MIRRegId, k: nat) -> Option<usize>
    decreases k,
{
    if k == 0 {
        here(held.params@, r, 0)
    } else {
        lower(low_upto(held, r, (k - 1) as nat), here(line_regs(held.lines@[k - 1]), r, (k - 1) as usize))
    }
}

/// The last line naming `r`, among the parameters and the first `k` lines.
pub open spec fn high_upto(held: Linear, r: MIRRegId, k: nat) -> Option<usize>
    decreases k,
{
    if k == 0 {
        here(held.params@, r, 0)
    } else {
        higher(high_upto(held, r, (k - 1) as nat), here(line_regs(held.lines@[k - 1]), r, (k - 1) as usize))
    }
}

proof fn upto_bounds(held: Linear, r: MIRRegId, k: nat)
    requires
        k <= held.lines@.len(),
        held.lines@.len() <= usize::MAX,
    ensures
        low_upto(held, r, k) is Some <==> exists|at: int| named_upto(held, r, at, k as int),
        high_upto(held, r, k) is Some <==> low_upto(held, r, k) is Some,
        low_upto(held, r, k) matches Some(x) ==> named_upto(held, r, x as int, k as int) && forall|at: int|
            #[trigger] named_upto(held, r, at, k as int) ==> x <= at,
        high_upto(held, r, k) matches Some(x) ==> named_upto(held, r, x as int, k as int) && forall|at: int|
            #[trigger] named_upto(held, r, at, k as int) ==> at <= x,
    decreases k,
{
    if k > 0 {
        upto_bounds(held, r, (k - 1) as nat);
        let j = (k - 1) as int;
        assert forall|at: int| named_upto(held, r, at, k as int) <==> (named_upto(held, r, at, j) || (at == j && line_names(
            held.lines@[j],
            r,
        ))) by {}
        if line_names(held.lines@[j], r) {
            assert(named_upto(held, r, j, k as int));
        }
        if low_upto(held, r, (k - 1) as nat) is Some {
            let at0 = choose|at: int| named_upto(held, r, at, j);
            assert(named_upto(held, r, at0, k as int));
        }
        if exists|at: int| named_upto(held, r, at, k as int) {
            let at0 = choose|at: int| named_upto(held, r, at, k as int);
            if at0 != j || !line_names(held.lines@[j], r) {
                assert(named_upto(held, r, at0, j));
            }
        }
    } else {
        if held.params@.contains(r) {
            assert(named_upto(held, r, 0, 0));
        }
    }
}

/// Marks every register of `regs` as named at line `at`.
#[verifier::spinoff_prover]
fn mark_all(low: &mut Vec<Option<usize>>, high: &mut Vec<Option<usize>>, regs: &Vec<MIRRegId>, at: usize)
    requires
        old(low)@.len() == old(high)@.len(),
    ensures
        final(low)@.len() == old(low)@.len(),
        final(high)@.len() == old(high)@.len(),
        forall|r: int|
            0 <= r < old(low)@.len() ==> #[trigger] final(low)@[r] == lower(old(low)@[r], here(regs@, r as MIRRegId, at))
                && final(high)@[r] == higher(old(high)@[r], here(regs@, r as MIRRegId, at)),
{
    let ghost lo0 = low@;
    let ghost hi0 = high@;
    let mut i: usize = 0;
    while i < regs.len()
        invariant
            i <= regs@.len(),
            lo0.len() == hi0.len(),
            low@.len() == lo0.len(),
            high@.len() == hi0.len(),
            forall|r: int|
                0 <= r < lo0.len() ==> #[trigger] low@[r] == lower(lo0[r], here(regs@.subrange(0, i as int), r as MIRRegId, at))
                    && high@[r] == higher(hi0[r], here(regs@.subrange(0, i as int), r as MIRRegId, at)),
        decreases regs@.len() - i,
    {
        let reg = regs[i];
        let ghost lw = low@;
        let ghost hw = high@;
        if reg < low.len() {
            let lo = match low[reg] {
                Some(x) => if x <= at { x } else { at },
                None => at,
            };
            let hi = match high[reg] {
                Some(x) => if x >= at { x } else { at },
                None => at,
            };
            low.set(reg, Some(lo));
            high.set(reg, Some(hi));
        }
        proof {
            assert forall|r: int|
                0 <= r < lo0.len() implies #[trigger] low@[r] == lower(lo0[r], here(regs@.subrange(0, i + 1), r as MIRRegId, at))
                    && high@[r] == higher(hi0[r], here(regs@.subrange(0, i + 1), r as MIRRegId, at)) by {
                let before = regs@.subrange(0, i as int);
                let after = regs@.subrange(0, i + 1);
                assert(after =~= before.push(reg));
                let x = r as MIRRegId;
                assert(lw[r] == lower(lo0[r], here(before, x, at)));
                assert(hw[r] == higher(hi0[r], here(before, x, at)));
                if r != reg as int {
                    assert(low@[r] == lw[r]);
                    assert(high@[r] == hw[r]);
                }
                if after.contains(x) {
                    let k = choose|k: int| 0 <= k < after.len() && after[k] == x;
                    if k < before.len() {
                        assert(before[k] == after[k]);
                        assert(before.contains(x));
                    }
                }
                if before.contains(x) {
                    let k = choose|k: int| 0 <= k < before.len() && before[k] == x;
                    assert(after[k] == before[k]);
                }
                if r == reg as int {
                    assert(after[i as int] == reg);
                }
            }
        }
        i = i + 1;
    }
    proof {
        assert(regs@.subrange(0, regs@.len() as int) =~= regs@);
    }
}

/// The registers a line names.
fn regs_of(l: &Line) -> (r: Vec<MIRRegId>)
    ensures
        r@ == line_regs(*l),
{
    match l {
        Line::Label(_) => Vec::new(),
        Line::Inst(inst) => {
            let mut out = uses(&inst.kind);
            match inst.def {
                Some(d) => out.push(d),
                None => {},
            }
            proof {
                assert(out@ =~= line_regs(*l));
            }
            out
        },
        Line::Term(term) => term.uses(),
    }
}

/// The span of every register some line names, by register.
fn spans(held: &Linear, calls: &Vec<usize>) -> (r: Vec<Span>)
    requires
        forall|c: int| 0 <= c <= usize::MAX ==> (#[trigger] calls@.contains(c as usize) <==> (0 <= c < held.lines@.len()
            && is_call(held.lines@[c]))),
    ensures
        forall|i: int| 0 <= i < r@.len() ==> span_of(*held, #[trigger] r@[i]),
        forall|i: int, j: int| 0 <= i < j < r@.len() ==> (#[trigger] r@[i]).reg < (#[trigger] r@[j]).reg,
        forall|reg: int|
            0 <= reg < held.regs@.len() ==> (#[trigger] named(*held, reg as MIRRegId) <==> exists|i: int|
                0 <= i < r@.len() && (#[trigger] r@[i]).reg == reg),
{
    let n = held.regs.len();
    let nl = held.lines.len();
    let mut low: Vec<Option<usize>> = Vec::new();
    let mut high: Vec<Option<usize>> = Vec::new();
    let mut i: usize = 0;
    while i < n
        invariant
            i <= n,
            low@.len() == i,
            high@.len() == i,
            forall|j: int| 0 <= j < i ==> #[trigger] low@[j] is None && high@[j] is None,
        decreases n - i,
    {
        low.push(None);
        high.push(None);
        i = i + 1;
    }
    let params = crate::mir_nodes::copied(&held.params);
    mark_all(&mut low, &mut high, &params, 0);
    let mut at: usize = 0;
    while at < nl
        invariant
            nl == held.lines@.len(),
            at <= nl,
            low@.len() == n,
            high@.len() == n,
            n == held.regs@.len(),
            forall|r: int|
                0 <= r < n ==> #[trigger] low@[r] == low_upto(*held, r as MIRRegId, at as nat) && high@[r] == high_upto(
                    *held,
                    r as MIRRegId,
                    at as nat,
                ),
        decreases nl - at,
    {
        let names = regs_of(&held.lines[at]);
        mark_all(&mut low, &mut high, &names, at);
        at = at + 1;
    }
    let arcs = arcs_of(held);
    let mut out: Vec<Span> = Vec::new();
    let mut reg: usize = 0;
    while reg < n
        invariant
            forall|i: int| 0 <= i < arcs@.len() ==> arc(*held, (#[trigger] arcs@[i]).0 as int, arcs@[i].1 as int),
            forall|b: int, l: int| #[trigger] arc(*held, b, l) ==> arcs@.contains((b as usize, l as usize)),
            n == held.regs@.len(),
            nl == held.lines@.len(),
            reg <= n,
            forall|c: int| 0 <= c <= usize::MAX ==> (#[trigger] calls@.contains(c as usize) <==> (0 <= c < held.lines@.len()
                && is_call(held.lines@[c]))),
            low@.len() == n,
            high@.len() == n,
            forall|r: int|
                0 <= r < n ==> #[trigger] low@[r] == low_upto(*held, r as MIRRegId, nl as nat) && high@[r] == high_upto(
                    *held,
                    r as MIRRegId,
                    nl as nat,
                ),
            forall|i: int| 0 <= i < out@.len() ==> span_of(*held, #[trigger] out@[i]),
            forall|i: int| 0 <= i < out@.len() ==> (#[trigger] out@[i]).reg < reg,
            forall|i: int, j: int| 0 <= i < j < out@.len() ==> (#[trigger] out@[i]).reg < (#[trigger] out@[j]).reg,
            forall|r: int|
                0 <= r < reg ==> (#[trigger] named(*held, r as MIRRegId) <==> exists|i: int| 0 <= i < out@.len() && (#[trigger] out@[i]).reg == r),
        decreases n - reg,
    {
        proof {
            upto_bounds(*held, reg, nl as nat);
            assert forall|at: int| named_upto(*held, reg, at, nl as int) <==> named_at(*held, reg, at) by {}
        }
        let ghost before = out@;
        match (low[reg], high[reg]) {
            (Some(lo), Some(hi)) => {
                proof {
                    assert(named_upto(*held, reg, lo as int, nl as int));
                    assert forall|i: int| 0 <= i < arcs@.len() implies (#[trigger] arcs@[i]).0 <= arcs@[i].1 by {
                        assert(arc(*held, arcs@[i].0 as int, arcs@[i].1 as int));
                    }
                }
                let (from, to) = close(&arcs, lo, hi);
                proof {
                    closed_agrees(*held, arcs@, from as int, to as int);
                    assert forall|f: int, t: int| covers(*held, reg, f, t) && #[trigger] closed(*held, f, t) implies f <= from
                        && to <= t by {
                        assert(named_at(*held, reg, lo as int));
                        assert(named_at(*held, reg, hi as int));
                        closed_agrees(*held, arcs@, f, t);
                    }
                    assert(named_at(*held, reg, lo as int));
                    assert forall|at: int| #[trigger] named_at(*held, reg, at) implies from <= at <= to by {
                        assert(named_upto(*held, reg, at, nl as int));
                    }
                }
                let one = held.regs[reg];
                let across = any_call(calls, from, to);
                proof {
                    if across {
                        let i = choose|i: int| 0 <= i < calls@.len() && from < #[trigger] calls@[i] <= to;
                        let c = calls@[i] as int;
                        assert(calls@.contains(c as usize));
                        assert(is_call(held.lines@[c]));
                    }
                    if call_within(*held, from as int, to as int) {
                        let c = choose|c: int| from < c <= to && 0 <= c < held.lines@.len() && #[trigger] is_call(held.lines@[c]);
                        assert(calls@.contains(c as usize));
                        let i = choose|i: int| 0 <= i < calls@.len() && calls@[i] == c as usize;
                        assert(from < calls@[i] <= to);
                    }
                }
                out.push(Span { reg, from, to, class: one.class, bytes: one.bytes, across });
            },
            _ => {},
        }
        proof {
            assert forall|r: int|
                0 <= r < reg + 1 implies (#[trigger] named(*held, r as MIRRegId) <==> exists|i: int|
                    0 <= i < out@.len() && (#[trigger] out@[i]).reg == r) by {
                if r < reg {
                    if exists|i: int| 0 <= i < before.len() && (#[trigger] before[i]).reg == r {
                        let i = choose|i: int| 0 <= i < before.len() && (#[trigger] before[i]).reg == r;
                        assert(out@[i] == before[i]);
                    }
                    if exists|i: int| 0 <= i < out@.len() && (#[trigger] out@[i]).reg == r {
                        let i = choose|i: int| 0 <= i < out@.len() && (#[trigger] out@[i]).reg == r;
                        if i < before.len() {
                            assert(before[i] == out@[i]);
                        }
                    }
                } else {
                    if named(*held, r as MIRRegId) {
                        let at = choose|at: int| #[trigger] named_at(*held, r as MIRRegId, at);
                        assert(named_upto(*held, reg, at, nl as int));
                        assert(out@[out@.len() - 1].reg == reg);
                    }
                    if exists|i: int| 0 <= i < out@.len() && (#[trigger] out@[i]).reg == r {
                        let i = choose|i: int| 0 <= i < out@.len() && (#[trigger] out@[i]).reg == r;
                        if i < before.len() {
                            assert(before[i].reg < reg);
                        } else {
                            assert(named(*held, reg));
                        }
                    }
                }
            }
        }
        reg = reg + 1;
    }
    out
}

// ---- In the order they begin ---------------------------------------------------

/// Whether `a` comes before `b`: it begins earlier, or at the same line with
/// a lower register.
pub open spec fn sooner(a: Span, b: Span) -> bool {
    a.from < b.from || (a.from == b.from && a.reg < b.reg)
}

/// The spans in the order they begin, ties by register.
fn by_start(spans: &Vec<Span>) -> (r: Vec<Span>)
    requires
        forall|i: int, j: int| 0 <= i < j < spans@.len() ==> (#[trigger] spans@[i]).reg < (#[trigger] spans@[j]).reg,
    ensures
        r@.len() == spans@.len(),
        forall|i: int, j: int| 0 <= i < j < r@.len() ==> sooner(#[trigger] r@[i], #[trigger] r@[j]),
        forall|i: int| 0 <= i < r@.len() ==> spans@.contains(#[trigger] r@[i]),
        forall|j: int| 0 <= j < spans@.len() ==> r@.contains(#[trigger] spans@[j]),
{
    let n = spans.len();
    let mut taken: Vec<bool> = Vec::new();
    let mut i: usize = 0;
    while i < n
        invariant
            i <= n,
            taken@.len() == i,
            forall|j: int| 0 <= j < i ==> !#[trigger] taken@[j],
        decreases n - i,
    {
        taken.push(false);
        i = i + 1;
    }
    let mut out: Vec<Span> = Vec::new();
    let mut count: usize = 0;
    proof {
        count_none(taken@);
    }
    while count < n
        invariant
            n == spans@.len(),
            taken@.len() == n,
            count <= n,
            out@.len() == count,
            forall|i: int, j: int| 0 <= i < j < spans@.len() ==> (#[trigger] spans@[i]).reg < (#[trigger] spans@[j]).reg,
            forall|i: int, j: int| 0 <= i < j < out@.len() ==> sooner(#[trigger] out@[i], #[trigger] out@[j]),
            forall|i: int| 0 <= i < out@.len() ==> spans@.contains(#[trigger] out@[i]),
            forall|j: int| 0 <= j < n ==> (#[trigger] taken@[j] <==> out@.contains(spans@[j])),
            forall|j: int| 0 <= j < n && !#[trigger] taken@[j] ==> (count == 0 || sooner(out@[count - 1], spans@[j])),
            // How many are taken.
            count == count_true(taken@),
        decreases n - count,
    {
        // The one that comes first among those not taken.
        let mut best: usize = n;
        let mut j: usize = 0;
        while j < n
            invariant
                n == spans@.len(),
                taken@.len() == n,
                j <= n,
                best == n || (best < j && !taken@[best as int]),
                forall|x: int| 0 <= x < j && !#[trigger] taken@[x] ==> best < n && (x == best || sooner(spans@[best as int], spans@[x])),
                forall|i: int, j: int| 0 <= i < j < spans@.len() ==> (#[trigger] spans@[i]).reg < (#[trigger] spans@[j]).reg,
            decreases n - j,
        {
            if !taken[j] {
                if best == n || spans[j].from < spans[best].from {
                    best = j;
                }
            }
            j = j + 1;
        }
        proof {
            if best == n {
                // Nothing is left, which cannot be while fewer than all are taken.
                assert(forall|x: int| 0 <= x < n ==> #[trigger] taken@[x]);
                taken_all(taken@);
            }
        }
        let one = spans[best];
        let ghost before = out@;
        let ghost tk = taken@;
        out.push(one);
        proof {
            count_turned_on(taken@, best as int);
        }
        taken.set(best, true);
        proof {
            assert forall|j: int| 0 <= j < n implies (#[trigger] taken@[j] <==> out@.contains(spans@[j])) by {
                if j == best as int {
                    assert(out@[out@.len() - 1] == spans@[j]);
                } else {
                    if out@.contains(spans@[j]) {
                        let i = choose|i: int| 0 <= i < out@.len() && out@[i] == spans@[j];
                        if i == out@.len() - 1 {
                            assert(spans@[j] == spans@[best as int]);
                            if j < best {
                                assert(spans@[j].reg < spans@[best as int].reg);
                            } else {
                                assert(spans@[best as int].reg < spans@[j].reg);
                            }
                        } else {
                            assert(before[i] == out@[i]);
                            assert(before.contains(spans@[j]));
                        }
                    }
                    if tk[j] {
                        assert(before.contains(spans@[j]));
                        let i = choose|i: int| 0 <= i < before.len() && before[i] == spans@[j];
                        assert(out@[i] == before[i]);
                    }
                }
            }
            assert forall|i: int| 0 <= i < out@.len() implies spans@.contains(#[trigger] out@[i]) by {
                if i < before.len() {
                    assert(out@[i] == before[i]);
                } else {
                    assert(out@[i] == spans@[best as int]);
                }
            }
            assert forall|i: int, j: int| 0 <= i < j < out@.len() implies sooner(#[trigger] out@[i], #[trigger] out@[j]) by {
                if j == out@.len() - 1 {
                    assert(out@[i] == before[i]);
                    assert(before.contains(out@[i]));
                    let x = choose|x: int| 0 <= x < n && spans@[x] == out@[i];
                    assert(tk[x]);
                    if i < count - 1 {
                        assert(sooner(before[i], before[count - 1]));
                    }
                    assert(sooner(before[count - 1], spans@[best as int]) || count == 0);
                } else {
                    assert(out@[i] == before[i] && out@[j] == before[j]);
                }
            }
            assert forall|x: int| 0 <= x < n && !#[trigger] taken@[x] implies sooner(out@[count as int], spans@[x]) by {
                assert(x != best as int);
                assert(!tk[x]);
                assert(x == best as int || sooner(spans@[best as int], spans@[x]));
            }
        }
        count = count + 1;
    }
    proof {
        assert forall|j: int| 0 <= j < n implies out@.contains(#[trigger] spans@[j]) by {
            if !taken@[j] {
                untaken_counted(taken@, j);
            }
        }
    }
    out
}

/// How many of `s` are set.
pub open spec fn count_true(s: Seq<bool>) -> nat
    decreases s.len(),
{
    if s.len() == 0 {
        0
    } else {
        count_true(s.drop_last()) + if s.last() { 1nat } else { 0nat }
    }
}

proof fn count_none(s: Seq<bool>)
    requires
        forall|x: int| 0 <= x < s.len() ==> !#[trigger] s[x],
    ensures
        count_true(s) == 0,
    decreases s.len(),
{
    if s.len() > 0 {
        count_none(s.drop_last());
    }
}

proof fn count_turned_on(s: Seq<bool>, at: int)
    requires
        0 <= at < s.len(),
        !s[at],
    ensures
        count_true(s.update(at, true)) == count_true(s) + 1,
    decreases s.len(),
{
    let up = s.update(at, true);
    if at < s.len() - 1 {
        count_turned_on(s.drop_last(), at);
        assert(up.drop_last() =~= s.drop_last().update(at, true));
    } else {
        assert(up.drop_last() =~= s.drop_last());
    }
}

/// Where every one is set, the count is all of them.
proof fn taken_all(taken: Seq<bool>)
    requires
        forall|x: int| 0 <= x < taken.len() ==> #[trigger] taken[x],
    ensures
        count_true(taken) == taken.len(),
    decreases taken.len(),
{
    if taken.len() > 0 {
        taken_all(taken.drop_last());
    }
}

/// Where one is not set, fewer than all are.
proof fn untaken_counted(taken: Seq<bool>, j: int)
    requires
        0 <= j < taken.len(),
        !taken[j],
    ensures
        count_true(taken) < taken.len(),
    decreases taken.len(),
{
    if j < taken.len() - 1 {
        untaken_counted(taken.drop_last(), j);
    } else {
        count_at_most(taken.drop_last());
    }
}

proof fn count_at_most(taken: Seq<bool>)
    ensures
        count_true(taken) <= taken.len(),
    decreases taken.len(),
{
    if taken.len() > 0 {
        count_at_most(taken.drop_last());
    }
}

// ---- The scan -----------------------------------------------------------------

/// Whether `slot` is the room made in the frame for the span `s`: its width,
/// never nought, aligned to itself up to a word, and named after the register.
pub open spec fn spill_slot(slot: MIRSlot, s: Span, word: usize) -> bool {
    let bytes: usize = if s.bytes == 0 { 1 } else { s.bytes };
    let lim: usize = if bytes <= word { bytes } else { word };
    &&& slot.bytes == bytes
    &&& slot.align == (if lim == 0 { 1 } else { lim })
    &&& slot.name@ == "%"@ + decimal(s.reg as nat)
    &&& slot.spill
}

/// Room in the frame for one that could not have a register.
fn spill(s: Span, frame: &mut Vec<MIRSlot>, word: usize) -> (slot: MIRFrameId)
    ensures
        final(frame)@.len() == old(frame)@.len() + 1,
        final(frame)@.subrange(0, old(frame)@.len() as int) == old(frame)@,
        slot == old(frame)@.len(),
        spill_slot(final(frame)@[slot as int], s, word),
{
    let bytes: usize = if s.bytes == 0 { 1 } else { s.bytes };
    let lim: usize = if bytes <= word { bytes } else { word };
    let mut name = String::new();
    push_char(&mut name, '%');
    push_decimal(&mut name, s.reg);
    proof {
        reveal_strlit("%");
        assert(name@ =~= "%"@ + decimal(s.reg as nat));
    }
    frame.push(MIRSlot { bytes, align: if lim == 0 { 1 } else { lim }, name, spill: true });
    proof {
        assert(frame@.subrange(0, old(frame)@.len() as int) =~= old(frame)@);
    }
    frame.len() - 1
}

/// The register `w` holds, where it holds one.
pub open spec fn reg_of(w: Where) -> Reg {
    match w {
        Where::In(r) => r,
        _ => arbitrary(),
    }
}

/// Whether `x` is one of the first `k` spans.
pub open spec fn from_taken(sp: Seq<Span>, k: int, x: Span) -> bool {
    exists|i: int| 0 <= i < k && sp[i] == x
}

/// Whether one of the spans still holding a register is `r`'s.
pub open spec fn in_active(active: Seq<Span>, r: MIRRegId) -> bool {
    exists|a: int| 0 <= a < active.len() && (#[trigger] active[a]).reg == r
}

/// Every span hands back a register or a slot once it is taken, and nothing
/// before; a register no span names is given nothing.
#[verifier::opaque]
pub open spec fn taken_part(sp: Seq<Span>, k: int, at: Seq<Where>) -> bool {
    &&& forall|i: int| k <= i < sp.len() ==> at[(#[trigger] sp[i]).reg as int] is Nowhere
    &&& forall|i: int| 0 <= i < k ==> !(at[(#[trigger] sp[i]).reg as int] is Nowhere)
    &&& forall|r: int| 0 <= r < at.len() && !(at[r] is Nowhere) ==> #[trigger] claimed(sp, k, r)
}

/// Whether one of the first `k` spans is `r`'s.
pub open spec fn claimed(sp: Seq<Span>, k: int, r: int) -> bool {
    exists|i: int| 0 <= i < k && sp[i].reg == r
}

/// A register given is of the span's own class, out of the file for it, and
/// one a call keeps where a call stands inside.
#[verifier::opaque]
pub open spec fn class_part(sp: Seq<Span>, k: int, at: Seq<Where>, m: Machine) -> bool {
    forall|i: int|
        0 <= i < k && #[trigger] at[sp[i].reg as int] is In ==> ({
            let r = reg_of(at[sp[i].reg as int]);
            &&& r.class == sp[i].class
            &&& holds(if r.class == Class::Int { m.ints@ } else { m.floats@ }, r)
            &&& (sp[i].across ==> holds(m.saved@, r))
        })
}

/// The spans holding a register now: taken already, in the order they end,
/// each holding one, no two the same register.
#[verifier::opaque]
pub open spec fn active_part(sp: Seq<Span>, k: int, at: Seq<Where>, active: Seq<Span>) -> bool {
    &&& forall|a: int| 0 <= a < active.len() ==> #[trigger] from_taken(sp, k, active[a])
    &&& forall|a: int| 0 <= a < active.len() ==> at[(#[trigger] active[a]).reg as int] is In
    &&& forall|a: int, b: int| 0 <= a < b < active.len() ==> (#[trigger] active[a]).reg != (#[trigger] active[b]).reg
    &&& forall|a: int, b: int| 0 <= a < b < active.len() ==> (#[trigger] active[a]).to <= (#[trigger] active[b]).to
    &&& forall|a: int, b: int|
        0 <= a < b < active.len() ==> reg_of(at[(#[trigger] active[a]).reg as int])@ != reg_of(
            at[(#[trigger] active[b]).reg as int],
        )@
}

/// What is free: of its class, out of the file for it, each once, and none of
/// it held.
#[verifier::opaque]
pub open spec fn free_part(at: Seq<Where>, active: Seq<Span>, ints: Seq<Reg>, floats: Seq<Reg>, m: Machine) -> bool {
    &&& crate::machine::all_of(ints, Class::Int)
    &&& crate::machine::all_of(floats, Class::Float)
    &&& crate::machine::within(ints, m.ints@)
    &&& crate::machine::within(floats, m.floats@)
    &&& crate::machine::distinct(ints)
    &&& crate::machine::distinct(floats)
    &&& forall|a: int, j: int| 0 <= a < active.len() && 0 <= j < ints.len() ==> (#[trigger] ints[j])@ != reg_of(
        at[(#[trigger] active[a]).reg as int],
    )@
    &&& forall|a: int, j: int| 0 <= a < active.len() && 0 <= j < floats.len() ==> (#[trigger] floats[j])@ != reg_of(
        at[(#[trigger] active[a]).reg as int],
    )@
}

/// A span that holds a register and no longer needs it ended before the next
/// one begins.
#[verifier::opaque]
pub open spec fn ended_part(sp: Seq<Span>, k: int, at: Seq<Where>, active: Seq<Span>) -> bool {
    forall|i: int|
        0 <= i < k && #[trigger] at[sp[i].reg as int] is In && !in_active(active, sp[i].reg) ==> (k == sp.len() || sp[i].to
            < sp[k].from)
}

/// No two spans that hold one register are alive at once.
#[verifier::opaque]
pub open spec fn apart_part(sp: Seq<Span>, k: int, at: Seq<Where>) -> bool {
    forall|i: int, j: int|
        0 <= i < k && 0 <= j < k && i != j && #[trigger] at[sp[i].reg as int] is In && #[trigger] at[sp[j].reg as int] is In
            && reg_of(at[sp[i].reg as int])@ == reg_of(at[sp[j].reg as int])@ ==> sp[i].to < sp[j].from || sp[j].to < sp[i].from
}

/// What the scan keeps true between spans.
pub open spec fn scanning(
    sp: Seq<Span>,
    k: int,
    at: Seq<Where>,
    active: Seq<Span>,
    ints: Seq<Reg>,
    floats: Seq<Reg>,
    m: Machine,
) -> bool {
    &&& taken_part(sp, k, at)
    &&& class_part(sp, k, at, m)
    &&& active_part(sp, k, at, active)
    &&& free_part(at, active, ints, floats, m)
    &&& ended_part(sp, k, at, active)
    &&& apart_part(sp, k, at)
}

// ---- What the scan does, step by step --------------------------------------------

/// Where the scan stands between spans: what each register has been given,
/// the spans holding a register in the order they end, what is free of each
/// class, the spans sent to the frame in the order they went there, and how
/// many were wanted at once at the worst point so far.
pub struct Scan {
    pub at: Seq<Where>,
    pub active: Seq<Span>,
    pub ints: Seq<Reg>,
    pub floats: Seq<Reg>,
    pub spilled: Seq<Span>,
    pub most: nat,
}

/// What is held and what is free once every span holding a register that
/// ends before `from` has given it back, the one that ends first first, each
/// register going back to the end of the list of its class.
pub open spec fn expire(at: Seq<Where>, active: Seq<Span>, ints: Seq<Reg>, floats: Seq<Reg>, from: usize) -> (Seq<Span>, Seq<Reg>, Seq<Reg>)
    decreases active.len(),
{
    if active.len() > 0 && active[0].to < from {
        match at[active[0].reg as int] {
            Where::In(r) => expire(
                at,
                active.remove(0),
                given_back(ints, Class::Int, r),
                given_back(floats, Class::Float, r),
                from,
            ),
            _ => expire(at, active.remove(0), ints, floats, from),
        }
    } else {
        (active, ints, floats)
    }
}

/// The first place from `j` on in `free` that holds a register a call keeps.
pub open spec fn first_kept(free: Seq<Reg>, saved: Seq<Reg>, j: int) -> Option<int>
    decreases free.len() - j,
{
    if j < 0 || j >= free.len() {
        None
    } else if holds(saved, free[j]) {
        Some(j)
    } else {
        first_kept(free, saved, j + 1)
    }
}

/// Where in `free` the register is that a span takes: the first, or where a
/// call stands inside the span, the first a call keeps.
pub open spec fn first_wanted(free: Seq<Reg>, saved: Seq<Reg>, across: bool) -> Option<int> {
    if free.len() == 0 {
        None
    } else if !across {
        Some(0)
    } else {
        first_kept(free, saved, 0)
    }
}

/// Of the spans holding a register from `x` on, the one that may give it to
/// `s` and ends furthest away, the last of them where several end at once;
/// `best` is the one found before `x`.
pub open spec fn furthest_from(active: Seq<Span>, at: Seq<Where>, saved: Seq<Reg>, s: Span, x: int, best: Option<int>) -> Option<int>
    decreases active.len() - x,
{
    if x < 0 || x >= active.len() {
        best
    } else if yields(active, at, saved, s, x) && match best {
        Some(b) => active[x].to >= active[b].to,
        None => true,
    } {
        furthest_from(active, at, saved, s, x + 1, Some(x))
    } else {
        furthest_from(active, at, saved, s, x + 1, best)
    }
}

/// Where a span goes among those holding a register, kept in the order they
/// end: past every one from `p` on that ends no later than it does.
pub open spec fn keep_at(active: Seq<Span>, s: Span, p: int) -> int
    decreases active.len() - p,
{
    if 0 <= p < active.len() && active[p].to <= s.to {
        keep_at(active, s, p + 1)
    } else {
        p
    }
}

/// The scan taking the span `s` where it stands at `st`. The spans that have
/// ended give their registers back; `s` takes the register `first_wanted`
/// picks out of the free list of its class; where there is none, the span
/// `furthest_from` picks gives its register to `s` and goes to the frame, if
/// it ends later than `s` does, and otherwise `s` goes there itself. The
/// slot taken is the next after the `base` slots the frame had and those
/// spilled so far.
#[verifier::opaque]
pub open spec fn step(st: Scan, s: Span, saved: Seq<Reg>, base: nat) -> Scan {
    let (active, ints, floats) = expire(st.at, st.active, st.ints, st.floats, s.from);
    let most = if active.len() + 1 > st.most { (active.len() + 1) as nat } else { st.most };
    let free = list_of(ints, floats, s.class);
    let slot = (base + st.spilled.len()) as usize;
    match first_wanted(free, saved, s.across) {
        Some(w) => Scan {
            at: st.at.update(s.reg as int, Where::In(free[w])),
            active: active.insert(keep_at(active, s, 0), s),
            ints: if s.class == Class::Int { ints.remove(w) } else { ints },
            floats: if s.class == Class::Float { floats.remove(w) } else { floats },
            spilled: st.spilled,
            most,
        },
        None => {
            let taking = match furthest_from(active, st.at, saved, s, 0, None) {
                Some(x) => if active[x].to > s.to { Some(x) } else { None },
                None => None,
            };
            match taking {
                Some(x) => {
                    let worst = active[x];
                    let rest = active.remove(x);
                    Scan {
                        at: st.at.update(worst.reg as int, Where::Spilled(slot)).update(
                            s.reg as int,
                            Where::In(reg_of(st.at[worst.reg as int])),
                        ),
                        active: rest.insert(keep_at(rest, s, 0), s),
                        ints,
                        floats,
                        spilled: st.spilled.push(worst),
                        most,
                    }
                },
                None => Scan {
                    at: st.at.update(s.reg as int, Where::Spilled(slot)),
                    active,
                    ints,
                    floats,
                    spilled: st.spilled.push(s),
                    most,
                },
            }
        },
    }
}

/// The scan after the first `k` spans of `sp`, on a body of `nregs`
/// registers whose frame had `base` slots: from nothing given, nothing held
/// and the machine's files free.
pub open spec fn run(sp: Seq<Span>, k: nat, nregs: nat, m: Machine, base: nat) -> Scan
    decreases k,
{
    if k == 0 {
        Scan {
            at: Seq::new(nregs, |q: int| Where::Nowhere),
            active: Seq::empty(),
            ints: m.ints@,
            floats: m.floats@,
            spilled: Seq::empty(),
            most: 0,
        }
    } else {
        step(run(sp, (k - 1) as nat, nregs, m, base), sp[k - 1], m.saved@, base)
    }
}

/// Whether `sp` is every span of `held` and nothing else, in the order they
/// begin, ties by register.
pub open spec fn begins(held: Linear, sp: Seq<Span>) -> bool {
    &&& forall|i: int, j: int| 0 <= i < j < sp.len() ==> sooner(#[trigger] sp[i], #[trigger] sp[j])
    &&& forall|s: Span|
        #![trigger sp.contains(s)]
        #![trigger span_of(held, s)]
        sp.contains(s) <==> span_of(held, s)
}

/// The spans of `held` in the order they begin.
pub open spec fn in_order(held: Linear) -> Seq<Span> {
    choose|sp: Seq<Span>| begins(held, sp)
}

/// What linear scan makes of `held` on `m`, once every span is taken.
pub open spec fn scan_of(held: Linear, m: Machine) -> Scan {
    run(in_order(held), in_order(held).len(), held.regs@.len(), m, held.frame@.len())
}

/// Two lists in the order of `sooner` that hold the same spans are one.
proof fn sooner_unique(a: Seq<Span>, b: Seq<Span>)
    requires
        forall|i: int, j: int| 0 <= i < j < a.len() ==> sooner(#[trigger] a[i], #[trigger] a[j]),
        forall|i: int, j: int| 0 <= i < j < b.len() ==> sooner(#[trigger] b[i], #[trigger] b[j]),
        forall|s: Span| #![trigger a.contains(s)] #![trigger b.contains(s)] a.contains(s) <==> b.contains(s),
    ensures
        a == b,
    decreases a.len() + b.len(),
{
    if a.len() == 0 || b.len() == 0 {
        if a.len() > 0 {
            assert(a.contains(a[0]));
        }
        if b.len() > 0 {
            assert(b.contains(b[0]));
        }
        assert(a =~= b);
    } else {
        assert(a.contains(a[0]));
        assert(b.contains(b[0]));
        let i = choose|i: int| 0 <= i < b.len() && b[i] == a[0];
        let j = choose|j: int| 0 <= j < a.len() && a[j] == b[0];
        if i != 0 {
            assert(sooner(b[0], b[i]));
            assert(j != 0);
            assert(sooner(a[0], a[j]));
        }
        let a1 = a.drop_first();
        let b1 = b.drop_first();
        assert forall|s: Span| #![trigger a1.contains(s)] #![trigger b1.contains(s)] a1.contains(s) <==> b1.contains(s) by {
            if a1.contains(s) {
                let x = choose|x: int| 0 <= x < a1.len() && a1[x] == s;
                assert(a[x + 1] == s);
                assert(sooner(a[0], a[x + 1]));
                assert(b.contains(s));
                let y = choose|y: int| 0 <= y < b.len() && b[y] == s;
                assert(y != 0);
                assert(b1[y - 1] == s);
            }
            if b1.contains(s) {
                let y = choose|y: int| 0 <= y < b1.len() && b1[y] == s;
                assert(b[y + 1] == s);
                assert(sooner(b[0], b[y + 1]));
                assert(a.contains(s));
                let x = choose|x: int| 0 <= x < a.len() && a[x] == s;
                assert(x != 0);
                assert(a1[x - 1] == s);
            }
        }
        assert forall|x: int, y: int| 0 <= x < y < a1.len() implies sooner(#[trigger] a1[x], #[trigger] a1[y]) by {
            assert(a1[x] == a[x + 1] && a1[y] == a[y + 1]);
        }
        assert forall|x: int, y: int| 0 <= x < y < b1.len() implies sooner(#[trigger] b1[x], #[trigger] b1[y]) by {
            assert(b1[x] == b[x + 1] && b1[y] == b[y + 1]);
        }
        sooner_unique(a1, b1);
        assert(a =~= seq![a[0]] + a1);
        assert(b =~= seq![b[0]] + b1);
    }
}

/// A body has one list of its spans in the order they begin.
pub proof fn begins_unique(held: Linear, a: Seq<Span>, b: Seq<Span>)
    requires
        begins(held, a),
        begins(held, b),
    ensures
        a == b,
{
    assert forall|s: Span| #![trigger a.contains(s)] #![trigger b.contains(s)] a.contains(s) <==> b.contains(s) by {
        assert(a.contains(s) <==> span_of(held, s));
        assert(b.contains(s) <==> span_of(held, s));
    }
    sooner_unique(a, b);
}

/// Into the list of spans holding a register, which is kept in the order
/// they end: after every one that ends no later than this one.
fn keep(active: &mut Vec<Span>, s: Span) -> (p: usize)
    requires
        forall|a: int, b: int| 0 <= a < b < old(active)@.len() ==> (#[trigger] old(active)@[a]).to <= (#[trigger] old(active)@[b]).to,
    ensures
        p == keep_at(old(active)@, s, 0),
        p <= old(active)@.len(),
        final(active)@ == old(active)@.insert(p as int, s),
        forall|a: int, b: int| 0 <= a < b < final(active)@.len() ==> (#[trigger] final(active)@[a]).to <= (#[trigger] final(active)@[b]).to,
{
    let mut p: usize = 0;
    while p < active.len() && active[p].to <= s.to
        invariant
            p <= active@.len(),
            forall|a: int| 0 <= a < p ==> (#[trigger] active@[a]).to <= s.to,
            keep_at(active@, s, p as int) == keep_at(active@, s, 0),
        decreases active@.len() - p,
    {
        p = p + 1;
    }
    let ghost before = active@;
    active.insert(p, s);
    proof {
        assert forall|a: int, b: int| 0 <= a < b < active@.len() implies (#[trigger] active@[a]).to <= (#[trigger] active@[b]).to by {
            if b == p as int {
                assert(active@[a] == before[a]);
            } else if a == p as int {
                assert(active@[b] == before[b - 1]);
                assert(before[b - 1].to > s.to || b - 1 < p);
            } else if a < p as int && b > p as int {
                assert(active@[a] == before[a] && active@[b] == before[b - 1]);
            } else if b < p as int {
                assert(active@[a] == before[a] && active@[b] == before[b]);
            } else {
                assert(active@[a] == before[a - 1] && active@[b] == before[b - 1]);
            }
        }
    }
    p
}

/// Where in `free` the first register is that the span may have: any, or
/// where a call stands inside it, one a call keeps.
fn wanted(free: &Vec<Reg>, m: &Machine, across: bool) -> (r: Option<usize>)
    ensures
        match r {
            Some(w) => first_wanted(free@, m.saved@, across) == Some(w as int),
            None => first_wanted(free@, m.saved@, across) is None,
        },
        match r {
            Some(w) => w < free@.len() && (!across || holds(m.saved@, free@[w as int])),
            None => forall|j: int| 0 <= j < free@.len() ==> across && !holds(m.saved@, #[trigger] free@[j]),
        },
{
    if free.len() == 0 {
        return None;
    }
    if !across {
        return Some(0);
    }
    let mut j: usize = 0;
    while j < free.len()
        invariant
            across,
            free@.len() > 0,
            j <= free@.len(),
            forall|x: int| 0 <= x < j ==> !holds(m.saved@, #[trigger] free@[x]),
            first_kept(free@, m.saved@, j as int) == first_kept(free@, m.saved@, 0),
        decreases free@.len() - j,
    {
        if m.keeps(free[j]) {
            return Some(j);
        }
        j = j + 1;
    }
    None
}

/// Whether the span at `x` may give its register to `s`: of the same class,
/// holding one, and holding one that `s` may have.
pub open spec fn yields(active: Seq<Span>, at: Seq<Where>, saved: Seq<Reg>, s: Span, x: int) -> bool {
    &&& active[x].class == s.class
    &&& at[active[x].reg as int] is In
    &&& (!s.across || holds(saved, reg_of(at[active[x].reg as int])))
}

/// Of the spans that may give their register to `s`, the one that ends
/// furthest away, the last of them where several end at once, with the
/// register it holds.
fn furthest(active: &Vec<Span>, at: &Vec<Where>, s: &Span, m: &Machine) -> (r: Option<(usize, Reg)>)
    requires
        forall|a: int| 0 <= a < active@.len() ==> (#[trigger] active@[a]).reg < at@.len(),
    ensures
        match r {
            Some((w, g)) => w < active@.len() && yields(active@, at@, m.saved@, *s, w as int) && at@[active@[w as int].reg as int]
                == Where::In(g) && forall|x: int|
                0 <= x < active@.len() && #[trigger] yields(active@, at@, m.saved@, *s, x) ==> active@[x].to <= active@[w as int].to
                    && (x > w ==> active@[x].to < active@[w as int].to),
            None => forall|x: int| 0 <= x < active@.len() ==> !#[trigger] yields(active@, at@, m.saved@, *s, x),
        },
        match r {
            Some((w, _)) => furthest_from(active@, at@, m.saved@, *s, 0, None) == Some(w as int),
            None => furthest_from(active@, at@, m.saved@, *s, 0, None) is None,
        },
{
    let mut best: Option<(usize, Reg)> = None;
    let mut x: usize = 0;
    while x < active.len()
        invariant
            x <= active@.len(),
            forall|a: int| 0 <= a < active@.len() ==> (#[trigger] active@[a]).reg < at@.len(),
            match best {
                Some((w, g)) => w < x && yields(active@, at@, m.saved@, *s, w as int) && at@[active@[w as int].reg as int]
                    == Where::In(g) && forall|y: int|
                    0 <= y < x && #[trigger] yields(active@, at@, m.saved@, *s, y) ==> active@[y].to <= active@[w as int].to
                        && (y > w ==> active@[y].to < active@[w as int].to),
                None => forall|y: int| 0 <= y < x ==> !#[trigger] yields(active@, at@, m.saved@, *s, y),
            },
            furthest_from(active@, at@, m.saved@, *s, x as int, match best {
                Some((w, _)) => Some(w as int),
                None => None,
            }) == furthest_from(active@, at@, m.saved@, *s, 0, None),
        decreases active@.len() - x,
    {
        let one = active[x];
        match at[one.reg] {
            Where::In(reg) => {
                if one.class == s.class && (!s.across || m.keeps(reg)) {
                    proof {
                        assert(yields(active@, at@, m.saved@, *s, x as int));
                    }
                    match best {
                        Some((w, _)) => {
                            if one.to >= active[w].to {
                                best = Some((x, reg));
                            }
                        },
                        None => {
                            best = Some((x, reg));
                        },
                    }
                } else {
                    proof {
                        assert(!yields(active@, at@, m.saved@, *s, x as int));
                    }
                }
            },
            _ => {
                proof {
                    assert(!yields(active@, at@, m.saved@, *s, x as int));
                }
            },
        }
        x = x + 1;
    }
    best
}

/// What the spans are: in the order they begin, one register each, each of
/// the body's.
pub open spec fn ordered_spans(sp: Seq<Span>, nregs: nat) -> bool {
    &&& forall|i: int, j: int| 0 <= i < j < sp.len() ==> sooner(#[trigger] sp[i], #[trigger] sp[j])
    &&& forall|i: int, j: int| 0 <= i < j < sp.len() ==> (#[trigger] sp[i]).reg != (#[trigger] sp[j]).reg
    &&& forall|i: int| 0 <= i < sp.len() ==> (#[trigger] sp[i]).reg < nregs
}

/// The free list for a class, after a register of that class comes back.
pub open spec fn given_back(list: Seq<Reg>, class: Class, r: Reg) -> Seq<Reg> {
    if r.class == class { list.push(r) } else { list }
}

proof fn scan_starts(sp: Seq<Span>, at: Seq<Where>, m: Machine)
    requires
        ordered_spans(sp, at.len()),
        forall|r: int| 0 <= r < at.len() ==> #[trigger] at[r] is Nowhere,
        crate::machine::all_of(m.ints@, Class::Int),
        crate::machine::all_of(m.floats@, Class::Float),
        crate::machine::distinct(m.ints@),
        crate::machine::distinct(m.floats@),
    ensures
        scanning(sp, 0, at, Seq::empty(), m.ints@, m.floats@, m),
{
    reveal(taken_part);
    reveal(class_part);
    reveal(active_part);
    reveal(free_part);
    reveal(ended_part);
    reveal(apart_part);
    assert forall|j: int| 0 <= j < m.ints@.len() implies holds(m.ints@, #[trigger] m.ints@[j]) by {}
    assert forall|j: int| 0 <= j < m.floats@.len() implies holds(m.floats@, #[trigger] m.floats@[j]) by {}
}

#[verifier::spinoff_prover]
proof fn scan_expires(sp: Seq<Span>, k: int, at: Seq<Where>, active: Seq<Span>, ints: Seq<Reg>, floats: Seq<Reg>, m: Machine)
    requires
        ordered_spans(sp, at.len()),
        0 <= k < sp.len(),
        scanning(sp, k, at, active, ints, floats, m),
        active.len() > 0,
        active[0].to < sp[k].from,
    ensures
        ({
            let first = active[0];
            let r = reg_of(at[first.reg as int]);
            scanning(
                sp,
                k,
                at,
                active.remove(0),
                if at[first.reg as int] is In { given_back(ints, Class::Int, r) } else { ints },
                if at[first.reg as int] is In { given_back(floats, Class::Float, r) } else { floats },
                m,
            )
        }),
{
    reveal(taken_part);
    reveal(class_part);
    reveal(active_part);
    reveal(free_part);
    reveal(ended_part);
    reveal(apart_part);
    let first = active[0];
    let r = reg_of(at[first.reg as int]);
    let act = active.remove(0);
    assert(at[first.reg as int] is In);
    assert(from_taken(sp, k, active[0]));
    let i0 = choose|i: int| 0 <= i < k && sp[i] == active[0];
    let ints2 = given_back(ints, Class::Int, r);
    let floats2 = given_back(floats, Class::Float, r);
    assert forall|a: int| 0 <= a < act.len() implies #[trigger] from_taken(sp, k, act[a]) by {
        assert(act[a] == active[a + 1]);
    }
    assert forall|a: int| 0 <= a < act.len() implies at[(#[trigger] act[a]).reg as int] is In by {
        assert(act[a] == active[a + 1]);
    }
    assert forall|a: int, b: int| 0 <= a < b < act.len() implies (#[trigger] act[a]).reg != (#[trigger] act[b]).reg by {
        assert(act[a] == active[a + 1] && act[b] == active[b + 1]);
    }
    assert forall|a: int, b: int| 0 <= a < b < act.len() implies (#[trigger] act[a]).to <= (#[trigger] act[b]).to by {
        assert(act[a] == active[a + 1] && act[b] == active[b + 1]);
    }
    assert forall|a: int, b: int|
        0 <= a < b < act.len() implies reg_of(at[(#[trigger] act[a]).reg as int])@ != reg_of(at[(#[trigger] act[b]).reg as int])@ by {
        assert(act[a] == active[a + 1] && act[b] == active[b + 1]);
    }
    // What comes back was held by `first` alone.
    assert forall|a: int| 0 <= a < act.len() implies reg_of(at[(#[trigger] act[a]).reg as int])@ != r@ by {
        assert(act[a] == active[a + 1]);
    }
    assert(r.class == first.class);
    assert forall|a: int, j: int| 0 <= a < act.len() && 0 <= j < ints2.len() implies (#[trigger] ints2[j])@ != reg_of(
        at[(#[trigger] act[a]).reg as int],
    )@ by {
        assert(act[a] == active[a + 1]);
        if j < ints.len() {
            assert(ints2[j] == ints[j]);
        }
    }
    assert forall|a: int, j: int| 0 <= a < act.len() && 0 <= j < floats2.len() implies (#[trigger] floats2[j])@ != reg_of(
        at[(#[trigger] act[a]).reg as int],
    )@ by {
        assert(act[a] == active[a + 1]);
        if j < floats.len() {
            assert(floats2[j] == floats[j]);
        }
    }
    assert(crate::machine::distinct(ints2)) by {
        if r.class == Class::Int {
            assert forall|x: int, y: int| 0 <= x < y < ints2.len() implies (#[trigger] ints2[x])@ != (#[trigger] ints2[y])@ by {
                if y == ints.len() {
                    assert(ints2[x] == ints[x]);
                    assert(ints[x]@ != reg_of(at[active[0].reg as int])@);
                } else {
                    assert(ints2[x] == ints[x] && ints2[y] == ints[y]);
                }
            }
        }
    }
    assert(crate::machine::distinct(floats2)) by {
        if r.class == Class::Float {
            assert forall|x: int, y: int| 0 <= x < y < floats2.len() implies (#[trigger] floats2[x])@ != (#[trigger] floats2[y])@ by {
                if y == floats.len() {
                    assert(floats2[x] == floats[x]);
                    assert(floats[x]@ != reg_of(at[active[0].reg as int])@);
                } else {
                    assert(floats2[x] == floats[x] && floats2[y] == floats[y]);
                }
            }
        }
    }
    assert(crate::machine::all_of(ints2, Class::Int)) by {
        assert forall|j: int| 0 <= j < ints2.len() implies (#[trigger] ints2[j]).class == Class::Int by {
            if j < ints.len() {
                assert(ints2[j] == ints[j]);
            }
        }
    }
    assert(crate::machine::all_of(floats2, Class::Float)) by {
        assert forall|j: int| 0 <= j < floats2.len() implies (#[trigger] floats2[j]).class == Class::Float by {
            if j < floats.len() {
                assert(floats2[j] == floats[j]);
            }
        }
    }
    assert(crate::machine::within(ints2, m.ints@)) by {
        assert forall|j: int| 0 <= j < ints2.len() implies holds(m.ints@, #[trigger] ints2[j]) by {
            if j < ints.len() {
                assert(ints2[j] == ints[j]);
            }
        }
    }
    assert(crate::machine::within(floats2, m.floats@)) by {
        assert forall|j: int| 0 <= j < floats2.len() implies holds(m.floats@, #[trigger] floats2[j]) by {
            if j < floats.len() {
                assert(floats2[j] == floats[j]);
            }
        }
    }
    // A span that no longer holds on to its register ended before this one.
    assert forall|i: int|
        0 <= i < k && #[trigger] at[sp[i].reg as int] is In && !in_active(act, sp[i].reg) implies (k == sp.len() || sp[i].to
            < sp[k].from) by {
        if in_active(active, sp[i].reg) {
            let a = choose|a: int| 0 <= a < active.len() && (#[trigger] active[a]).reg == sp[i].reg;
            if a > 0 {
                assert(act[a - 1] == active[a]);
            } else {
                assert(sp[i].to == active[0].to) by {
                    let i1 = choose|i1: int| 0 <= i1 < k && sp[i1] == active[0];
                    if i1 != i {
                        assert(sp[i1].reg == sp[i].reg);
                        if i1 < i {
                            assert(sp[i1].reg != sp[i].reg);
                        } else {
                            assert(sp[i].reg != sp[i1].reg);
                        }
                    }
                }
            }
        }
    }
}

/// The free list a span of `class` takes from.
pub open spec fn list_of(ints: Seq<Reg>, floats: Seq<Reg>, class: Class) -> Seq<Reg> {
    if class == Class::Int { ints } else { floats }
}

/// The spans holding a register now are not the span being taken.
proof fn active_not_next(sp: Seq<Span>, k: int, at: Seq<Where>, active: Seq<Span>)
    requires
        ordered_spans(sp, at.len()),
        0 <= k < sp.len(),
        active_part(sp, k, at, active),
    ensures
        forall|a: int| 0 <= a < active.len() ==> (#[trigger] active[a]).reg != sp[k].reg,
{
    reveal(active_part);
    assert forall|a: int| 0 <= a < active.len() implies (#[trigger] active[a]).reg != sp[k].reg by {
        assert(from_taken(sp, k, active[a]));
        let i = choose|i: int| 0 <= i < k && sp[i] == active[a];
        assert(sp[i].reg != sp[k].reg);
    }
}

proof fn next_taken(sp: Seq<Span>, k: int, at: Seq<Where>, w: Where)
    requires
        ordered_spans(sp, at.len()),
        0 <= k < sp.len(),
        taken_part(sp, k, at),
        !(w is Nowhere),
    ensures
        taken_part(sp, k + 1, at.update(sp[k].reg as int, w)),
{
    reveal(taken_part);
    let at2 = at.update(sp[k].reg as int, w);
    assert forall|i: int| k + 1 <= i < sp.len() implies at2[(#[trigger] sp[i]).reg as int] is Nowhere by {
        assert(sp[k].reg != sp[i].reg);
    }
    assert forall|q: int| 0 <= q < at2.len() && !(at2[q] is Nowhere) implies #[trigger] claimed(sp, k + 1, q) by {
        if q != sp[k].reg as int {
            assert(claimed(sp, k, q));
            let i = choose|i: int| 0 <= i < k && sp[i].reg == q;
            assert(0 <= i < k + 1 && sp[i].reg == q);
        } else {
            assert(0 <= k < k + 1 && sp[k].reg == q);
        }
    }
}

proof fn next_class(sp: Seq<Span>, k: int, at: Seq<Where>, m: Machine, w: Where)
    requires
        ordered_spans(sp, at.len()),
        0 <= k < sp.len(),
        class_part(sp, k, at, m),
        w is In ==> ({
            let r = reg_of(w);
            &&& r.class == sp[k].class
            &&& holds(if r.class == Class::Int { m.ints@ } else { m.floats@ }, r)
            &&& (sp[k].across ==> holds(m.saved@, r))
        }),
    ensures
        class_part(sp, k + 1, at.update(sp[k].reg as int, w), m),
{
    reveal(class_part);
    let at2 = at.update(sp[k].reg as int, w);
    assert forall|i: int| 0 <= i < k + 1 && #[trigger] at2[sp[i].reg as int] is In implies ({
        let g = reg_of(at2[sp[i].reg as int]);
        &&& g.class == sp[i].class
        &&& holds(if g.class == Class::Int { m.ints@ } else { m.floats@ }, g)
        &&& (sp[i].across ==> holds(m.saved@, g))
    }) by {
        if i < k {
            assert(sp[i].reg != sp[k].reg);
        }
    }
}

proof fn takes_active(sp: Seq<Span>, k: int, at: Seq<Where>, active: Seq<Span>, r: Reg, p: int)
    requires
        ordered_spans(sp, at.len()),
        0 <= k < sp.len(),
        active_part(sp, k, at, active),
        forall|a: int| 0 <= a < active.len() ==> reg_of(at[(#[trigger] active[a]).reg as int])@ != r@,
        0 <= p <= active.len(),
        forall|a: int, b: int|
            0 <= a < b < active.insert(p, sp[k]).len() ==> (#[trigger] active.insert(p, sp[k])[a]).to <= (#[trigger] active.insert(
                p,
                sp[k],
            )[b]).to,
    ensures
        active_part(sp, k + 1, at.update(sp[k].reg as int, Where::In(r)), active.insert(p, sp[k])),
{
    active_not_next(sp, k, at, active);
    active_regs(sp, k, at, active);
    reveal(active_part);
    let s = sp[k];
    let at2 = at.update(s.reg as int, Where::In(r));
    let act = active.insert(p, s);
    assert forall|a: int| 0 <= a < act.len() implies #[trigger] from_taken(sp, k + 1, act[a]) by {
        if a == p {
            assert(act[a] == sp[k]);
        } else if a < p {
            assert(act[a] == active[a]);
            assert(from_taken(sp, k, active[a]));
            let i = choose|i: int| 0 <= i < k && sp[i] == active[a];
        } else {
            assert(act[a] == active[a - 1]);
            assert(from_taken(sp, k, active[a - 1]));
            let i = choose|i: int| 0 <= i < k && sp[i] == active[a - 1];
        }
    }
    assert forall|a: int| 0 <= a < act.len() implies at2[(#[trigger] act[a]).reg as int] is In by {
        if a < p {
            assert(act[a] == active[a]);
            assert(active[a].reg != s.reg);
        } else if a > p {
            assert(act[a] == active[a - 1]);
            assert(active[a - 1].reg != s.reg);
        }
    }
    assert forall|a: int, b: int| 0 <= a < b < act.len() implies (#[trigger] act[a]).reg != (#[trigger] act[b]).reg by {
        if a < p && b < p {
            assert(act[a] == active[a] && act[b] == active[b]);
        } else if a < p && b == p {
            assert(act[a] == active[a]);
        } else if a < p && b > p {
            assert(act[a] == active[a] && act[b] == active[b - 1]);
        } else if a == p {
            assert(act[b] == active[b - 1]);
        } else {
            assert(act[a] == active[a - 1] && act[b] == active[b - 1]);
        }
    }
    assert forall|a: int, b: int|
        0 <= a < b < act.len() implies reg_of(at2[(#[trigger] act[a]).reg as int])@ != reg_of(at2[(#[trigger] act[b]).reg as int])@ by {
        let a0 = if a < p { a } else { a - 1 };
        let b0 = if b < p { b } else { b - 1 };
        if a != p {
            assert(act[a] == active[a0]);
            assert(active[a0].reg != s.reg);
        }
        if b != p {
            assert(act[b] == active[b0]);
            assert(active[b0].reg != s.reg);
        }
        assert(act[p] == s);
    }
}

proof fn takes_free(
    sp: Seq<Span>,
    k: int,
    at: Seq<Where>,
    active: Seq<Span>,
    ints: Seq<Reg>,
    floats: Seq<Reg>,
    m: Machine,
    w: int,
    p: int,
)
    requires
        ordered_spans(sp, at.len()),
        0 <= k < sp.len(),
        active_part(sp, k, at, active),
        free_part(at, active, ints, floats, m),
        0 <= w < list_of(ints, floats, sp[k].class).len(),
        0 <= p <= active.len(),
    ensures
        free_part(
            at.update(sp[k].reg as int, Where::In(list_of(ints, floats, sp[k].class)[w])),
            active.insert(p, sp[k]),
            if sp[k].class == Class::Int { ints.remove(w) } else { ints },
            if sp[k].class == Class::Float { floats.remove(w) } else { floats },
            m,
        ),
        forall|a: int| 0 <= a < active.len() ==> reg_of(at[(#[trigger] active[a]).reg as int])@ != list_of(
            ints,
            floats,
            sp[k].class,
        )[w]@,
        list_of(ints, floats, sp[k].class)[w].class == sp[k].class,
        holds(if sp[k].class == Class::Int { m.ints@ } else { m.floats@ }, list_of(ints, floats, sp[k].class)[w]),
{
    active_not_next(sp, k, at, active);
    reveal(free_part);
    reveal(active_part);
    assert forall|a: int| 0 <= a < active.len() implies (#[trigger] active[a]).reg < at.len() by {
        assert(from_taken(sp, k, active[a]));
        let i = choose|i: int| 0 <= i < k && sp[i] == active[a];
    }
    let s = sp[k];
    let l = list_of(ints, floats, s.class);
    let r = l[w];
    let at2 = at.update(s.reg as int, Where::In(r));
    let act = active.insert(p, s);
    let ints2 = if s.class == Class::Int { ints.remove(w) } else { ints };
    let floats2 = if s.class == Class::Float { floats.remove(w) } else { floats };
    assert forall|a: int| 0 <= a < active.len() implies reg_of(at[(#[trigger] active[a]).reg as int])@ != r@ by {
        if s.class == Class::Int {
            assert(ints[w]@ != reg_of(at[active[a].reg as int])@);
        } else {
            assert(floats[w]@ != reg_of(at[active[a].reg as int])@);
        }
    }
    assert(crate::machine::within(ints2, m.ints@)) by {
        assert forall|j: int| 0 <= j < ints2.len() implies holds(m.ints@, #[trigger] ints2[j]) by {
            if s.class == Class::Int {
                if j < w {
                    assert(ints2[j] == ints[j]);
                } else {
                    assert(ints2[j] == ints[j + 1]);
                }
            }
        }
    }
    assert(crate::machine::within(floats2, m.floats@)) by {
        assert forall|j: int| 0 <= j < floats2.len() implies holds(m.floats@, #[trigger] floats2[j]) by {
            if s.class == Class::Float {
                if j < w {
                    assert(floats2[j] == floats[j]);
                } else {
                    assert(floats2[j] == floats[j + 1]);
                }
            }
        }
    }
    assert(crate::machine::all_of(ints2, Class::Int)) by {
        assert forall|j: int| 0 <= j < ints2.len() implies (#[trigger] ints2[j]).class == Class::Int by {
            if s.class == Class::Int {
                if j < w {
                    assert(ints2[j] == ints[j]);
                } else {
                    assert(ints2[j] == ints[j + 1]);
                }
            }
        }
    }
    assert(crate::machine::all_of(floats2, Class::Float)) by {
        assert forall|j: int| 0 <= j < floats2.len() implies (#[trigger] floats2[j]).class == Class::Float by {
            if s.class == Class::Float {
                if j < w {
                    assert(floats2[j] == floats[j]);
                } else {
                    assert(floats2[j] == floats[j + 1]);
                }
            }
        }
    }
    assert(crate::machine::distinct(ints2)) by {
        assert forall|x: int, y: int| 0 <= x < y < ints2.len() implies (#[trigger] ints2[x])@ != (#[trigger] ints2[y])@ by {
            if s.class == Class::Int {
                let x0 = if x < w { x } else { x + 1 };
                let y0 = if y < w { y } else { y + 1 };
                assert(ints2[x] == ints[x0] && ints2[y] == ints[y0]);
            }
        }
    }
    assert(crate::machine::distinct(floats2)) by {
        assert forall|x: int, y: int| 0 <= x < y < floats2.len() implies (#[trigger] floats2[x])@ != (#[trigger] floats2[y])@ by {
            if s.class == Class::Float {
                let x0 = if x < w { x } else { x + 1 };
                let y0 = if y < w { y } else { y + 1 };
                assert(floats2[x] == floats[x0] && floats2[y] == floats[y0]);
            }
        }
    }
    assert forall|a: int, j: int| 0 <= a < act.len() && 0 <= j < ints2.len() implies (#[trigger] ints2[j])@ != reg_of(
        at2[(#[trigger] act[a]).reg as int],
    )@ by {
        let j0 = if s.class == Class::Int && j >= w { j + 1 } else { j };
        assert(ints2[j] == ints[j0]);
        if a == p {
            assert(act[a] == s);
            assert(reg_of(at2[s.reg as int]) == r);
            if s.class == Class::Int {
                assert(ints[j0]@ != ints[w]@);
            } else {
                assert(r == floats[w]);
                assert(r.class == Class::Float);
                assert(ints[j0].class == Class::Int);
            }
        } else if a < p {
            assert(act[a] == active[a]);
            assert(active[a].reg != s.reg);
        } else {
            assert(act[a] == active[a - 1]);
            assert(active[a - 1].reg != s.reg);
        }
    }
    assert forall|a: int, j: int| 0 <= a < act.len() && 0 <= j < floats2.len() implies (#[trigger] floats2[j])@ != reg_of(
        at2[(#[trigger] act[a]).reg as int],
    )@ by {
        let j0 = if s.class == Class::Float && j >= w { j + 1 } else { j };
        assert(floats2[j] == floats[j0]);
        if a == p {
            assert(act[a] == s);
            assert(reg_of(at2[s.reg as int]) == r);
            if s.class == Class::Float {
                assert(floats[j0]@ != floats[w]@);
            } else {
                assert(r == ints[w]);
                assert(r.class == Class::Int);
                assert(floats[j0].class == Class::Float);
            }
        } else if a < p {
            assert(act[a] == active[a]);
            assert(active[a].reg != s.reg);
        } else {
            assert(act[a] == active[a - 1]);
            assert(active[a - 1].reg != s.reg);
        }
    }
}

proof fn next_ended(sp: Seq<Span>, k: int, at: Seq<Where>, active: Seq<Span>, act: Seq<Span>, w: Where)
    requires
        ordered_spans(sp, at.len()),
        0 <= k < sp.len(),
        ended_part(sp, k, at, active),
        active_part(sp, k, at, active),
        forall|a: int| 0 <= a < active.len() && (#[trigger] active[a]).reg != sp[k].reg ==> in_active(act, active[a].reg),
        w is In ==> in_active(act, sp[k].reg),
    ensures
        ended_part(sp, k + 1, at.update(sp[k].reg as int, w), act),
{
    active_not_next(sp, k, at, active);
    reveal(ended_part);
    reveal(active_part);
    let at2 = at.update(sp[k].reg as int, w);
    assert forall|i: int|
        0 <= i < k + 1 && #[trigger] at2[sp[i].reg as int] is In && !in_active(act, sp[i].reg) implies (k + 1 == sp.len() || sp[i].to
            < sp[k + 1].from) by {
        if i < k {
            assert(sp[i].reg != sp[k].reg);
            if in_active(active, sp[i].reg) {
                let a = choose|a: int| 0 <= a < active.len() && (#[trigger] active[a]).reg == sp[i].reg;
                assert(active[a].reg == sp[k].reg || in_active(act, active[a].reg));
            }
            if k + 1 < sp.len() {
                assert(sooner(sp[k], sp[k + 1]));
            }
        }
    }
}

proof fn next_apart(sp: Seq<Span>, k: int, at: Seq<Where>, active: Seq<Span>, r: Reg)
    requires
        ordered_spans(sp, at.len()),
        0 <= k < sp.len(),
        apart_part(sp, k, at),
        ended_part(sp, k, at, active),
        active_part(sp, k, at, active),
        forall|a: int| 0 <= a < active.len() ==> reg_of(at[(#[trigger] active[a]).reg as int])@ != r@,
    ensures
        apart_part(sp, k + 1, at.update(sp[k].reg as int, Where::In(r))),
{
    reveal(apart_part);
    reveal(ended_part);
    reveal(active_part);
    let at2 = at.update(sp[k].reg as int, Where::In(r));
    assert forall|i: int, j: int|
        0 <= i < k + 1 && 0 <= j < k + 1 && i != j && #[trigger] at2[sp[i].reg as int] is In && #[trigger] at2[sp[j].reg as int] is In
            && reg_of(at2[sp[i].reg as int])@ == reg_of(at2[sp[j].reg as int])@ implies sp[i].to < sp[j].from || sp[j].to
            < sp[i].from by {
        if i == k || j == k {
            let o = if i == k { j } else { i };
            assert(sp[o].reg != sp[k].reg);
            assert(at2[sp[o].reg as int] == at[sp[o].reg as int]);
            if in_active(active, sp[o].reg) {
                let a = choose|a: int| 0 <= a < active.len() && (#[trigger] active[a]).reg == sp[o].reg;
                assert(reg_of(at[active[a].reg as int])@ != r@);
            } else {
                assert(sp[o].to < sp[k].from);
            }
        } else {
            assert(sp[i].reg != sp[k].reg && sp[j].reg != sp[k].reg);
        }
    }
}

/// A part that speaks only of what the spans holding a register hold is
/// unchanged where nothing they hold changes.
proof fn held_unchanged(sp: Seq<Span>, k: int, at: Seq<Where>, at2: Seq<Where>, active: Seq<Span>, ints: Seq<Reg>, floats: Seq<Reg>, m: Machine)
    requires
        ordered_spans(sp, at.len()),
        at2.len() == at.len(),
        active_part(sp, k, at, active),
        free_part(at, active, ints, floats, m),
        forall|a: int| 0 <= a < active.len() ==> at2[(#[trigger] active[a]).reg as int] == at[active[a].reg as int],
    ensures
        free_part(at2, active, ints, floats, m),
        active_part(sp, k, at2, active),
{
    reveal(free_part);
    reveal(active_part);
    assert forall|a: int| 0 <= a < active.len() implies #[trigger] from_taken(sp, k, active[a]) by {
        assert(from_taken(sp, k, active[a]));
        let i = choose|i: int| 0 <= i < k && sp[i] == active[a];
        assert(0 <= i < k && sp[i] == active[a]);
    }
    assert forall|a: int, b: int| 0 <= a < b < active.len() implies (#[trigger] active[a]).reg != (#[trigger] active[b]).reg by {}
    assert forall|a: int, b: int| 0 <= a < b < active.len() implies (#[trigger] active[a]).to <= (#[trigger] active[b]).to by {}
    assert forall|a: int, b: int|
        0 <= a < b < active.len() implies reg_of(at2[(#[trigger] active[a]).reg as int])@ != reg_of(at2[(#[trigger] active[b]).reg as int])@ by {
        assert(at2[active[a].reg as int] == at[active[a].reg as int]);
        assert(at2[active[b].reg as int] == at[active[b].reg as int]);
    }
    assert forall|a: int| 0 <= a < active.len() implies at2[(#[trigger] active[a]).reg as int] is In by {
        assert(at2[active[a].reg as int] == at[active[a].reg as int]);
    }
    assert forall|a: int, j: int| 0 <= a < active.len() && 0 <= j < ints.len() implies (#[trigger] ints[j])@ != reg_of(
        at2[(#[trigger] active[a]).reg as int],
    )@ by {
        assert(at2[active[a].reg as int] == at[active[a].reg as int]);
    }
    assert forall|a: int, j: int| 0 <= a < active.len() && 0 <= j < floats.len() implies (#[trigger] floats[j])@ != reg_of(
        at2[(#[trigger] active[a]).reg as int],
    )@ by {
        assert(at2[active[a].reg as int] == at[active[a].reg as int]);
    }
}

/// A span that gets no register goes to the frame, and nothing else changes.
proof fn scan_spills(sp: Seq<Span>, k: int, at: Seq<Where>, active: Seq<Span>, ints: Seq<Reg>, floats: Seq<Reg>, m: Machine, slot: MIRFrameId)
    requires
        ordered_spans(sp, at.len()),
        0 <= k < sp.len(),
        scanning(sp, k, at, active, ints, floats, m),
    ensures
        scanning(sp, k + 1, at.update(sp[k].reg as int, Where::Spilled(slot)), active, ints, floats, m),
{
    let w = Where::Spilled(slot);
    let at2 = at.update(sp[k].reg as int, w);
    active_not_next(sp, k, at, active);
    assert forall|a: int| 0 <= a < active.len() implies at2[(#[trigger] active[a]).reg as int] == at[active[a].reg as int] by {
        reveal(active_part);
        assert(from_taken(sp, k, active[a]));
        let i = choose|i: int| 0 <= i < k && sp[i] == active[a];
    }
    next_taken(sp, k, at, w);
    next_class(sp, k, at, m, w);
    held_unchanged(sp, k, at, at2, active, ints, floats, m);
    assert(active_part(sp, k + 1, at2, active)) by {
        reveal(active_part);
        assert forall|a: int| 0 <= a < active.len() implies #[trigger] from_taken(sp, k + 1, active[a]) by {
            assert(from_taken(sp, k, active[a]));
            let i = choose|i: int| 0 <= i < k && sp[i] == active[a];
        }
    }
    assert forall|a: int| 0 <= a < active.len() && (#[trigger] active[a]).reg != sp[k].reg implies in_active(active, active[a].reg) by {}
    next_ended(sp, k, at, active, active, w);
    assert(apart_part(sp, k + 1, at2)) by {
        reveal(apart_part);
        assert forall|i: int, j: int|
            0 <= i < k + 1 && 0 <= j < k + 1 && i != j && #[trigger] at2[sp[i].reg as int] is In && #[trigger] at2[sp[j].reg as int] is In
                && reg_of(at2[sp[i].reg as int])@ == reg_of(at2[sp[j].reg as int])@ implies sp[i].to < sp[j].from || sp[j].to
                < sp[i].from by {
            assert(i != k && j != k);
            assert(sp[i].reg != sp[k].reg && sp[j].reg != sp[k].reg);
        }
    }
}

/// A span takes a register off a free list.
proof fn scan_takes(sp: Seq<Span>, k: int, at: Seq<Where>, active: Seq<Span>, ints: Seq<Reg>, floats: Seq<Reg>, m: Machine, w: int, p: int)
    requires
        ordered_spans(sp, at.len()),
        0 <= k < sp.len(),
        scanning(sp, k, at, active, ints, floats, m),
        0 <= w < list_of(ints, floats, sp[k].class).len(),
        !sp[k].across || holds(m.saved@, list_of(ints, floats, sp[k].class)[w]),
        0 <= p <= active.len(),
        forall|a: int, b: int|
            0 <= a < b < active.insert(p, sp[k]).len() ==> (#[trigger] active.insert(p, sp[k])[a]).to <= (#[trigger] active.insert(
                p,
                sp[k],
            )[b]).to,
    ensures
        scanning(
            sp,
            k + 1,
            at.update(sp[k].reg as int, Where::In(list_of(ints, floats, sp[k].class)[w])),
            active.insert(p, sp[k]),
            if sp[k].class == Class::Int { ints.remove(w) } else { ints },
            if sp[k].class == Class::Float { floats.remove(w) } else { floats },
            m,
        ),
{
    let r = list_of(ints, floats, sp[k].class)[w];
    let g = Where::In(r);
    let act = active.insert(p, sp[k]);
    takes_free(sp, k, at, active, ints, floats, m, w, p);
    next_taken(sp, k, at, g);
    next_class(sp, k, at, m, g);
    takes_active(sp, k, at, active, r, p);
    assert forall|a: int| 0 <= a < active.len() && (#[trigger] active[a]).reg != sp[k].reg implies in_active(act, active[a].reg) by {
        if a < p {
            assert(act[a] == active[a]);
        } else {
            assert(act[a + 1] == active[a]);
        }
    }
    assert(act[p] == sp[k]);
    next_ended(sp, k, at, active, act, g);
    next_apart(sp, k, at, active, r);
}

/// Where the spans that hold a register sit among the spans taken.
proof fn active_regs(sp: Seq<Span>, k: int, at: Seq<Where>, active: Seq<Span>)
    requires
        ordered_spans(sp, at.len()),
        0 <= k <= sp.len(),
        active_part(sp, k, at, active),
    ensures
        forall|a: int| 0 <= a < active.len() ==> (#[trigger] active[a]).reg < at.len(),
        forall|a: int| 0 <= a < active.len() ==> #[trigger] from_taken(sp, k, active[a]),
        forall|a: int| 0 <= a < active.len() ==> at[(#[trigger] active[a]).reg as int] is In,
        forall|a: int, b: int| 0 <= a < b < active.len() ==> (#[trigger] active[a]).reg != (#[trigger] active[b]).reg,
        forall|a: int, b: int|
            0 <= a < b < active.len() ==> reg_of(at[(#[trigger] active[a]).reg as int])@ != reg_of(at[(#[trigger] active[b]).reg as int])@,
{
    reveal(active_part);
    assert forall|a: int| 0 <= a < active.len() implies (#[trigger] active[a]).reg < at.len() by {
        assert(from_taken(sp, k, active[a]));
        let i = choose|i: int| 0 <= i < k && sp[i] == active[a];
    }
    assert forall|a: int| 0 <= a < active.len() implies #[trigger] from_taken(sp, k, active[a]) by {
        assert(from_taken(sp, k, active[a]));
        let i = choose|i: int| 0 <= i < k && sp[i] == active[a];
        assert(0 <= i < k && sp[i] == active[a]);
    }
    assert(forall|a: int| 0 <= a < active.len() ==> #[trigger] from_taken(sp, k, active[a]));
}

/// The span holding a register that ends furthest away gives it up and goes to
/// the frame.
proof fn scan_drops(sp: Seq<Span>, k: int, at: Seq<Where>, active: Seq<Span>, ints: Seq<Reg>, floats: Seq<Reg>, m: Machine, w: int, slot: MIRFrameId)
    requires
        ordered_spans(sp, at.len()),
        0 <= k < sp.len(),
        scanning(sp, k, at, active, ints, floats, m),
        0 <= w < active.len(),
    ensures
        scanning(sp, k, at.update(active[w].reg as int, Where::Spilled(slot)), active.remove(w), ints, floats, m),
        forall|a: int| 0 <= a < active.remove(w).len() ==> reg_of(at[(#[trigger] active.remove(w)[a]).reg as int])@ != reg_of(
            at[active[w].reg as int],
        )@,
        forall|j: int| 0 <= j < ints.len() ==> (#[trigger] ints[j])@ != reg_of(at[active[w].reg as int])@,
        forall|j: int| 0 <= j < floats.len() ==> (#[trigger] floats[j])@ != reg_of(at[active[w].reg as int])@,
        forall|a: int| 0 <= a < active.remove(w).len() ==> (#[trigger] active.remove(w)[a]).reg != active[w].reg,
{
    active_regs(sp, k, at, active);
    let worst = active[w];
    let at2 = at.update(worst.reg as int, Where::Spilled(slot));
    let act = active.remove(w);
    assert(from_taken(sp, k, active[w]));
    let i0 = choose|i: int| 0 <= i < k && sp[i] == active[w];
    assert forall|a: int| 0 <= a < act.len() implies (#[trigger] act[a]) == active[if a < w { a } else { a + 1 }] by {}
    assert forall|a: int| 0 <= a < act.len() implies (#[trigger] act[a]).reg != worst.reg by {
        let b = if a < w { a } else { a + 1 };
        assert(act[a] == active[b]);
    }
    assert forall|a: int| 0 <= a < act.len() implies reg_of(at[(#[trigger] act[a]).reg as int])@ != reg_of(at[worst.reg as int])@ by {
        let b = if a < w { a } else { a + 1 };
        assert(act[a] == active[b]);
    }
    assert forall|i: int| 0 <= i < sp.len() && (#[trigger] sp[i]).reg == worst.reg implies i == i0 by {
        if i != i0 {
            if i < i0 {
                assert(sp[i].reg != sp[i0].reg);
            } else {
                assert(sp[i0].reg != sp[i].reg);
            }
        }
    }
    assert(taken_part(sp, k, at2)) by {
        reveal(taken_part);
        assert forall|q: int| 0 <= q < at2.len() && !(at2[q] is Nowhere) implies #[trigger] claimed(sp, k, q) by {
            if q != worst.reg as int {
                assert(!(at[q] is Nowhere));
            }
        }
    }
    assert(class_part(sp, k, at2, m)) by {
        reveal(class_part);
    }
    assert(active_part(sp, k, at2, act)) by {
        reveal(active_part);
        assert forall|a: int| 0 <= a < act.len() implies #[trigger] from_taken(sp, k, act[a]) by {
            let b = if a < w { a } else { a + 1 };
            assert(act[a] == active[b]);
            assert(from_taken(sp, k, active[b]));
            let i = choose|i: int| 0 <= i < k && sp[i] == active[b];
        }
        assert forall|a: int| 0 <= a < act.len() implies at2[(#[trigger] act[a]).reg as int] is In by {
            let b = if a < w { a } else { a + 1 };
            assert(act[a] == active[b]);
        }
        assert forall|a: int, b: int| 0 <= a < b < act.len() implies (#[trigger] act[a]).reg != (#[trigger] act[b]).reg by {
            let a0 = if a < w { a } else { a + 1 };
            let b0 = if b < w { b } else { b + 1 };
            assert(act[a] == active[a0] && act[b] == active[b0]);
        }
        assert forall|a: int, b: int| 0 <= a < b < act.len() implies (#[trigger] act[a]).to <= (#[trigger] act[b]).to by {
            let a0 = if a < w { a } else { a + 1 };
            let b0 = if b < w { b } else { b + 1 };
            assert(act[a] == active[a0] && act[b] == active[b0]);
        }
        assert forall|a: int, b: int|
            0 <= a < b < act.len() implies reg_of(at2[(#[trigger] act[a]).reg as int])@ != reg_of(at2[(#[trigger] act[b]).reg as int])@ by {
            let a0 = if a < w { a } else { a + 1 };
            let b0 = if b < w { b } else { b + 1 };
            assert(act[a] == active[a0] && act[b] == active[b0]);
        }
    }
    assert(free_part(at2, act, ints, floats, m)) by {
        reveal(free_part);
        assert forall|a: int, j: int| 0 <= a < act.len() && 0 <= j < ints.len() implies (#[trigger] ints[j])@ != reg_of(
            at2[(#[trigger] act[a]).reg as int],
        )@ by {
            let a0 = if a < w { a } else { a + 1 };
            assert(act[a] == active[a0]);
        }
        assert forall|a: int, j: int| 0 <= a < act.len() && 0 <= j < floats.len() implies (#[trigger] floats[j])@ != reg_of(
            at2[(#[trigger] act[a]).reg as int],
        )@ by {
            let a0 = if a < w { a } else { a + 1 };
            assert(act[a] == active[a0]);
        }
        assert forall|j: int| 0 <= j < ints.len() implies (#[trigger] ints[j])@ != reg_of(at[worst.reg as int])@ by {}
        assert forall|j: int| 0 <= j < floats.len() implies (#[trigger] floats[j])@ != reg_of(at[worst.reg as int])@ by {}
    }
    assert(ended_part(sp, k, at2, act)) by {
        reveal(ended_part);
        assert forall|i: int|
            0 <= i < k && #[trigger] at2[sp[i].reg as int] is In && !in_active(act, sp[i].reg) implies (k == sp.len() || sp[i].to
                < sp[k].from) by {
            assert(sp[i].reg != worst.reg);
            if in_active(active, sp[i].reg) {
                let a = choose|a: int| 0 <= a < active.len() && (#[trigger] active[a]).reg == sp[i].reg;
                assert(a != w);
                let a1 = if a < w { a } else { a - 1 };
                assert(act[a1] == active[a]);
            }
        }
    }
    assert(apart_part(sp, k, at2)) by {
        reveal(apart_part);
    }
    assert forall|j: int| 0 <= j < ints.len() implies (#[trigger] ints[j])@ != reg_of(at[worst.reg as int])@ by {
        reveal(free_part);
    }
    assert forall|j: int| 0 <= j < floats.len() implies (#[trigger] floats[j])@ != reg_of(at[worst.reg as int])@ by {
        reveal(free_part);
    }
}

/// A span is given a register no span holding one has and no free list
/// holds.
proof fn scan_gives(sp: Seq<Span>, k: int, at: Seq<Where>, active: Seq<Span>, ints: Seq<Reg>, floats: Seq<Reg>, m: Machine, r: Reg, p: int)
    requires
        ordered_spans(sp, at.len()),
        0 <= k < sp.len(),
        scanning(sp, k, at, active, ints, floats, m),
        forall|a: int| 0 <= a < active.len() ==> reg_of(at[(#[trigger] active[a]).reg as int])@ != r@,
        forall|j: int| 0 <= j < ints.len() ==> (#[trigger] ints[j])@ != r@,
        forall|j: int| 0 <= j < floats.len() ==> (#[trigger] floats[j])@ != r@,
        r.class == sp[k].class,
        holds(if r.class == Class::Int { m.ints@ } else { m.floats@ }, r),
        sp[k].across ==> holds(m.saved@, r),
        0 <= p <= active.len(),
        forall|a: int, b: int|
            0 <= a < b < active.insert(p, sp[k]).len() ==> (#[trigger] active.insert(p, sp[k])[a]).to <= (#[trigger] active.insert(
                p,
                sp[k],
            )[b]).to,
    ensures
        scanning(sp, k + 1, at.update(sp[k].reg as int, Where::In(r)), active.insert(p, sp[k]), ints, floats, m),
{
    let g = Where::In(r);
    let act = active.insert(p, sp[k]);
    let at2 = at.update(sp[k].reg as int, g);
    active_not_next(sp, k, at, active);
    active_regs(sp, k, at, active);
    next_taken(sp, k, at, g);
    next_class(sp, k, at, m, g);
    takes_active(sp, k, at, active, r, p);
    assert(free_part(at2, act, ints, floats, m)) by {
        reveal(free_part);
        assert forall|a: int, j: int| 0 <= a < act.len() && 0 <= j < ints.len() implies (#[trigger] ints[j])@ != reg_of(
            at2[(#[trigger] act[a]).reg as int],
        )@ by {
            if a == p {
                assert(act[a] == sp[k]);
            } else {
                let a0 = if a < p { a } else { a - 1 };
                assert(act[a] == active[a0]);
                assert(active[a0].reg != sp[k].reg);
            }
        }
        assert forall|a: int, j: int| 0 <= a < act.len() && 0 <= j < floats.len() implies (#[trigger] floats[j])@ != reg_of(
            at2[(#[trigger] act[a]).reg as int],
        )@ by {
            if a == p {
                assert(act[a] == sp[k]);
            } else {
                let a0 = if a < p { a } else { a - 1 };
                assert(act[a] == active[a0]);
                assert(active[a0].reg != sp[k].reg);
            }
        }
    }
    assert forall|a: int| 0 <= a < active.len() && (#[trigger] active[a]).reg != sp[k].reg implies in_active(act, active[a].reg) by {
        if a < p {
            assert(act[a] == active[a]);
        } else {
            assert(act[a + 1] == active[a]);
        }
    }
    assert(act[p] == sp[k]);
    next_ended(sp, k, at, active, act, g);
    next_apart(sp, k, at, active, r);
}

/// Every register spilled has a slot of its own, appended to the frame in the
/// order the spills happened.
#[verifier::opaque]
pub open spec fn spilled_part(sp: Seq<Span>, k: int, at: Seq<Where>, frame: Seq<MIRSlot>, f0: Seq<MIRSlot>, owners: Seq<int>, word: usize) -> bool {
    &&& frame.len() == f0.len() + owners.len()
    &&& frame.subrange(0, f0.len() as int) == f0
    &&& forall|s: int|
        0 <= s < owners.len() ==> 0 <= #[trigger] owners[s] < k && at[sp[owners[s]].reg as int] == Where::Spilled((f0.len() + s) as usize)
            && spill_slot(frame[f0.len() + s], sp[owners[s]], word)
    &&& forall|i: int|
        0 <= i < k && #[trigger] at[sp[i].reg as int] is Spilled ==> ({
            let slot = at[sp[i].reg as int]->Spilled_0;
            f0.len() <= slot < frame.len() && owners[slot - f0.len()] == i
        })
}

proof fn spilled_starts(sp: Seq<Span>, at: Seq<Where>, f0: Seq<MIRSlot>, word: usize)
    ensures
        spilled_part(sp, 0, at, f0, f0, Seq::empty(), word),
{
    reveal(spilled_part);
    assert(f0.subrange(0, f0.len() as int) =~= f0);
}

/// Giving the span being taken a register leaves every slot where it was.
proof fn spilled_gives(sp: Seq<Span>, k: int, at: Seq<Where>, frame: Seq<MIRSlot>, f0: Seq<MIRSlot>, owners: Seq<int>, word: usize, r: Reg)
    requires
        ordered_spans(sp, at.len()),
        0 <= k < sp.len(),
        spilled_part(sp, k, at, frame, f0, owners, word),
    ensures
        spilled_part(sp, k + 1, at.update(sp[k].reg as int, Where::In(r)), frame, f0, owners, word),
{
    reveal(spilled_part);
    let at2 = at.update(sp[k].reg as int, Where::In(r));
    assert forall|s: int| 0 <= s < owners.len() implies 0 <= #[trigger] owners[s] < k + 1 && at2[sp[owners[s]].reg as int]
        == Where::Spilled((f0.len() + s) as usize) && spill_slot(frame[f0.len() + s], sp[owners[s]], word) by {
        assert(owners[s] < k);
        assert(sp[owners[s]].reg != sp[k].reg);
    }
    assert forall|i: int| 0 <= i < k + 1 && #[trigger] at2[sp[i].reg as int] is Spilled implies ({
        let slot = at2[sp[i].reg as int]->Spilled_0;
        f0.len() <= slot < frame.len() && owners[slot - f0.len()] == i
    }) by {
        if i < k {
            assert(sp[i].reg != sp[k].reg);
        }
    }
}

/// A span going to the frame takes the next slot: one taken already (`k2` is
/// `k`), or the one being taken (`i0` is `k`, and `k2` the next).
proof fn spilled_adds(
    sp: Seq<Span>,
    k: int,
    k2: int,
    at: Seq<Where>,
    frame: Seq<MIRSlot>,
    frame2: Seq<MIRSlot>,
    f0: Seq<MIRSlot>,
    owners: Seq<int>,
    word: usize,
    i0: int,
)
    requires
        ordered_spans(sp, at.len()),
        0 <= k < sp.len(),
        (k2 == k && 0 <= i0 < k) || (k2 == k + 1 && i0 == k),
        spilled_part(sp, k, at, frame, f0, owners, word),
        !(at[sp[i0].reg as int] is Spilled),
        frame2.len() == frame.len() + 1,
        frame2.subrange(0, frame.len() as int) == frame,
        spill_slot(frame2[frame.len() as int], sp[i0], word),
        frame.len() <= usize::MAX,
    ensures
        spilled_part(
            sp,
            k2,
            at.update(sp[i0].reg as int, Where::Spilled(frame.len() as usize)),
            frame2,
            f0,
            owners.push(i0),
            word,
        ),
{
    reveal(spilled_part);
    let at2 = at.update(sp[i0].reg as int, Where::Spilled(frame.len() as usize));
    let o2 = owners.push(i0);
    assert forall|j: int| 0 <= j < frame.len() implies frame2[j] == frame[j] by {
        assert(frame2.subrange(0, frame.len() as int)[j] == frame2[j]);
    }
    assert(frame2.subrange(0, f0.len() as int) =~= f0) by {
        assert forall|j: int| 0 <= j < f0.len() implies frame2.subrange(0, f0.len() as int)[j] == f0[j] by {
            assert(frame.subrange(0, f0.len() as int)[j] == frame[j]);
        }
    }
    assert forall|s: int| 0 <= s < o2.len() implies 0 <= #[trigger] o2[s] < k2 && at2[sp[o2[s]].reg as int]
        == Where::Spilled((f0.len() + s) as usize) && spill_slot(frame2[f0.len() + s], sp[o2[s]], word) by {
        if s < owners.len() {
            assert(o2[s] == owners[s]);
            assert(0 <= owners[s] < k);
            if owners[s] == i0 {
                assert(at[sp[i0].reg as int] is Spilled);
            }
            if owners[s] != i0 {
                if owners[s] < i0 {
                    assert(sp[owners[s]].reg != sp[i0].reg);
                } else {
                    assert(sp[i0].reg != sp[owners[s]].reg);
                }
            }
            assert(frame2[f0.len() + s] == frame[f0.len() + s]);
        } else {
            assert(o2[s] == i0);
        }
    }
    assert forall|i: int| 0 <= i < k2 && #[trigger] at2[sp[i].reg as int] is Spilled implies ({
        let slot = at2[sp[i].reg as int]->Spilled_0;
        f0.len() <= slot < frame2.len() && o2[slot - f0.len()] == i
    }) by {
        if i != i0 {
            if i < i0 {
                assert(sp[i].reg != sp[i0].reg);
            } else {
                assert(sp[i0].reg != sp[i].reg);
            }
            assert(i < k);
            let slot = at[sp[i].reg as int]->Spilled_0;
            assert(o2[slot - f0.len()] == owners[slot - f0.len()]);
        } else {
            assert(o2[owners.len() as int] == i0);
        }
    }
}

/// The spans holding a register, as far as the scan needs them whatever the
/// machine: taken already, each holding one, no register twice.
#[verifier::opaque]
pub open spec fn held_part(sp: Seq<Span>, k: int, at: Seq<Where>, active: Seq<Span>) -> bool {
    &&& forall|a: int| 0 <= a < active.len() ==> #[trigger] from_taken(sp, k, active[a])
    &&& forall|a: int| 0 <= a < active.len() ==> at[(#[trigger] active[a]).reg as int] is In
    &&& forall|a: int, b: int| 0 <= a < b < active.len() ==> (#[trigger] active[a]).reg != (#[trigger] active[b]).reg
}

/// What `held_part` gives: each span holding a register is the body's, and
/// is one taken already.
proof fn held_facts(sp: Seq<Span>, k: int, at: Seq<Where>, active: Seq<Span>)
    requires
        ordered_spans(sp, at.len()),
        0 <= k <= sp.len(),
        held_part(sp, k, at, active),
    ensures
        forall|a: int| 0 <= a < active.len() ==> (#[trigger] active[a]).reg < at.len(),
        forall|a: int| 0 <= a < active.len() ==> #[trigger] from_taken(sp, k, active[a]),
        forall|a: int| 0 <= a < active.len() ==> at[(#[trigger] active[a]).reg as int] is In,
{
    reveal(held_part);
    assert forall|a: int| 0 <= a < active.len() implies (#[trigger] active[a]).reg < at.len() by {
        assert(from_taken(sp, k, active[a]));
        let i = choose|i: int| 0 <= i < k && sp[i] == active[a];
    }
}

proof fn held_starts(sp: Seq<Span>, at: Seq<Where>)
    ensures
        held_part(sp, 0, at, Seq::empty()),
{
    reveal(held_part);
}

/// Removing one span from those holding a register, and changing where its
/// register is, keeps the rest.
proof fn held_removes(sp: Seq<Span>, k: int, at: Seq<Where>, active: Seq<Span>, x: int, w: Where, changes: bool)
    requires
        ordered_spans(sp, at.len()),
        0 <= k <= sp.len(),
        held_part(sp, k, at, active),
        0 <= x < active.len(),
    ensures
        held_part(sp, k, if changes { at.update(active[x].reg as int, w) } else { at }, active.remove(x)),
        forall|a: int| 0 <= a < active.remove(x).len() ==> (#[trigger] active.remove(x)[a]).reg != active[x].reg,
{
    held_facts(sp, k, at, active);
    reveal(held_part);
    let act = active.remove(x);
    let at2 = if changes { at.update(active[x].reg as int, w) } else { at };
    assert forall|a: int| 0 <= a < act.len() implies (#[trigger] act[a]) == active[if a < x { a } else { a + 1 }] by {}
    assert forall|a: int| 0 <= a < act.len() implies (#[trigger] act[a]).reg != active[x].reg by {
        let b = if a < x { a } else { a + 1 };
        assert(act[a] == active[b]);
    }
    assert forall|a: int| 0 <= a < act.len() implies #[trigger] from_taken(sp, k, act[a]) by {
        let b = if a < x { a } else { a + 1 };
        assert(act[a] == active[b]);
        assert(from_taken(sp, k, active[b]));
        let i = choose|i: int| 0 <= i < k && sp[i] == active[b];
    }
    assert forall|a: int| 0 <= a < act.len() implies at2[(#[trigger] act[a]).reg as int] is In by {
        let b = if a < x { a } else { a + 1 };
        assert(act[a] == active[b]);
        assert(at[active[b].reg as int] is In);
        assert(at2[act[a].reg as int] == at[act[a].reg as int]);
    }
    assert forall|a: int, b: int| 0 <= a < b < act.len() implies (#[trigger] act[a]).reg != (#[trigger] act[b]).reg by {
        let a0 = if a < x { a } else { a + 1 };
        let b0 = if b < x { b } else { b + 1 };
        assert(act[a] == active[a0] && act[b] == active[b0]);
    }
}

/// Taking the next span, with a register or without, keeps the spans holding
/// one; with one, it joins them.
proof fn held_next(sp: Seq<Span>, k: int, at: Seq<Where>, active: Seq<Span>, w: Where, p: int)
    requires
        ordered_spans(sp, at.len()),
        0 <= k < sp.len(),
        held_part(sp, k, at, active),
        w is In ==> 0 <= p <= active.len(),
    ensures
        held_part(sp, k + 1, at.update(sp[k].reg as int, w), if w is In { active.insert(p, sp[k]) } else { active }),
{
    reveal(held_part);
    let at2 = at.update(sp[k].reg as int, w);
    let act = if w is In { active.insert(p, sp[k]) } else { active };
    assert forall|a: int| 0 <= a < active.len() implies (#[trigger] active[a]).reg != sp[k].reg && from_taken(sp, k + 1, active[a]) by {
        assert(from_taken(sp, k, active[a]));
        let i = choose|i: int| 0 <= i < k && sp[i] == active[a];
        assert(sp[i].reg != sp[k].reg);
    }
    if w is In {
        assert forall|a: int| 0 <= a < act.len() implies #[trigger] from_taken(sp, k + 1, act[a]) by {
            if a == p {
                assert(act[a] == sp[k]);
            } else {
                let a0 = if a < p { a } else { a - 1 };
                assert(act[a] == active[a0]);
            }
        }
        assert forall|a: int| 0 <= a < act.len() implies at2[(#[trigger] act[a]).reg as int] is In by {
            if a != p {
                let a0 = if a < p { a } else { a - 1 };
                assert(act[a] == active[a0]);
            }
        }
        assert forall|a: int, b: int| 0 <= a < b < act.len() implies (#[trigger] act[a]).reg != (#[trigger] act[b]).reg by {
            let a0 = if a < p { a } else { a - 1 };
            let b0 = if b < p { b } else { b - 1 };
            if a == p {
                assert(act[b] == active[b0]);
            } else if b == p {
                assert(act[a] == active[a0]);
            } else {
                assert(act[a] == active[a0] && act[b] == active[b0]);
            }
        }
    } else {
        assert forall|a: int| 0 <= a < act.len() implies #[trigger] from_taken(sp, k + 1, act[a]) by {}
        assert forall|a: int| 0 <= a < act.len() implies at2[(#[trigger] act[a]).reg as int] is In by {}
    }
}

/// Changing where a register that was given somewhere goes, to somewhere,
/// keeps what has been given and what has not.
proof fn taken_keeps(sp: Seq<Span>, k: int, at: Seq<Where>, q: int, w: Where)
    requires
        forall|i: int| 0 <= i < sp.len() ==> (#[trigger] sp[i]).reg < at.len(),
        0 <= k <= sp.len(),
        taken_part(sp, k, at),
        0 <= q < at.len(),
        !(at[q] is Nowhere),
        !(w is Nowhere),
    ensures
        taken_part(sp, k, at.update(q, w)),
{
    reveal(taken_part);
    let at2 = at.update(q, w);
    assert forall|i: int| k <= i < sp.len() implies at2[(#[trigger] sp[i]).reg as int] is Nowhere by {
        assert(at[sp[i].reg as int] is Nowhere);
        assert(sp[i].reg != q);
    }
    assert forall|r: int| 0 <= r < at2.len() && !(at2[r] is Nowhere) implies #[trigger] claimed(sp, k, r) by {
        assert(!(at[r] is Nowhere));
    }
}

/// The span holding a register that ends furthest away gives it to the span
/// being taken, and goes to the frame.
proof fn scan_swaps(
    sp: Seq<Span>,
    k: int,
    at: Seq<Where>,
    active: Seq<Span>,
    ints: Seq<Reg>,
    floats: Seq<Reg>,
    m: Machine,
    x: int,
    slot: MIRFrameId,
    p: int,
)
    requires
        ordered_spans(sp, at.len()),
        0 <= k < sp.len(),
        scanning(sp, k, at, active, ints, floats, m),
        0 <= x < active.len(),
        yields(active, at, m.saved@, sp[k], x),
        0 <= p <= active.len() - 1,
        forall|a: int, b: int|
            0 <= a < b < active.remove(x).insert(p, sp[k]).len() ==> (#[trigger] active.remove(x).insert(p, sp[k])[a]).to
                <= (#[trigger] active.remove(x).insert(p, sp[k])[b]).to,
    ensures
        scanning(
            sp,
            k + 1,
            at.update(active[x].reg as int, Where::Spilled(slot)).update(sp[k].reg as int, Where::In(reg_of(at[active[x].reg as int]))),
            active.remove(x).insert(p, sp[k]),
            ints,
            floats,
            m,
        ),
{
    let worst = active[x];
    let r = reg_of(at[worst.reg as int]);
    let at1 = at.update(worst.reg as int, Where::Spilled(slot));
    let act = active.remove(x);
    scan_drops(sp, k, at, active, ints, floats, m, x, slot);
    active_regs(sp, k, at, active);
    assert forall|a: int| 0 <= a < act.len() implies reg_of(at1[(#[trigger] act[a]).reg as int])@ != r@ by {
        assert(act[a].reg != worst.reg);
    }
    assert(from_taken(sp, k, worst));
    let i0 = choose|i: int| 0 <= i < k && sp[i] == worst;
    assert(r.class == sp[k].class && holds(if r.class == Class::Int { m.ints@ } else { m.floats@ }, r)) by {
        reveal(class_part);
        assert(at[sp[i0].reg as int] is In);
    }
    scan_gives(sp, k, at1, act, ints, floats, m, r, p);
}

/// What the machine has to be for what the scan hands out to hold up: each
/// file of its own class, and no register named twice in one.
pub open spec fn sound_files(m: Machine) -> bool {
    &&& crate::machine::all_of(m.ints@, Class::Int)
    &&& crate::machine::all_of(m.floats@, Class::Float)
    &&& crate::machine::distinct(m.ints@)
    &&& crate::machine::distinct(m.floats@)
}

/// A consistent machine that names no allocatable register twice has sound
/// files, so what `allocate` hands out on it keeps to every clause of
/// `allocated`: each of the three machines is such a machine.
pub proof fn consistent_files_are_sound(m: Machine)
    requires
        m.consistent(),
        crate::machine::distinct(m.allocatable()),
    ensures
        sound_files(m),
{
    let al = m.allocatable();
    assert forall|x: int, y: int| 0 <= x < y < m.ints@.len() implies (#[trigger] m.ints@[x])@ != (#[trigger] m.ints@[y])@ by {
        assert(al[x] == m.ints@[x] && al[y] == m.ints@[y]);
    }
    assert forall|x: int, y: int| 0 <= x < y < m.floats@.len() implies (#[trigger] m.floats@[x])@ != (#[trigger] m.floats@[y])@ by {
        let n = m.ints@.len() as int;
        assert(al[n + x] == m.floats@[x] && al[n + y] == m.floats@[y]);
    }
}

/// Whether slot `x` is where one of the spans went.
pub open spec fn slot_owned(sp: Seq<Span>, at: Seq<Where>, x: int) -> bool {
    exists|i: int| 0 <= i < sp.len() && at[sp[i].reg as int] == Where::Spilled(x as usize)
}

/// The scan where the span being taken gets a free register.
proof fn step_takes(st: Scan, s: Span, saved: Seq<Reg>, base: nat, active: Seq<Span>, ints: Seq<Reg>, floats: Seq<Reg>, w: int)
    requires
        (active, ints, floats) == expire(st.at, st.active, st.ints, st.floats, s.from),
        first_wanted(list_of(ints, floats, s.class), saved, s.across) == Some(w),
    ensures
        step(st, s, saved, base) == (Scan {
            at: st.at.update(s.reg as int, Where::In(list_of(ints, floats, s.class)[w])),
            active: active.insert(keep_at(active, s, 0), s),
            ints: if s.class == Class::Int { ints.remove(w) } else { ints },
            floats: if s.class == Class::Float { floats.remove(w) } else { floats },
            spilled: st.spilled,
            most: if active.len() + 1 > st.most { (active.len() + 1) as nat } else { st.most },
        }),
{
    reveal(step);
}

/// The scan where the span at `x` among those holding a register gives its
/// register to the span being taken and goes to the frame.
proof fn step_swaps(st: Scan, s: Span, saved: Seq<Reg>, base: nat, active: Seq<Span>, ints: Seq<Reg>, floats: Seq<Reg>, x: int)
    requires
        (active, ints, floats) == expire(st.at, st.active, st.ints, st.floats, s.from),
        first_wanted(list_of(ints, floats, s.class), saved, s.across) is None,
        furthest_from(active, st.at, saved, s, 0, None) == Some(x),
        active[x].to > s.to,
    ensures
        step(st, s, saved, base) == (Scan {
            at: st.at.update(active[x].reg as int, Where::Spilled((base + st.spilled.len()) as usize)).update(
                s.reg as int,
                Where::In(reg_of(st.at[active[x].reg as int])),
            ),
            active: active.remove(x).insert(keep_at(active.remove(x), s, 0), s),
            ints,
            floats,
            spilled: st.spilled.push(active[x]),
            most: if active.len() + 1 > st.most { (active.len() + 1) as nat } else { st.most },
        }),
{
    reveal(step);
}

/// The scan where the span being taken goes to the frame itself.
proof fn step_spills(st: Scan, s: Span, saved: Seq<Reg>, base: nat, active: Seq<Span>, ints: Seq<Reg>, floats: Seq<Reg>)
    requires
        (active, ints, floats) == expire(st.at, st.active, st.ints, st.floats, s.from),
        first_wanted(list_of(ints, floats, s.class), saved, s.across) is None,
        match furthest_from(active, st.at, saved, s, 0, None) {
            Some(x) => active[x].to <= s.to,
            None => true,
        },
    ensures
        step(st, s, saved, base) == (Scan {
            at: st.at.update(s.reg as int, Where::Spilled((base + st.spilled.len()) as usize)),
            active,
            ints,
            floats,
            spilled: st.spilled.push(s),
            most: if active.len() + 1 > st.most { (active.len() + 1) as nat } else { st.most },
        }),
{
    reveal(step);
}

/// Hands out registers to spans taken in the order they begin, appending a
/// slot to `frame` for each one that goes there instead.
#[verifier::spinoff_prover]
#[verifier::rlimit(60)]
fn scan(sp: &Vec<Span>, nregs: usize, m: &Machine, frame: &mut Vec<MIRSlot>) -> (r: Allocation)
    requires
        ordered_spans(sp@, nregs as nat),
        old(frame)@.len() + sp@.len() <= usize::MAX,
    ensures
        r.at@.len() == nregs,
        r.most <= sp@.len(),
        r.spills == final(frame)@.len() - old(frame)@.len(),
        final(frame)@.subrange(0, old(frame)@.len() as int) == old(frame)@,
        taken_part(sp@, sp@.len() as int, r.at@),
        sound_files(*m) ==> class_part(sp@, sp@.len() as int, r.at@, *m),
        sound_files(*m) ==> apart_part(sp@, sp@.len() as int, r.at@),
        forall|i: int|
            0 <= i < sp@.len() && (#[trigger] r.at@[sp@[i].reg as int]) is Spilled ==> ({
                let slot = r.at@[sp@[i].reg as int]->Spilled_0;
                &&& old(frame)@.len() <= slot < final(frame)@.len()
                &&& spill_slot(final(frame)@[slot as int], sp@[i], m.word)
            }),
        forall|x: int| old(frame)@.len() <= x < final(frame)@.len() ==> #[trigger] slot_owned(sp@, r.at@, x),
        forall|i: int, j: int|
            0 <= i < sp@.len() && 0 <= j < sp@.len() && (#[trigger] r.at@[sp@[i].reg as int]) is Spilled
                && r.at@[sp@[i].reg as int] == (#[trigger] r.at@[sp@[j].reg as int]) ==> i == j,
        r.at@ == run(sp@, sp@.len(), nregs as nat, *m, old(frame)@.len()).at,
        r.most == run(sp@, sp@.len(), nregs as nat, *m, old(frame)@.len()).most,
        r.spills == run(sp@, sp@.len(), nregs as nat, *m, old(frame)@.len()).spilled.len(),
        forall|x: int|
            0 <= x < run(sp@, sp@.len(), nregs as nat, *m, old(frame)@.len()).spilled.len() ==> spill_slot(
                final(frame)@[old(frame)@.len() + x],
                #[trigger] run(sp@, sp@.len(), nregs as nat, *m, old(frame)@.len()).spilled[x],
                m.word,
            ),
{
    let n = sp.len();
    let ghost f0 = frame@;
    let ghost wf = sound_files(*m);
    let mut at: Vec<Where> = Vec::new();
    while at.len() < nregs
        invariant
            at@.len() <= nregs,
            forall|q: int| 0 <= q < at@.len() ==> #[trigger] at@[q] is Nowhere,
        decreases nregs - at@.len(),
    {
        at.push(Where::Nowhere);
    }
    let mut ints: Vec<Reg> = m.ints.clone();
    let mut floats: Vec<Reg> = m.floats.clone();
    let mut active: Vec<Span> = Vec::new();
    let mut spills: usize = 0;
    let mut most: usize = 0;
    let ghost mut owners: Seq<int> = Seq::empty();
    let ghost mut spilled: Seq<Span> = Seq::empty();
    proof {
        assert(ints@ == m.ints@);
        assert(floats@ == m.floats@);
        assert(at@ =~= Seq::new(nregs as nat, |q: int| Where::Nowhere));
        held_starts(sp@, at@);
        spilled_starts(sp@, at@, f0, m.word);
        reveal(taken_part);
        if wf {
            scan_starts(sp@, at@, *m);
        }
    }
    let mut k: usize = 0;
    while k < n
        invariant
            n == sp@.len(),
            at@.len() == nregs,
            ordered_spans(sp@, nregs as nat),
            k <= n,
            f0.len() + n <= usize::MAX,
            wf == sound_files(*m),
            taken_part(sp@, k as int, at@),
            held_part(sp@, k as int, at@, active@),
            active@.len() <= k,
            forall|a: int, b: int| 0 <= a < b < active@.len() ==> (#[trigger] active@[a]).to <= (#[trigger] active@[b]).to,
            spilled_part(sp@, k as int, at@, frame@, f0, owners, m.word),
            spills == owners.len(),
            owners.len() <= k,
            most <= k,
            wf ==> scanning(sp@, k as int, at@, active@, ints@, floats@, *m),
            run(sp@, k as nat, nregs as nat, *m, f0.len()) == (Scan {
                at: at@,
                active: active@,
                ints: ints@,
                floats: floats@,
                spilled,
                most: most as nat,
            }),
            spilled.len() == owners.len(),
            forall|x: int| 0 <= x < owners.len() ==> #[trigger] spilled[x] == sp@[owners[x]],
        decreases n - k,
    {
        let s = sp[k];
        let ghost st = Scan { at: at@, active: active@, ints: ints@, floats: floats@, spilled, most: most as nat };
        proof {
            held_facts(sp@, k as int, at@, active@);
        }
        // Everything that has ended gives its register back.
        while active.len() > 0 && active[0].to < s.from
            invariant
                n == sp@.len(),
                at@.len() == nregs,
                ordered_spans(sp@, nregs as nat),
                k < n,
                s == sp@[k as int],
                wf == sound_files(*m),
                held_part(sp@, k as int, at@, active@),
                active@.len() <= k,
                forall|a: int, b: int| 0 <= a < b < active@.len() ==> (#[trigger] active@[a]).to <= (#[trigger] active@[b]).to,
                wf ==> scanning(sp@, k as int, at@, active@, ints@, floats@, *m),
                at@ == st.at,
                expire(at@, active@, ints@, floats@, s.from) == expire(st.at, st.active, st.ints, st.floats, s.from),
            decreases active@.len(),
        {
            let ghost before = (active@, ints@, floats@);
            proof {
                held_facts(sp@, k as int, at@, active@);
                if wf {
                    scan_expires(sp@, k as int, at@, active@, ints@, floats@, *m);
                }
                held_removes(sp@, k as int, at@, active@, 0, Where::Nowhere, false);
            }
            let first = active.remove(0);
            match at[first.reg] {
                Where::In(r) => match r.class {
                    Class::Int => ints.push(r),
                    Class::Float => floats.push(r),
                },
                _ => {},
            }
            proof {
                assert(expire(at@, before.0, before.1, before.2, s.from) == expire(at@, active@, ints@, floats@, s.from));
            }
        }
        proof {
            held_facts(sp@, k as int, at@, active@);
            assert(expire(at@, active@, ints@, floats@, s.from) == (active@, ints@, floats@));
        }
        if active.len() + 1 > most {
            most = active.len() + 1;
        }
        let ghost at0 = at@;
        let ghost active0 = active@;
        let ghost ints0 = ints@;
        let ghost floats0 = floats@;
        let ghost frame0 = frame@;
        proof {
            assert(frame0.len() == f0.len() + owners.len()) by {
                reveal(spilled_part);
            }
            assert(run(sp@, (k + 1) as nat, nregs as nat, *m, f0.len()) == step(st, s, m.saved@, f0.len()));
        }
        // A value alive across a call has to be somewhere a call keeps.
        let want = match s.class {
            Class::Int => wanted(&ints, m, s.across),
            Class::Float => wanted(&floats, m, s.across),
        };
        match want {
            Some(w) => {
                let r = match s.class {
                    Class::Int => ints.remove(w),
                    Class::Float => floats.remove(w),
                };
                at.set(s.reg, Where::In(r));
                let p = keep(&mut active, s);
                proof {
                    assert(r == list_of(ints0, floats0, s.class)[w as int]);
                    if wf {
                        scan_takes(sp@, k as int, at0, active0, ints0, floats0, *m, w as int, p as int);
                    }
                    held_next(sp@, k as int, at0, active0, Where::In(r), p as int);
                    next_taken(sp@, k as int, at0, Where::In(r));
                    spilled_gives(sp@, k as int, at0, frame0, f0, owners, m.word, r);
                    step_takes(st, s, m.saved@, f0.len(), active0, ints0, floats0, w as int);
                }
            },
            None => {
                // Nothing to be had: the one that ends furthest away gives its
                // register up, unless it ends sooner than this one does.
                let far = furthest(&active, &at, &s, m);
                let taking = match far {
                    Some((x, r)) => if active[x].to > s.to { Some((x, r)) } else { None },
                    None => None,
                };
                match taking {
                    Some((x, r)) => {
                        proof {
                            assert(from_taken(sp@, k as int, active0[x as int]));
                        }
                        let ghost i0 = choose|i: int| 0 <= i < k && sp@[i] == active0[x as int];
                        proof {
                            held_removes(sp@, k as int, at0, active0, x as int, Where::Nowhere, false);
                        }
                        let worst = active.remove(x);
                        let slot = spill(worst, frame, m.word);
                        at.set(worst.reg, Where::Spilled(slot));
                        spills = spills + 1;
                        let ghost at1 = at@;
                        let ghost frame1 = frame@;
                        let ghost act1 = active@;
                        at.set(s.reg, Where::In(r));
                        let p = keep(&mut active, s);
                        proof {
                            if wf {
                                scan_swaps(sp@, k as int, at0, active0, ints0, floats0, *m, x as int, slot, p as int);
                            }
                            held_removes(sp@, k as int, at0, active0, x as int, Where::Spilled(slot), true);
                            held_facts(sp@, k as int, at1, act1);
                            held_next(sp@, k as int, at1, act1, Where::In(r), p as int);
                            taken_keeps(sp@, k as int, at0, worst.reg as int, Where::Spilled(slot));
                            next_taken(sp@, k as int, at1, Where::In(r));
                            spilled_adds(sp@, k as int, k as int, at0, frame0, frame1, f0, owners, m.word, i0);
                            owners = owners.push(i0);
                            spilled_gives(sp@, k as int, at1, frame1, f0, owners, m.word, r);
                            step_swaps(st, s, m.saved@, f0.len(), active0, ints0, floats0, x as int);
                            spilled = spilled.push(worst);
                            assert(spilled[spilled.len() - 1] == sp@[owners[owners.len() - 1]]);
                        }
                    },
                    None => {
                        let slot = spill(s, frame, m.word);
                        at.set(s.reg, Where::Spilled(slot));
                        spills = spills + 1;
                        proof {
                            if wf {
                                scan_spills(sp@, k as int, at0, active0, ints0, floats0, *m, slot);
                            }
                            held_next(sp@, k as int, at0, active0, Where::Spilled(slot), 0);
                            next_taken(sp@, k as int, at0, Where::Spilled(slot));
                            reveal(taken_part);
                            assert(at0[sp@[k as int].reg as int] is Nowhere);
                            spilled_adds(sp@, k as int, k + 1, at0, frame0, frame@, f0, owners, m.word, k as int);
                            owners = owners.push(k as int);
                            step_spills(st, s, m.saved@, f0.len(), active0, ints0, floats0);
                            spilled = spilled.push(s);
                            assert(spilled[spilled.len() - 1] == sp@[owners[owners.len() - 1]]);
                        }
                    },
                }
            },
        }
        k = k + 1;
    }
    proof {
        reveal(spilled_part);
        assert forall|x: int| f0.len() <= x < frame@.len() implies #[trigger] slot_owned(sp@, at@, x) by {
            let o = owners[x - f0.len()];
            assert(at@[sp@[o].reg as int] == Where::Spilled((f0.len() + (x - f0.len())) as usize));
        }
        assert forall|x: int| 0 <= x < spilled.len() implies spill_slot(frame@[f0.len() + x], #[trigger] spilled[x], m.word) by {
            assert(spilled[x] == sp@[owners[x]]);
        }
    }
    Allocation { at, spills, most }
}

/// Whether `g` is a register the span `s` may have: of its class, out of the
/// file for that class, and one a call keeps where a call stands inside.
pub open spec fn fits(s: Span, g: Reg, m: Machine) -> bool {
    &&& g.class == s.class
    &&& holds(if g.class == Class::Int { m.ints@ } else { m.floats@ }, g)
    &&& (s.across ==> holds(m.saved@, g))
}

/// Whether slot `x` is where some register went.
pub open spec fn slot_taken(at: Seq<Where>, x: int) -> bool {
    exists|q: int| 0 <= q < at.len() && at[q] == Where::Spilled(x as usize)
}

/// A register has one span.
pub proof fn span_unique(held: Linear, s: Span, t: Span)
    requires
        span_of(held, s),
        span_of(held, t),
        s.reg == t.reg,
    ensures
        s == t,
{
    assert(closed(held, t.from as int, t.to as int));
    assert(closed(held, s.from as int, s.to as int));
}

/// Where the span of a register stands among the spans in the order they
/// begin.
proof fn found(held: Linear, all: Seq<Span>, sp: Seq<Span>, s: Span) -> (j: int)
    requires
        span_of(held, s),
        forall|i: int| 0 <= i < all.len() ==> span_of(held, #[trigger] all[i]),
        forall|reg: int|
            0 <= reg < held.regs@.len() ==> (#[trigger] named(held, reg as MIRRegId) <==> exists|i: int|
                0 <= i < all.len() && (#[trigger] all[i]).reg == reg),
        forall|i: int| 0 <= i < all.len() ==> sp.contains(#[trigger] all[i]),
    ensures
        0 <= j < sp.len(),
        sp[j] == s,
{
    let q = s.reg as int;
    assert(named(held, q as MIRRegId));
    let i = choose|i: int| 0 <= i < all.len() && (#[trigger] all[i]).reg == s.reg;
    span_unique(held, all[i], s);
    assert(sp.contains(all[i]));
    choose|j: int| 0 <= j < sp.len() && sp[j] == all[i]
}

/// Registers strictly rising from nought reach at least their place.
proof fn rising(all: Seq<Span>, i: int)
    requires
        forall|a: int, b: int| 0 <= a < b < all.len() ==> (#[trigger] all[a]).reg < (#[trigger] all[b]).reg,
        0 <= i < all.len(),
    ensures
        all[i].reg >= i,
    decreases i,
{
    if i > 0 {
        rising(all, i - 1);
    }
}

/// The spans in the order they begin are what the scan takes.
proof fn ordered(held: Linear, all: Seq<Span>, sp: Seq<Span>)
    requires
        forall|i: int| 0 <= i < all.len() ==> span_of(held, #[trigger] all[i]),
        forall|i: int, j: int| 0 <= i < j < all.len() ==> (#[trigger] all[i]).reg < (#[trigger] all[j]).reg,
        sp.len() == all.len(),
        forall|i: int, j: int| 0 <= i < j < sp.len() ==> sooner(#[trigger] sp[i], #[trigger] sp[j]),
        forall|i: int| 0 <= i < sp.len() ==> all.contains(#[trigger] sp[i]),
    ensures
        ordered_spans(sp, held.regs@.len()),
        sp.len() <= held.regs@.len(),
{
    assert forall|i: int| 0 <= i < sp.len() implies span_of(held, #[trigger] sp[i]) by {
        assert(all.contains(sp[i]));
    }
    assert forall|i: int, j: int| 0 <= i < j < sp.len() implies (#[trigger] sp[i]).reg != (#[trigger] sp[j]).reg by {
        if sp[i].reg == sp[j].reg {
            span_unique(held, sp[i], sp[j]);
            assert(sooner(sp[i], sp[j]));
        }
    }
    if all.len() > 0 {
        rising(all, all.len() - 1);
        assert(span_of(held, all[all.len() - 1]));
    }
}

/// What an allocation of `before` is, with `after` the body it leaves: the
/// body as it was but for slots appended to its frame, one answer per
/// register, nowhere for a register no line names, and a slot of its own for
/// each one spilled, as wide as it and aligned to itself up to a word. Where
/// the machine's files are each of their own class and name no register
/// twice, every register handed out is of the value's class and out of its
/// file, one a call keeps where a call stands inside its span, and no two
/// registers alive at once are handed the same one.
pub open spec fn allocated(before: Linear, after: Linear, r: Allocation, m: Machine) -> bool {
    &&& after.symbol@ == before.symbol@
    &&& after.regs@ == before.regs@
    &&& after.params@ == before.params@
    &&& after.lines@ == before.lines@
    &&& after.frame@.subrange(0, before.frame@.len() as int) == before.frame@
    &&& r.spills == after.frame@.len() - before.frame@.len()
    &&& r.at@.len() == before.regs@.len()
    &&& r.most <= before.regs@.len()
    &&& forall|q: int| 0 <= q < r.at@.len() ==> (#[trigger] r.at@[q] is Nowhere <==> !named(before, q as MIRRegId))
    &&& sound_files(m) ==> forall|s: Span|
        #![trigger span_of(before, s)]
        span_of(before, s) && r.at@[s.reg as int] is In ==> fits(s, reg_of(r.at@[s.reg as int]), m)
    &&& sound_files(m) ==> forall|s: Span, t: Span|
        #![trigger span_of(before, s), span_of(before, t)]
        span_of(before, s) && span_of(before, t) && s.reg != t.reg && r.at@[s.reg as int] is In
        && r.at@[t.reg as int] is In && reg_of(r.at@[s.reg as int])@ == reg_of(r.at@[t.reg as int])@ ==> s.to < t.from
        || t.to < s.from
    &&& forall|s: Span|
        #![trigger span_of(before, s)]
        span_of(before, s) && r.at@[s.reg as int] is Spilled ==> ({
        let slot = r.at@[s.reg as int]->Spilled_0;
        &&& before.frame@.len() <= slot < after.frame@.len()
        &&& spill_slot(after.frame@[slot as int], s, m.word)
        })
    &&& forall|x: int| before.frame@.len() <= x < after.frame@.len() ==> #[trigger] slot_taken(r.at@, x)
    &&& forall|q1: int, q2: int|
        0 <= q1 < r.at@.len() && 0 <= q2 < r.at@.len() && (#[trigger] r.at@[q1]) is Spilled && r.at@[q1] == (#[trigger] r.at@[q2])
        ==> q1 == q2
}

/// Hands out a register, or a slot appended to the frame, to every register
/// the written-out body names: linear scan, spans taken in the order they
/// begin, the one that ends furthest away giving its register up where none
/// is free. What each register gets, how many were wanted at once at the
/// worst point and which spans went to the frame, in what order, are those
/// of `scan_of`; what comes of it is `allocated`.
pub fn allocate(held: &mut Linear, m: &Machine) -> (r: Allocation)
    requires
        old(held).frame@.len() + old(held).regs@.len() <= usize::MAX,
    ensures
        allocated(*old(held), *final(held), r, *m),
        r.at@ == scan_of(*old(held), *m).at,
        r.most == scan_of(*old(held), *m).most,
        r.spills == scan_of(*old(held), *m).spilled.len(),
        forall|x: int|
            0 <= x < scan_of(*old(held), *m).spilled.len() ==> spill_slot(
                final(held).frame@[old(held).frame@.len() + x],
                #[trigger] scan_of(*old(held), *m).spilled[x],
                m.word,
            ),
{
    let ghost h = *held;
    let calls = calls_at(held);
    let all = spans(held, &calls);
    let sp = by_start(&all);
    proof {
        ordered(h, all@, sp@);
    }
    let r = scan(&sp, held.regs.len(), m, &mut held.frame);
    proof {
        let n = sp@.len() as int;
        reveal(taken_part);
        assert forall|i: int| 0 <= i < n implies span_of(h, #[trigger] sp@[i]) by {
            assert(all@.contains(sp@[i]));
        }
        assert forall|s: Span| #![trigger sp@.contains(s)] #![trigger span_of(h, s)] sp@.contains(s) <==> span_of(h, s) by {
            if sp@.contains(s) {
                let i = choose|i: int| 0 <= i < n && sp@[i] == s;
                assert(span_of(h, sp@[i]));
            }
            if span_of(h, s) {
                let j = found(h, all@, sp@, s);
                assert(sp@[j] == s);
            }
        }
        assert(begins(h, sp@));
        assert(begins(h, in_order(h)));
        begins_unique(h, in_order(h), sp@);
        assert forall|q: int| 0 <= q < r.at@.len() implies (#[trigger] r.at@[q] is Nowhere <==> !named(h, q as MIRRegId)) by {
            if named(h, q as MIRRegId) {
                let i = choose|i: int| 0 <= i < all@.len() && (#[trigger] all@[i]).reg == q;
                assert(sp@.contains(all@[i]));
                let j = choose|j: int| 0 <= j < sp@.len() && sp@[j] == all@[i];
                assert(!(r.at@[sp@[j].reg as int] is Nowhere));
            }
            if !(r.at@[q] is Nowhere) {
                assert(claimed(sp@, n, q));
                let j = choose|j: int| 0 <= j < n && sp@[j].reg == q;
                assert(span_of(h, sp@[j]));
                assert(named(h, sp@[j].reg));
            }
        }
        if sound_files(*m) {
            reveal(class_part);
            reveal(apart_part);
            assert forall|s: Span| #![trigger span_of(h, s)] span_of(h, s) && r.at@[s.reg as int] is In implies fits(
                s,
                reg_of(r.at@[s.reg as int]),
                *m,
            ) by {
                let j = found(h, all@, sp@, s);
                assert(r.at@[sp@[j].reg as int] is In);
            }
            assert forall|s: Span, t: Span|
                #![trigger span_of(h, s), span_of(h, t)]
                span_of(h, s) && span_of(h, t) && s.reg != t.reg && r.at@[s.reg as int] is In && r.at@[t.reg as int] is In
                    && reg_of(r.at@[s.reg as int])@ == reg_of(r.at@[t.reg as int])@ implies s.to < t.from || t.to < s.from by {
                let i = found(h, all@, sp@, s);
                let j = found(h, all@, sp@, t);
                assert(r.at@[sp@[i].reg as int] is In);
                assert(r.at@[sp@[j].reg as int] is In);
            }
        }
        assert forall|s: Span| #![trigger span_of(h, s)] span_of(h, s) && r.at@[s.reg as int] is Spilled implies ({
            let slot = r.at@[s.reg as int]->Spilled_0;
            &&& h.frame@.len() <= slot < held.frame@.len()
            &&& spill_slot(held.frame@[slot as int], s, m.word)
        }) by {
            let j = found(h, all@, sp@, s);
            assert(r.at@[sp@[j].reg as int] is Spilled);
        }
        assert forall|x: int| h.frame@.len() <= x < held.frame@.len() implies #[trigger] slot_taken(r.at@, x) by {
            assert(slot_owned(sp@, r.at@, x));
            let i = choose|i: int| 0 <= i < n && r.at@[sp@[i].reg as int] == Where::Spilled(x as usize);
            assert(sp@[i].reg < r.at@.len());
        }
        assert forall|q1: int, q2: int|
            0 <= q1 < r.at@.len() && 0 <= q2 < r.at@.len() && (#[trigger] r.at@[q1]) is Spilled && r.at@[q1] == (#[trigger] r.at@[q2])
                implies q1 == q2 by {
            assert(claimed(sp@, n, q1));
            assert(claimed(sp@, n, q2));
            let i = choose|i: int| 0 <= i < n && sp@[i].reg == q1;
            let j = choose|j: int| 0 <= j < n && sp@[j].reg == q2;
            assert(r.at@[sp@[i].reg as int] is Spilled && r.at@[sp@[i].reg as int] == r.at@[sp@[j].reg as int]);
        }
    }
    r
}

} // verus!
