//! The second shape: the graph written out as one run of instructions.
//!
//! Two things stop being true here, and both are what the graph was for. An
//! edge becomes an order: the blocks are written in reverse postorder from the
//! entry, so a block comes after everything that had to run to reach it. And
//! a phi becomes moves: each one is written as a move at the end of each block
//! it names, all of a block's moves read before any is written, and an edge
//! out of a block with two ways out into a block with phis gets a block of its
//! own to hold them.

use vstd::prelude::*;
use crate::mir_nodes::{blocks_v, goes_v, reaches_same_terms, live_v, walks_v, reaches_agree, reaches_v, BlockV, InstV, KindV, MIRInstKind as Kind, PhiV, closed_reaches, off_count, walks_on, MIRBlock, MIRBlockId, MIRBody, MIRInst, MIRInstKind, MIRPhi, MIRReg, MIRRegId, MIRSlot, MIRTerm};

verus! {

// ---- What order to write them in --------------------------------------------

/// Whether `s` names nothing twice.
pub open spec fn distinct(s: Seq<MIRBlockId>) -> bool {
    forall|i: int, j: int| 0 <= i < j < s.len() ==> #[trigger] s[i] != #[trigger] s[j]
}

/// How far each entry of a walk still has to go: the targets of its block not
/// yet looked at.
pub open spec fn left(body: MIRBody, stack: Seq<(MIRBlockId, usize)>) -> nat
    decreases stack.len(),
{
    if stack.len() == 0 {
        0
    } else {
        let (at, next) = stack.last();
        let rest = left(body, stack.drop_last());
        if at < body.blocks@.len() && next <= body.blocks@[at as int].term.spec_targets().len() {
            rest + (body.blocks@[at as int].term.spec_targets().len() - next) as nat
        } else {
            rest
        }
    }
}

/// Whether `at` is the block of one of the entries of `stack`.
pub open spec fn stacked(stack: Seq<(MIRBlockId, usize)>, at: MIRBlockId) -> bool {
    exists|i: int| 0 <= i < stack.len() && (#[trigger] stack[i]).0 == at
}

/// Whether `path` is a way through the blocks `bv`, from wherever it starts.
pub open spec fn runs(bv: Seq<BlockV>, path: Seq<MIRBlockId>) -> bool {
    &&& path.len() >= 1
    &&& forall|i: int| 0 <= i < path.len() ==> #[trigger] path[i] < bv.len()
    &&& forall|i: int| 0 <= i < path.len() - 1 ==> goes_v(bv, #[trigger] path[i] as int, path[i + 1] as int)
}

/// Whether there is a way through the blocks `bv` from block `from` to block
/// `to`.
#[verifier::opaque]
pub open spec fn leads(bv: Seq<BlockV>, from: int, to: int) -> bool {
    exists|path: Seq<MIRBlockId>| #[trigger] runs(bv, path) && path[0] == from && path.last() == to
}

/// Whether `t` is one of the first `i` of `done`.
#[verifier::opaque]
pub open spec fn done_before(done: Seq<MIRBlockId>, i: int, t: MIRBlockId) -> bool {
    exists|j: int| 0 <= j < i && #[trigger] done[j] == t
}

/// Whether each block of the walk leads to every block above it.
pub open spec fn chained(bv: Seq<BlockV>, stack: Seq<(MIRBlockId, usize)>) -> bool {
    forall|i: int, j: int| 0 <= i <= j < stack.len() ==> leads(bv, #[trigger] stack[i].0 as int, #[trigger] stack[j].0 as int)
}

/// Whether each block done goes on only to blocks done before it or to
/// blocks that lead back to it.
pub open spec fn done_in_order(body: MIRBody, done: Seq<MIRBlockId>) -> bool {
    forall|i: int, t: int|
        0 <= i < done.len() && #[trigger] body.goes(done[i] as int, t) && 0 <= t < body.blocks@.len() ==> done_before(
            done,
            i,
            t as MIRBlockId,
        ) || leads(blocks_v(body.blocks@), t, done[i] as int)
}

/// Going from block to block is a fact about the terminators alone.
pub proof fn goes_agree(body: MIRBody, at: int, to: int)
    ensures
        body.goes(at, to) <==> goes_v(blocks_v(body.blocks@), at, to),
{
    if 0 <= at < body.blocks@.len() {
        assert(blocks_v(body.blocks@)[at].term == body.blocks@[at].term);
    }
}

/// Leading from block to block is a fact about the terminators alone.
pub proof fn leads_same_terms(a: Seq<BlockV>, b: Seq<BlockV>, from: int, to: int)
    requires
        a.len() == b.len(),
        forall|k: int| 0 <= k < a.len() ==> (#[trigger] a[k]).term == b[k].term,
    ensures
        leads(a, from, to) <==> leads(b, from, to),
{
    reveal(leads);
    assert forall|x: int, y: int| goes_v(a, x, y) <==> goes_v(b, x, y) by {
        if 0 <= x < a.len() {
            assert(a[x].term == b[x].term);
        }
    }
    assert forall|path: Seq<MIRBlockId>| runs(a, path) <==> runs(b, path) by {
        if runs(a, path) {
            assert forall|i: int| 0 <= i < path.len() - 1 implies goes_v(b, #[trigger] path[i] as int, path[i + 1] as int) by {
                assert(goes_v(a, path[i] as int, path[i + 1] as int));
            }
        }
        if runs(b, path) {
            assert forall|i: int| 0 <= i < path.len() - 1 implies goes_v(a, #[trigger] path[i] as int, path[i + 1] as int) by {
                assert(goes_v(b, path[i] as int, path[i + 1] as int));
            }
        }
    }
    if leads(a, from, to) {
        let p = choose|p: Seq<MIRBlockId>| #[trigger] runs(a, p) && p[0] == from && p.last() == to;
        assert(runs(b, p));
    }
    if leads(b, from, to) {
        let p = choose|p: Seq<MIRBlockId>| #[trigger] runs(b, p) && p[0] == from && p.last() == to;
        assert(runs(a, p));
    }
}

proof fn leads_here(bv: Seq<BlockV>, at: MIRBlockId)
    requires
        at < bv.len(),
    ensures
        leads(bv, at as int, at as int),
{
    reveal(leads);
    let p = seq![at];
    assert(runs(bv, p));
}

proof fn leads_on(bv: Seq<BlockV>, from: int, at: MIRBlockId, to: MIRBlockId)
    requires
        leads(bv, from, at as int),
        goes_v(bv, at as int, to as int),
        to < bv.len(),
    ensures
        leads(bv, from, to as int),
{
    reveal(leads);
    let p = choose|p: Seq<MIRBlockId>| #[trigger] runs(bv, p) && p[0] == from && p.last() == at;
    let q = p.push(to);
    assert forall|i: int| 0 <= i < q.len() - 1 implies goes_v(bv, #[trigger] q[i] as int, q[i + 1] as int) by {
        if i < p.len() - 1 {
            assert(q[i] == p[i] && q[i + 1] == p[i + 1]);
        } else {
            assert(q[i] == at && q[i + 1] == to);
        }
    }
    assert(runs(bv, q));
    assert(q[0] == from && q.last() == to);
}

/// Going one block deeper, or not, keeps the walk a chain.
proof fn descend_keeps(
    body: MIRBody,
    was: Seq<(MIRBlockId, usize)>,
    mid: Seq<(MIRBlockId, usize)>,
    fin: Seq<(MIRBlockId, usize)>,
    to: MIRBlockId,
)
    requires
        chained(blocks_v(body.blocks@), was),
        was.len() > 0,
        mid.len() == was.len(),
        forall|k: int| 0 <= k < mid.len() ==> (#[trigger] mid[k]).0 == was[k].0,
        fin == mid || (fin == mid.push((to, 0usize)) && body.goes(was.last().0 as int, to as int) && to < body.blocks@.len()),
    ensures
        chained(blocks_v(body.blocks@), fin),
{
    let bv = blocks_v(body.blocks@);
    assert forall|i: int, j: int| 0 <= i <= j < fin.len() implies leads(bv, #[trigger] fin[i].0 as int, #[trigger] fin[j].0 as int) by {
        if j < mid.len() {
            assert(fin[i] == mid[i] && fin[j] == mid[j]);
            assert(mid[i].0 == was[i].0 && mid[j].0 == was[j].0);
        } else {
            assert(fin[j] == (to, 0usize));
            if i < mid.len() {
                assert(fin[i] == mid[i] && mid[i].0 == was[i].0);
                assert(leads(bv, was[i].0 as int, was[was.len() - 1].0 as int));
                goes_agree(body, was.last().0 as int, to as int);
                leads_on(bv, was[i].0 as int, was.last().0, to);
            } else {
                leads_here(bv, to);
            }
        }
    }
}

/// Finishing the block on top of the walk keeps the blocks done in order.
proof fn finish_keeps(
    body: MIRBody,
    seen: Seq<bool>,
    was: Seq<(MIRBlockId, usize)>,
    done0: Seq<MIRBlockId>,
)
    requires
        body.blocks@.len() <= usize::MAX,
        seen.len() == body.blocks@.len(),
        was.len() > 0,
        was.last().0 < body.blocks@.len(),
        was.last().1 >= body.blocks@[was.last().0 as int].term.spec_targets().len(),
        chained(blocks_v(body.blocks@), was),
        done_in_order(body, done0),
        forall|k: int|
            0 <= k < was.last().1 && #[trigger] body.blocks@[was.last().0 as int].term.spec_targets()[k] < body.blocks@.len()
                ==> seen[body.blocks@[was.last().0 as int].term.spec_targets()[k] as int],
        forall|a: int| 0 <= a < seen.len() && #[trigger] seen[a] ==> stacked(was, a as MIRBlockId) || done0.contains(a as MIRBlockId),
    ensures
        chained(blocks_v(body.blocks@), was.drop_last()),
        done_in_order(body, done0.push(was.last().0)),
{
    let bv = blocks_v(body.blocks@);
    let at = was.last().0;
    let done = done0.push(at);
    let n = body.blocks@.len();
    let st = was.drop_last();
    assert forall|i: int, j: int| 0 <= i <= j < st.len() implies leads(bv, #[trigger] st[i].0 as int, #[trigger] st[j].0 as int) by {
        assert(st[i] == was[i] && st[j] == was[j]);
    }
    assert forall|i: int, t: int|
        0 <= i < done.len() && #[trigger] body.goes(done[i] as int, t) && 0 <= t < n implies done_before(
        done,
        i,
        t as MIRBlockId,
    ) || leads(bv, t, done[i] as int) by {
        if i < done0.len() {
            assert(done[i] == done0[i]);
            assert(body.goes(done0[i] as int, t));
            if done_before(done0, i, t as MIRBlockId) {
                reveal(done_before);
                let j = choose|j: int| 0 <= j < i && #[trigger] done0[j] == t as MIRBlockId;
                assert(done[j] == done0[j]);
            }
        } else {
            assert(done[i] == at);
            let tg = body.blocks@[at as int].term.spec_targets();
            let k = choose|k: int| 0 <= k < tg.len() && tg[k] == t as MIRBlockId;
            assert(tg[k] < n);
            assert(seen[t]);
            if stacked(was, t as MIRBlockId) {
                let m = choose|m: int| 0 <= m < was.len() && (#[trigger] was[m]).0 == t as MIRBlockId;
                assert(leads(bv, was[m].0 as int, was[was.len() - 1].0 as int));
            } else {
                reveal(done_before);
                let j = choose|j: int| 0 <= j < done0.len() && done0[j] == t as MIRBlockId;
                assert(done[j] == done0[j]);
            }
        }
    }
}

/// In the reversed list, a block going to one no later than itself goes back
/// to a block that leads to it.
proof fn reversed_in_order(body: MIRBody, done: Seq<MIRBlockId>, out: Seq<MIRBlockId>)
    requires
        done_in_order(body, done),
        distinct(done),
        forall|i: int| 0 <= i < done.len() ==> #[trigger] done[i] < body.blocks@.len(),
        out == done.reverse(),
    ensures
        forall|i: int, j: int|
            0 <= j <= i < out.len() && #[trigger] body.goes(out[i] as int, out[j] as int) ==> leads(
                blocks_v(body.blocks@),
                out[j] as int,
                out[i] as int,
            ),
{
    assert forall|i: int, j: int|
        0 <= j <= i < out.len() && #[trigger] body.goes(out[i] as int, out[j] as int) implies leads(
        blocks_v(body.blocks@),
        out[j] as int,
        out[i] as int,
    ) by {
        let a = done.len() - 1 - i;
        let b = done.len() - 1 - j;
        assert(out[i] == done[a]);
        assert(out[j] == done[b]);
        assert(body.goes(done[a] as int, done[b] as int));
        if done_before(done, a, done[b]) {
            reveal(done_before);
            let c = choose|c: int| 0 <= c < a && #[trigger] done[c] == done[b];
            assert(done[c] != done[b]);
        }
    }
}

/// One step of the walk behind `rpo`: with `seen` the blocks met, `stack` the
/// blocks being walked, each with how many of its ways out have been taken,
/// and `done` the blocks finished, in the order they finished. The block on
/// top takes its next way out, and goes on to a block not met before, if it
/// leads to one; with none left, it is finished.
pub open spec fn dfs_step(bv: Seq<BlockV>, seen: Seq<bool>, stack: Seq<(MIRBlockId, usize)>, done: Seq<MIRBlockId>) -> (
    Seq<bool>,
    Seq<(MIRBlockId, usize)>,
    Seq<MIRBlockId>,
) {
    let (at, next) = stack.last();
    let rest = stack.drop_last();
    let targets = bv[at as int].term.spec_targets();
    if next < targets.len() {
        let to = targets[next as int];
        let on = rest.push((at, (next + 1) as usize));
        if to < bv.len() && !seen[to as int] {
            (seen.update(to as int, true), on.push((to, 0usize)), done)
        } else {
            (seen, on, done)
        }
    } else {
        (seen, rest, done.push(at))
    }
}

/// The blocks finished once the walk has taken up to `fuel` more steps, or
/// has nothing left on its stack.
pub open spec fn dfs(bv: Seq<BlockV>, seen: Seq<bool>, stack: Seq<(MIRBlockId, usize)>, done: Seq<MIRBlockId>, fuel: nat) -> Seq<MIRBlockId>
    decreases fuel,
{
    if fuel == 0 || stack.len() == 0 {
        done
    } else {
        let (s2, st2, d2) = dfs_step(bv, seen, stack, done);
        dfs(bv, s2, st2, d2, (fuel - 1) as nat)
    }
}

/// More steps than the walk of `bv` can take: each block is met once, and
/// each has at most two ways out.
pub open spec fn dfs_fuel(bv: Seq<BlockV>) -> nat {
    3 * bv.len() + 3
}

/// Where the walk from `entry` starts: the entry met and nothing else.
pub open spec fn start_seen(bv: Seq<BlockV>, entry: MIRBlockId) -> Seq<bool> {
    Seq::new(bv.len(), |i: int| i == entry as int)
}

/// The blocks the entry reaches in reverse postorder: the walk from the entry,
/// depth first, each block's ways out in the order its terminator names them,
/// and the blocks in the reverse of the order they finished.
pub open spec fn rpo(bv: Seq<BlockV>, entry: MIRBlockId) -> Seq<MIRBlockId> {
    if entry < bv.len() {
        dfs(
            bv,
            start_seen(bv, entry),
            seq![(entry, 0usize)],
            Seq::empty(),
            dfs_fuel(bv),
        ).reverse()
    } else {
        Seq::empty()
    }
}

/// Every block the entry reaches, each once, the entry first, each block
/// after the ones that had to run to reach it: reverse postorder. Only the
/// blocks the entry reaches, since writing out one nothing can jump to would
/// be writing out code that cannot run.
#[verifier::spinoff_prover]
#[verifier::rlimit(80)]
pub fn order(body: &MIRBody) -> (r: Vec<MIRBlockId>)
    ensures
        distinct(r@),
        forall|b: int| 0 <= b <= usize::MAX ==> (r@.contains(b as MIRBlockId) <==> body.reaches(b)),
        body.entry < body.blocks@.len() ==> r@.len() > 0 && r@[0] == body.entry,
        forall|i: int, j: int|
            0 <= j <= i < r@.len() && #[trigger] body.goes(r@[i] as int, r@[j] as int) ==> leads(
                blocks_v(body.blocks@),
                r@[j] as int,
                r@[i] as int,
            ),
        r@ == rpo(blocks_v(body.blocks@), body.entry),
{
    let ghost bv = blocks_v(body.blocks@);
    let n = body.blocks.len();
    let mut seen: Vec<bool> = Vec::new();
    let mut i: usize = 0;
    while i < n
        invariant
            i <= n,
            seen@.len() == i,
            forall|j: int| 0 <= j < i ==> !#[trigger] seen@[j],
        decreases n - i,
    {
        seen.push(false);
        i = i + 1;
    }
    let mut done: Vec<MIRBlockId> = Vec::new();
    if body.entry < n {
        let mut stack: Vec<(MIRBlockId, usize)> = Vec::new();
        stack.push((body.entry, 0));
        proof {
            off_lemma_off(seen@, body.entry as int);
        }
        seen.set(body.entry, true);
        let ghost mut fuel: nat = dfs_fuel(bv);
        proof {
            assert(seen@ =~= start_seen(bv, body.entry));
            assert(stack@ =~= seq![(body.entry, 0usize)]);
            assert(done@ =~= Seq::<MIRBlockId>::empty());
            assert(body.blocks@[body.entry as int].term.spec_targets().len() <= 2);
            assert(left(*body, stack@) == body.blocks@[body.entry as int].term.spec_targets().len()) by {
                assert(stack@.drop_last() =~= Seq::<(MIRBlockId, usize)>::empty());
                assert(left(*body, Seq::<(MIRBlockId, usize)>::empty()) == 0);
                assert(stack@.last() == (body.entry, 0usize));
            }
            off_count_at_most(seen@);
            let path = seq![body.entry];
            assert(body.walks(path));
            assert(stack@[0] == (body.entry, 0usize));
            leads_here(blocks_v(body.blocks@), body.entry);
            assert(chained(blocks_v(body.blocks@), stack@));
        }
        while stack.len() > 0
            invariant
                n == body.blocks@.len(),
                body.entry < n,
                seen@.len() == n,
                seen@[body.entry as int],
                stack@.len() > 0 ==> stack@[0].0 == body.entry,
                stack@.len() == 0 ==> done@.len() > 0 && done@.last() == body.entry,
                // What the walk holds: each block it has seen is on the stack
                // or done, never both, and never twice.
                forall|i: int| 0 <= i < stack@.len() ==> #[trigger] stack@[i].0 < n && seen@[stack@[i].0 as int]
                    && stack@[i].1 <= body.blocks@[stack@[i].0 as int].term.spec_targets().len(),
                forall|i: int, j: int| 0 <= i < j < stack@.len() ==> #[trigger] stack@[i].0 != #[trigger] stack@[j].0,
                distinct(done@),
                forall|i: int| 0 <= i < done@.len() ==> #[trigger] done@[i] < n && seen@[done@[i] as int],
                forall|i: int| 0 <= i < done@.len() ==> !stacked(stack@, #[trigger] done@[i]),
                forall|a: int| 0 <= a < n && #[trigger] seen@[a] ==> stacked(stack@, a as MIRBlockId) || done@.contains(
                    a as MIRBlockId,
                ),
                forall|a: int| 0 <= a < n && #[trigger] seen@[a] ==> body.reaches(a),
                // What it has looked at: a block done has every way out seen,
                // and a block on the stack the ones before its count.
                forall|i: int, t: int|
                    0 <= i < done@.len() && #[trigger] body.goes(done@[i] as int, t) && 0 <= t < n ==> seen@[t],
                forall|i: int, k: int|
                    0 <= i < stack@.len() && 0 <= k < stack@[i].1 && #[trigger] body.blocks@[stack@[i].0 as int].term.spec_targets()[k]
                        < n ==> seen@[body.blocks@[stack@[i].0 as int].term.spec_targets()[k] as int],
                // The stack is a way through the body, and a block done goes on
                // only to blocks done before it or to blocks that lead back to it.
                chained(blocks_v(body.blocks@), stack@),
                done_in_order(*body, done@),
                bv == blocks_v(body.blocks@),
                dfs(bv, seen@, stack@, done@, fuel) == dfs(
                    bv,
                    start_seen(bv, body.entry),
                    seq![(body.entry, 0usize)],
                    Seq::empty(),
                    dfs_fuel(bv),
                ),
                fuel >= 3 * off_count(seen@) + left(*body, stack@) + stack@.len(),
            decreases 3 * off_count(seen@) + left(*body, stack@) + stack@.len(),
        {
            let ghost measure = 3 * off_count(seen@) + left(*body, stack@) + stack@.len();
            let ghost cur = (seen@, stack@, done@);
            proof {
                assert(bv[stack@.last().0 as int].term == body.blocks@[stack@.last().0 as int].term);
                assert(dfs(bv, seen@, stack@, done@, fuel) == dfs(
                    bv,
                    dfs_step(bv, seen@, stack@, done@).0,
                    dfs_step(bv, seen@, stack@, done@).1,
                    dfs_step(bv, seen@, stack@, done@).2,
                    (fuel - 1) as nat,
                ));
            }
            let ghost was = stack@;
            let (at, next) = stack.pop().unwrap();
            proof {
                assert(was =~= stack@.push((at, next)));
                assert(was.drop_last() =~= stack@);
                assert(was[was.len() - 1] == (at, next));
                assert(at < n);
                assert(left(*body, was) == left(*body, stack@) + (body.blocks@[at as int].term.spec_targets().len() - next) as nat);
            }
            let ghost before = stack@;
            let targets = body.blocks[at].term.targets();
            if next < targets.len() {
                stack.push((at, next + 1));
                proof {
                    assert(stack@.drop_last() =~= before);
                    assert(left(*body, stack@) == left(*body, before) + (targets@.len() - next - 1) as nat);
                }
                let to = targets[next];
                let ghost seen0 = seen@;
                let ghost mid = stack@;
                if to < n && !seen[to] {
                    proof {
                        off_lemma_off(seen@, to as int);
                    }
                    seen.set(to, true);
                    stack.push((to, 0));
                    proof {
                        assert(stack@.drop_last() =~= mid);
                        assert(body.blocks@[to as int].term.spec_targets().len() <= 2);
                        assert(left(*body, stack@) == left(*body, mid) + body.blocks@[to as int].term.spec_targets().len());
                        assert(body.goes(at as int, to as int));
                        let path = choose|path: Seq<MIRBlockId>| #[trigger] body.walks(path) && path.last() == at as int;
                        walks_on(*body, path, to);
                        assert(stack@[stack@.len() - 1] == (to, 0usize));
                        assert(stacked(stack@, to));
                        assert(stack@ =~= mid.push((to, 0usize)));
                    }
                }
                proof {
                    assert forall|a: int| 0 <= a < n && #[trigger] seen@[a] implies stacked(stack@, a as MIRBlockId)
                        || done@.contains(a as MIRBlockId) by {
                        if a != to as int || seen0[a] {
                            assert(seen0[a]);
                            if stacked(was, a as MIRBlockId) {
                                let i = choose|i: int| 0 <= i < was.len() && (#[trigger] was[i]).0 == a as MIRBlockId;
                                if i == was.len() - 1 {
                                    assert(mid[mid.len() - 1].0 == at);
                                    assert(stack@[mid.len() - 1] == mid[mid.len() - 1]);
                                } else {
                                    assert(stack@[i] == was[i]);
                                }
                            }
                        }
                    }
                    assert forall|k: int| 0 <= k < mid.len() implies (#[trigger] mid[k]).0 == was[k].0 by {
                        if k < mid.len() - 1 {
                            assert(mid[k] == before[k]);
                        }
                    }
                    descend_keeps(*body, was, mid, stack@, to);
                }
            } else {
                let ghost done0 = done@;
                done.push(at);
                proof {
                    assert forall|a: int| 0 <= a < n && #[trigger] seen@[a] implies stacked(stack@, a as MIRBlockId)
                        || done@.contains(a as MIRBlockId) by {
                        if a == at as int {
                            assert(done@[done@.len() - 1] == at);
                        } else if stacked(was, a as MIRBlockId) {
                            let i = choose|i: int| 0 <= i < was.len() && (#[trigger] was[i]).0 == a as MIRBlockId;
                            assert(i != was.len() - 1);
                            assert(stack@[i] == was[i]);
                        } else {
                            let j = choose|j: int| 0 <= j < done0.len() && done0[j] == a as MIRBlockId;
                            assert(done@[j] == done0[j]);
                        }
                    }
                    finish_keeps(*body, seen@, was, done0);
                    assert(stack@ =~= was.drop_last());
                    assert(done@ =~= done0.push(was.last().0));
                }
            }
            proof {
                assert((seen@, stack@, done@) == dfs_step(bv, cur.0, cur.1, cur.2));
                assert(3 * off_count(seen@) + left(*body, stack@) + stack@.len() < measure);
                fuel = (fuel - 1) as nat;
            }
        }
        proof {
            assert(stack@.len() == 0);
            assert(dfs(bv, seen@, stack@, done@, fuel) == done@);
            assert(rpo(bv, body.entry) == done@.reverse());
            assert(done@.reverse().reverse() =~= done@);
        }
    }
    let mut out: Vec<MIRBlockId> = Vec::new();
    let mut k: usize = done.len();
    while k > 0
        invariant
            k <= done@.len(),
            out@ == done@.subrange(k as int, done@.len() as int).reverse(),
        decreases k,
    {
        k = k - 1;
        out.push(done[k]);
        proof {
            assert(out@ =~= done@.subrange(k as int, done@.len() as int).reverse());
        }
    }
    proof {
        assert(done@.subrange(0, done@.len() as int) =~= done@);
        if body.entry < n {
            assert(out@ =~= rpo(bv, body.entry)) by {
                assert(rpo(bv, body.entry).reverse().reverse() =~= rpo(bv, body.entry));
            }
        } else {
            assert(out@ =~= rpo(bv, body.entry));
        }
        if body.entry < n {
            assert forall|a: int, t: int|
                0 <= a < n && seen@[a] && #[trigger] body.goes(a, t) && 0 <= t < n implies seen@[t] by {
                assert(!stacked(Seq::<(MIRBlockId, usize)>::empty(), a as MIRBlockId));
                let i = choose|i: int| 0 <= i < done@.len() && done@[i] == a as MIRBlockId;
                assert(body.goes(done@[i] as int, t));
            }
        }
        assert forall|b: int| 0 <= b <= usize::MAX implies (out@.contains(b as MIRBlockId) <==> body.reaches(b)) by {
            if body.reaches(b) {
                let path = choose|path: Seq<MIRBlockId>| #[trigger] body.walks(path) && path.last() == b;
                assert(path[0] < n);
                closed_reaches(*body, seen@, path);
                let j = choose|j: int| 0 <= j < done@.len() && done@[j] == b as MIRBlockId;
                assert(out@[done@.len() - 1 - j] == done@[j]);
            }
            if out@.contains(b as MIRBlockId) {
                let j = choose|j: int| 0 <= j < out@.len() && out@[j] == b as MIRBlockId;
                assert(out@[j] == done@[done@.len() - 1 - j]);
            }
        }
        assert forall|i: int, j: int| 0 <= i < j < out@.len() implies #[trigger] out@[i] != #[trigger] out@[j] by {
            assert(out@[i] == done@[done@.len() - 1 - i]);
            assert(out@[j] == done@[done@.len() - 1 - j]);
        }
        if body.entry < n {
            assert(out@[0] == done@[done@.len() - 1]);
        }
        assert(out@ =~= done@.reverse());
        reversed_in_order(*body, done@, out@);
    }
    out
}

/// No more are off than there are.
proof fn off_count_at_most(on: Seq<bool>)
    ensures
        off_count(on) <= on.len(),
    decreases on.len(),
{
    if on.len() > 0 {
        off_count_at_most(on.drop_last());
    }
}

proof fn off_lemma_off(on: Seq<bool>, at: int)
    requires
        0 <= at < on.len(),
        !on[at],
    ensures
        off_count(on.update(at, true)) + 1 == off_count(on),
{
    crate::mir_nodes::off_count_turned_on(on, at);
}

// ---- Putting a block on the edges that need one -----------------------------

/// Whether the edge from `from` to `to` needs a block of its own: `to` is
/// reached and has phis, and `from` has another way out, down which the moves
/// for this edge would otherwise run too.
pub open spec fn critical(b: MIRBody, from: int, to: int) -> bool {
    &&& b.reaches(to)
    &&& 0 <= to < b.blocks@.len()
    &&& b.blocks@[to].phis@.len() > 0
    &&& b.goes(from, to)
    &&& b.blocks@[from].term.spec_targets().len() > 1
}

/// The edges into `to` from the first `m` blocks that need a block.
pub open spec fn into(b: MIRBody, to: int, m: nat) -> Seq<(MIRBlockId, MIRBlockId)>
    decreases m,
{
    if m == 0 {
        Seq::empty()
    } else {
        into(b, to, (m - 1) as nat) + if critical(b, m - 1, to) {
            seq![((m - 1) as MIRBlockId, to as MIRBlockId)]
        } else {
            Seq::empty()
        }
    }
}

/// The edges into the first `k` blocks that need a block, block by block.
pub open spec fn edges_below(b: MIRBody, k: nat) -> Seq<(MIRBlockId, MIRBlockId)>
    decreases k,
{
    if k == 0 {
        Seq::empty()
    } else {
        edges_below(b, (k - 1) as nat) + into(b, k - 1, b.blocks@.len())
    }
}

/// Every edge that needs a block.
pub open spec fn split_edges(b: MIRBody) -> Seq<(MIRBlockId, MIRBlockId)> {
    edges_below(b, b.blocks@.len())
}

/// `t`, or `new` where `t` is `to`.
pub open spec fn swap_to(t: MIRBlockId, to: MIRBlockId, new: MIRBlockId) -> MIRBlockId {
    if t == to { new } else { t }
}

/// A terminator that went to `to` going to `new` instead.
pub open spec fn retarget(term: MIRTerm, to: MIRBlockId, new: MIRBlockId) -> MIRTerm {
    match term {
        MIRTerm::Goto(t) => MIRTerm::Goto(swap_to(t, to, new)),
        MIRTerm::Branch { cond, then, els } => MIRTerm::Branch { cond, then: swap_to(then, to, new), els: swap_to(els, to, new) },
        _ => term,
    }
}

/// A phi that took a value from `from` taking it from `new` instead.
pub open spec fn resourced(p: PhiV, from: MIRBlockId, new: MIRBlockId) -> PhiV {
    PhiV {
        def: p.def,
        edges: p.edges.map_values(|e: (MIRBlockId, MIRRegId)| (swap_to(e.0, from, new), e.1)),
    }
}

/// The block put on an edge: nothing in it but a jump.
pub open spec fn edge_block(from: BlockV, to: MIRBlockId) -> BlockV {
    BlockV { phis: Seq::empty(), insts: Seq::empty(), term: MIRTerm::Goto(to), line: from.line, col: from.col }
}

/// The blocks after one edge has a block of its own, at the end of them.
pub open spec fn split_one(blocks: Seq<BlockV>, e: (MIRBlockId, MIRBlockId)) -> Seq<BlockV> {
    let (from, to) = e;
    let new = blocks.len() as MIRBlockId;
    let f = blocks[from as int];
    let once = blocks.update(from as int, BlockV { term: retarget(f.term, to, new), ..f });
    let t = once[to as int];
    let twice = once.update(
        to as int,
        BlockV { phis: t.phis.map_values(|p: PhiV| resourced(p, from, new)), ..t },
    );
    twice.push(edge_block(f, to))
}

/// The blocks after the first `i` of `edges` have a block each.
pub open spec fn split_upto(blocks: Seq<BlockV>, edges: Seq<(MIRBlockId, MIRBlockId)>, i: nat) -> Seq<BlockV>
    decreases i,
{
    if i == 0 {
        blocks
    } else {
        split_one(split_upto(blocks, edges, (i - 1) as nat), edges[i - 1])
    }
}

proof fn into_bounded(b: MIRBody, to: int, m: nat)
    requires
        m <= b.blocks@.len(),
        b.blocks@.len() <= usize::MAX,
        0 <= to < b.blocks@.len(),
    ensures
        forall|j: int| 0 <= j < into(b, to, m).len() ==> #[trigger] into(b, to, m)[j].0 < m && into(b, to, m)[j].1
            == to && critical(b, into(b, to, m)[j].0 as int, to),
    decreases m,
{
    if m > 0 {
        into_bounded(b, to, (m - 1) as nat);
        let front = into(b, to, (m - 1) as nat);
        let whole = into(b, to, m);
        assert forall|j: int| 0 <= j < whole.len() implies #[trigger] whole[j].0 < m && whole[j].1 == to && critical(
            b,
            whole[j].0 as int,
            to,
        ) by {
            if critical(b, m - 1, to) {
                assert(whole =~= front + seq![((m - 1) as MIRBlockId, to as MIRBlockId)]);
                if j < front.len() {
                    assert(whole[j] == front[j]);
                    assert(front[j].0 < m - 1);
                    assert(front[j].1 == to);
                    assert(critical(b, front[j].0 as int, to));
                } else {
                    assert(whole[j] == ((m - 1) as MIRBlockId, to as MIRBlockId));
                    assert(whole[j].0 == m - 1);
                }
            } else {
                assert(whole =~= front);
                assert(whole[j] == front[j]);
            }
        }
    }
}

proof fn edges_bounded(b: MIRBody, k: nat)
    requires
        k <= b.blocks@.len(),
        b.blocks@.len() <= usize::MAX,
    ensures
        forall|j: int| 0 <= j < edges_below(b, k).len() ==> #[trigger] edges_below(b, k)[j].1 < k && critical(
            b,
            edges_below(b, k)[j].0 as int,
            edges_below(b, k)[j].1 as int,
        ),
    decreases k,
{
    if k > 0 {
        edges_bounded(b, (k - 1) as nat);
        into_bounded(b, k - 1, b.blocks@.len());
        let front = edges_below(b, (k - 1) as nat);
        let back = into(b, k - 1, b.blocks@.len());
        assert forall|j: int| 0 <= j < edges_below(b, k).len() implies #[trigger] edges_below(b, k)[j].1 < k && critical(
            b,
            edges_below(b, k)[j].0 as int,
            edges_below(b, k)[j].1 as int,
        ) by {
            assert(edges_below(b, k) =~= front + back);
            if j < front.len() {
                assert(edges_below(b, k)[j] == front[j]);
                assert(front[j].1 < k - 1);
            } else {
                let jj = j - front.len();
                assert(edges_below(b, k)[j] == back[jj]);
                assert(back[jj].0 < b.blocks@.len() && back[jj].1 == k - 1 && critical(b, back[jj].0 as int, k - 1));
            }
        }
    }
}

/// Whether the block `from` ends by going to `to`, worked out.
fn goes_to(body: &MIRBody, from: usize, to: usize) -> (r: bool)
    requires
        from < body.blocks@.len(),
    ensures
        r == body.goes(from as int, to as int),
{
    match body.blocks[from].term {
        MIRTerm::Goto(t) => {
            proof {
                assert(seq![t][0] == t);
            }
            t == to
        },
        MIRTerm::Branch { then, els, .. } => {
            proof {
                assert(seq![then, els][0] == then);
                assert(seq![then, els][1] == els);
            }
            then == to || els == to
        },
        _ => false,
    }
}

/// Every edge that needs a block, in the order the blocks they reach come.
fn edges_of(body: &MIRBody) -> (r: Vec<(MIRBlockId, MIRBlockId)>)
    ensures
        r@ == split_edges(*body),
{
    let n = body.blocks.len();
    let live = body.live();
    let mut out: Vec<(MIRBlockId, MIRBlockId)> = Vec::new();
    let mut to: usize = 0;
    while to < n
        invariant
            n == body.blocks@.len(),
            live@.len() == n,
            forall|at: int| 0 <= at < n ==> (#[trigger] live@[at] <==> body.reaches(at)),
            to <= n,
            out@ == edges_below(*body, to as nat),
        decreases n - to,
    {
        let ghost front = out@;
        let wanted = live[to] && body.blocks[to].phis.len() > 0;
        let mut from: usize = 0;
        while from < n
            invariant
                n == body.blocks@.len(),
                to < n,
                from <= n,
                wanted == (body.reaches(to as int) && body.blocks@[to as int].phis@.len() > 0),
                out@ == front + into(*body, to as int, from as nat),
            decreases n - from,
        {
            if wanted && body.blocks[from].term.targets().len() > 1 && goes_to(body, from, to) {
                out.push((from, to));
            }
            proof {
                assert(out@ =~= front + into(*body, to as int, (from + 1) as nat));
            }
            from = from + 1;
        }
        to = to + 1;
    }
    out
}

fn retarget_term(term: MIRTerm, to: MIRBlockId, new: MIRBlockId) -> (r: MIRTerm)
    ensures
        r == retarget(term, to, new),
{
    match term {
        MIRTerm::Goto(t) => MIRTerm::Goto(if t == to { new } else { t }),
        MIRTerm::Branch { cond, then, els } => MIRTerm::Branch {
            cond,
            then: if then == to { new } else { then },
            els: if els == to { new } else { els },
        },
        _ => term,
    }
}

fn resource_phis(phis: &Vec<MIRPhi>, from: MIRBlockId, new: MIRBlockId) -> (r: Vec<MIRPhi>)
    ensures
        r@.map_values(|p: MIRPhi| p@) == phis@.map_values(|p: MIRPhi| p@).map_values(|p: PhiV| resourced(p, from, new)),
{
    let mut out: Vec<MIRPhi> = Vec::new();
    let mut i: usize = 0;
    while i < phis.len()
        invariant
            i <= phis@.len(),
            out@.len() == i,
            forall|j: int| 0 <= j < i ==> (#[trigger] out@[j])@ == resourced(phis@[j]@, from, new),
        decreases phis@.len() - i,
    {
        let p = &phis[i];
        let mut edges: Vec<(MIRBlockId, MIRRegId)> = Vec::new();
        let mut k: usize = 0;
        while k < p.edges.len()
            invariant
                k <= p.edges@.len(),
                edges@.len() == k,
                forall|j: int|
                    0 <= j < k ==> #[trigger] edges@[j] == (swap_to(p.edges@[j].0, from, new), p.edges@[j].1),
            decreases p.edges@.len() - k,
        {
            let (f, v) = p.edges[k];
            edges.push((if f == from { new } else { f }, v));
            k = k + 1;
        }
        let one = MIRPhi { def: p.def, edges };
        proof {
            assert(one@.edges =~= p@.edges.map_values(|e: (MIRBlockId, MIRRegId)| (swap_to(e.0, from, new), e.1)));
        }
        out.push(one);
        i = i + 1;
    }
    proof {
        assert(out@.map_values(|p: MIRPhi| p@) =~= phis@.map_values(|p: MIRPhi| p@).map_values(
            |p: PhiV| resourced(p, from, new),
        ));
    }
    out
}

/// Puts a block on every edge that needs one.
fn split(body: &mut MIRBody)
    ensures
        blocks_v(final(body).blocks@) == split_upto(
            blocks_v(old(body).blocks@),
            split_edges(*old(body)),
            split_edges(*old(body)).len(),
        ),
        final(body).symbol == old(body).symbol,
        final(body).entry == old(body).entry,
        final(body).regs == old(body).regs,
        final(body).frame == old(body).frame,
        final(body).params == old(body).params,
{
    let edges = edges_of(body);
    let ghost start = blocks_v(body.blocks@);
    let ghost e = edges@;
    let n = body.blocks.len();
    proof {
        edges_bounded(*old(body), old(body).blocks@.len());
    }
    let mut i: usize = 0;
    while i < edges.len()
        invariant
            e == edges@,
            e == split_edges(*old(body)),
            i <= e.len(),
            forall|j: int|
                0 <= j < e.len() ==> #[trigger] e[j].1 < old(body).blocks@.len() && e[j].0 < old(body).blocks@.len(),
            body.blocks@.len() == old(body).blocks@.len() + i,
            blocks_v(body.blocks@) == split_upto(start, e, i as nat),
            start == blocks_v(old(body).blocks@),
            body.symbol == old(body).symbol,
            body.entry == old(body).entry,
            body.regs == old(body).regs,
            body.frame == old(body).frame,
            body.params == old(body).params,
        decreases e.len() - i,
    {
        let (from, to) = edges[i];
        let new = body.blocks.len();
        let ghost was = blocks_v(body.blocks@);
        let mut f = body.blocks[from].copy();
        let (line, col) = (f.line, f.col);
        f.term = retarget_term(f.term, to, new);
        let ghost fv = f@;
        body.blocks.set(from, f);
        let ghost once = blocks_v(body.blocks@);
        proof {
            assert(fv == BlockV { term: retarget(was[from as int].term, to, new), ..was[from as int] });
            assert(once =~= was.update(from as int, fv));
        }
        let t = body.blocks[to].copy();
        let phis = resource_phis(&t.phis, from, new);
        let t2 = MIRBlock { phis, insts: t.insts, term: t.term, line: t.line, col: t.col };
        let ghost tv = t2@;
        proof {
            assert(tv.phis =~= once[to as int].phis.map_values(|p: PhiV| resourced(p, from, new)));
            assert(tv == BlockV { phis: once[to as int].phis.map_values(|p: PhiV| resourced(p, from, new)), ..once[to as int] });
        }
        body.blocks.set(to, t2);
        let ghost twice = blocks_v(body.blocks@);
        proof {
            assert(twice =~= once.update(to as int, tv));
        }
        let fresh = MIRBlock { phis: Vec::new(), insts: Vec::new(), term: MIRTerm::Goto(to), line, col };
        proof {
            assert(fresh@.phis =~= Seq::<PhiV>::empty());
            assert(fresh@.insts =~= Seq::<InstV>::empty());
            assert(fresh@ == edge_block(was[from as int], to));
        }
        body.blocks.push(fresh);
        proof {
            assert(blocks_v(body.blocks@) =~= twice.push(fresh@));
        }
        i = i + 1;
    }
}

// ---- Phis into moves --------------------------------------------------------

/// What one phi asks of block `at`, among its first `n` edges: its register,
/// and the value that comes from `at`.
pub open spec fn asked(p: PhiV, at: MIRBlockId, n: nat) -> Seq<(MIRRegId, MIRRegId)>
    decreases n,
{
    if n == 0 || n > p.edges.len() {
        Seq::empty()
    } else {
        asked(p, at, (n - 1) as nat) + if p.edges[n - 1].0 == at {
            seq![(p.def, p.edges[n - 1].1)]
        } else {
            Seq::empty()
        }
    }
}

/// What the first `n` phis of a block ask of block `at`.
pub open spec fn asked_of(phis: Seq<PhiV>, at: MIRBlockId, n: nat) -> Seq<(MIRRegId, MIRRegId)>
    decreases n,
{
    if n == 0 || n > phis.len() {
        Seq::empty()
    } else {
        asked_of(phis, at, (n - 1) as nat) + asked(phis[n - 1], at, phis[n - 1].edges.len())
    }
}

/// What the first `k` blocks, those of them that are reached, ask of block
/// `at`: every move `at` owes on the way out, in the order the blocks come.
pub open spec fn owed_below(bv: Seq<BlockV>, live: Seq<bool>, at: MIRBlockId, k: nat) -> Seq<(MIRRegId, MIRRegId)>
    decreases k,
{
    if k == 0 || k > bv.len() || k > live.len() {
        Seq::empty()
    } else {
        owed_below(bv, live, at, (k - 1) as nat) + if live[k - 1] {
            asked_of(bv[k - 1].phis, at, bv[k - 1].phis.len())
        } else {
            Seq::empty()
        }
    }
}

/// Every move block `at` owes.
pub open spec fn owed(bv: Seq<BlockV>, live: Seq<bool>, at: MIRBlockId) -> Seq<(MIRRegId, MIRRegId)> {
    owed_below(bv, live, at, bv.len())
}

/// Whether one of the moves writes what one of them reads, so that writing
/// them one after another would not be writing them all at once.
pub open spec fn clash(pairs: Seq<(MIRRegId, MIRRegId)>) -> bool {
    exists|i: int, j: int| 0 <= i < pairs.len() && 0 <= j < pairs.len() && #[trigger] pairs[i].0 == #[trigger] pairs[j].1
}

/// A move of `src` into `def`.
pub open spec fn mv(def: MIRRegId, src: MIRRegId, line: usize, col: usize) -> InstV {
    InstV { def: Some(def), kind: KindV::Move(src), line, col }
}

/// The moves for `pairs`: one each where no move disturbs another, and
/// otherwise everything read copied first into registers from `t0` on, and
/// then into place.
pub open spec fn moves_of(pairs: Seq<(MIRRegId, MIRRegId)>, t0: int, line: usize, col: usize) -> Seq<InstV> {
    if !clash(pairs) {
        Seq::new(pairs.len(), |k: int| mv(pairs[k].0, pairs[k].1, line, col))
    } else {
        Seq::new(pairs.len(), |k: int| mv((t0 + k) as MIRRegId, pairs[k].1, line, col)) + Seq::new(
            pairs.len(),
            |k: int| mv(pairs[k].0, (t0 + k) as MIRRegId, line, col),
        )
    }
}

/// What register `r` holds once `moves` have run one after another, where
/// `env` gives what each register held before the first of them: a move puts
/// into its register what its operand holds at that point. The runs this is
/// read on are moves only; any other line is passed over.
pub open spec fn held_after(moves: Seq<InstV>, env: spec_fn(MIRRegId) -> int, r: MIRRegId) -> int
    decreases moves.len(),
{
    if moves.len() == 0 {
        env(r)
    } else {
        let m = moves.last();
        let before = moves.drop_last();
        match m.kind {
            KindV::Move(src) => if m.def == Some(r) {
                held_after(before, env, src)
            } else {
                held_after(before, env, r)
            },
            _ => held_after(before, env, r),
        }
    }
}

/// Whether one of the first `m` of `pairs` writes register `r`.
pub open spec fn writes(pairs: Seq<(MIRRegId, MIRRegId)>, m: int, r: MIRRegId) -> bool {
    exists|k: int| 0 <= k < m && #[trigger] pairs[k].0 == r
}

/// One move for each of `pairs`, in order.
pub open spec fn in_turn(pairs: Seq<(MIRRegId, MIRRegId)>, line: usize, col: usize) -> Seq<InstV> {
    Seq::new(pairs.len(), |k: int| mv(pairs[k].0, pairs[k].1, line, col))
}

proof fn held_after_join(a: Seq<InstV>, b: Seq<InstV>, env: spec_fn(MIRRegId) -> int, r: MIRRegId)
    ensures
        held_after(a + b, env, r) == held_after(b, |x: MIRRegId| held_after(a, env, x), r),
    decreases b.len(),
{
    if b.len() == 0 {
        assert(a + b =~= a);
    } else {
        assert((a + b).drop_last() =~= a + b.drop_last());
        assert((a + b).last() == b.last());
        held_after_join(a, b.drop_last(), env, r);
        match b.last().kind {
            KindV::Move(src) => held_after_join(a, b.drop_last(), env, src),
            _ => {},
        }
    }
}

proof fn in_turn_prefix(
    pairs: Seq<(MIRRegId, MIRRegId)>,
    line: usize,
    col: usize,
    env: spec_fn(MIRRegId) -> int,
    m: nat,
)
    requires
        m <= pairs.len(),
        forall|i: int, j: int| 0 <= i < j < pairs.len() ==> #[trigger] pairs[i].0 != #[trigger] pairs[j].0,
        !clash(pairs),
    ensures
        forall|k: int| 0 <= k < m ==> held_after(in_turn(pairs, line, col).take(m as int), env, #[trigger] pairs[k].0) == env(pairs[k].1),
        forall|r: MIRRegId| !writes(pairs, m as int, r) ==> held_after(in_turn(pairs, line, col).take(m as int), env, r) == env(r),
    decreases m,
{
    let s = in_turn(pairs, line, col);
    if m == 0 {
        assert forall|r: MIRRegId| !writes(pairs, m as int, r) implies held_after(s.take(m as int), env, r) == env(r) by {
            assert(s.take(0).len() == 0);
        }
    } else {
        let p = (m - 1) as nat;
        in_turn_prefix(pairs, line, col, env, p);
        let t = s.take(m as int);
        assert(t.drop_last() =~= s.take(p as int));
        assert(t.last() == mv(pairs[p as int].0, pairs[p as int].1, line, col));
        assert(!writes(pairs, p as int, pairs[p as int].1)) by {
            if writes(pairs, p as int, pairs[p as int].1) {
                let k = choose|k: int| 0 <= k < p && #[trigger] pairs[k].0 == pairs[p as int].1;
                assert(pairs[k].0 == pairs[p as int].1);
            }
        }
        assert forall|k: int| 0 <= k < m implies held_after(t, env, #[trigger] pairs[k].0) == env(pairs[k].1) by {
            if k < p {
                assert(pairs[k].0 != pairs[p as int].0);
            }
        }
        assert forall|r: MIRRegId| !writes(pairs, m as int, r) implies held_after(t, env, r) == env(r) by {
            assert(pairs[p as int].0 != r);
            if writes(pairs, p as int, r) {
                let k = choose|k: int| 0 <= k < p && #[trigger] pairs[k].0 == r;
                assert(pairs[k].0 == r);
            }
        }
    }
}

proof fn in_turn_all(pairs: Seq<(MIRRegId, MIRRegId)>, line: usize, col: usize, env: spec_fn(MIRRegId) -> int)
    requires
        forall|i: int, j: int| 0 <= i < j < pairs.len() ==> #[trigger] pairs[i].0 != #[trigger] pairs[j].0,
        !clash(pairs),
    ensures
        forall|k: int| 0 <= k < pairs.len() ==> held_after(in_turn(pairs, line, col), env, #[trigger] pairs[k].0) == env(pairs[k].1),
        forall|r: MIRRegId| !writes(pairs, pairs.len() as int, r) ==> held_after(in_turn(pairs, line, col), env, r) == env(r),
{
    in_turn_prefix(pairs, line, col, env, pairs.len());
    assert(in_turn(pairs, line, col).take(pairs.len() as int) =~= in_turn(pairs, line, col));
}

/// A block's moves read every value before any is written. Once the moves
/// written for `pairs` have run one after another, each register they write
/// holds what its operand held before the first of them ran, and every other
/// register, the fresh ones from `t0` on aside, holds what it held. This
/// holds where no register is written twice and, where the moves go through
/// fresh registers, those are neither written nor read by `pairs`.
pub proof fn moves_read_at_once(
    pairs: Seq<(MIRRegId, MIRRegId)>,
    t0: int,
    line: usize,
    col: usize,
    env: spec_fn(MIRRegId) -> int,
)
    requires
        forall|i: int, j: int| 0 <= i < j < pairs.len() ==> #[trigger] pairs[i].0 != #[trigger] pairs[j].0,
        clash(pairs) ==> 0 <= t0 && t0 + pairs.len() <= usize::MAX,
        clash(pairs) ==> forall|i: int|
            0 <= i < pairs.len() ==> !(t0 <= #[trigger] pairs[i].0 < t0 + pairs.len()) && !(t0 <= pairs[i].1 < t0
                + pairs.len()),
    ensures
        forall|k: int|
            0 <= k < pairs.len() ==> held_after(moves_of(pairs, t0, line, col), env, #[trigger] pairs[k].0) == env(pairs[k].1),
        forall|r: MIRRegId|
            !writes(pairs, pairs.len() as int, r) && !(clash(pairs) && t0 <= r < t0 + pairs.len()) ==> held_after(
                moves_of(pairs, t0, line, col),
                env,
                r,
            ) == env(r),
{
    let n = pairs.len();
    if !clash(pairs) {
        assert(moves_of(pairs, t0, line, col) =~= in_turn(pairs, line, col));
        in_turn_all(pairs, line, col, env);
    } else {
        let first = Seq::new(n, |k: int| ((t0 + k) as MIRRegId, pairs[k].1));
        let then = Seq::new(n, |k: int| (pairs[k].0, (t0 + k) as MIRRegId));
        assert(moves_of(pairs, t0, line, col) =~= in_turn(first, line, col) + in_turn(then, line, col));
        assert forall|i: int, j: int| 0 <= i < j < first.len() implies #[trigger] first[i].0 != #[trigger] first[j].0 by {}
        assert(!clash(first)) by {
            if clash(first) {
                let (i, j) = choose|i: int, j: int|
                    0 <= i < first.len() && 0 <= j < first.len() && #[trigger] first[i].0 == #[trigger] first[j].1;
                assert(!(t0 <= pairs[j].0 < t0 + n) && !(t0 <= pairs[j].1 < t0 + n));
            }
        }
        assert forall|i: int, j: int| 0 <= i < j < then.len() implies #[trigger] then[i].0 != #[trigger] then[j].0 by {
            assert(pairs[i].0 != pairs[j].0);
        }
        assert(!clash(then)) by {
            if clash(then) {
                let (i, j) = choose|i: int, j: int|
                    0 <= i < then.len() && 0 <= j < then.len() && #[trigger] then[i].0 == #[trigger] then[j].1;
                assert(!(t0 <= pairs[i].0 < t0 + n));
            }
        }
        in_turn_all(first, line, col, env);
        let mid = |x: MIRRegId| held_after(in_turn(first, line, col), env, x);
        in_turn_all(then, line, col, mid);
        assert forall|k: int| 0 <= k < n implies held_after(moves_of(pairs, t0, line, col), env, #[trigger] pairs[k].0) == env(
            pairs[k].1,
        ) by {
            held_after_join(in_turn(first, line, col), in_turn(then, line, col), env, pairs[k].0);
            assert(then[k].0 == pairs[k].0);
            assert(first[k].0 == (t0 + k) as MIRRegId);
        }
        assert forall|r: MIRRegId|
            !writes(pairs, n as int, r) && !(clash(pairs) && t0 <= r < t0 + n) implies held_after(
            moves_of(pairs, t0, line, col),
            env,
            r,
        ) == env(r) by {
            held_after_join(in_turn(first, line, col), in_turn(then, line, col), env, r);
            if writes(then, n as int, r) {
                let k = choose|k: int| 0 <= k < n && #[trigger] then[k].0 == r;
                assert(pairs[k].0 == r);
            }
            if writes(first, n as int, r) {
                let k = choose|k: int| 0 <= k < n && #[trigger] first[k].0 == r;
                assert(first[k].0 == (t0 + k) as MIRRegId);
            }
        }
    }
}

/// How many fresh registers the first `k` blocks take.
pub open spec fn temps_below(bv: Seq<BlockV>, live: Seq<bool>, k: nat) -> nat
    decreases k,
{
    if k == 0 {
        0
    } else {
        let p = owed(bv, live, (k - 1) as MIRBlockId);
        temps_below(bv, live, (k - 1) as nat) + if clash(p) { p.len() } else { 0 }
    }
}

/// The fresh registers the first `k` blocks take: a copy of each register
/// read, in the order read.
pub open spec fn fresh(bv: Seq<BlockV>, live: Seq<bool>, regs: Seq<MIRReg>, k: nat) -> Seq<MIRReg>
    decreases k,
{
    if k == 0 {
        Seq::empty()
    } else {
        let p = owed(bv, live, (k - 1) as MIRBlockId);
        fresh(bv, live, regs, (k - 1) as nat) + if clash(p) {
            Seq::new(p.len(), |j: int| regs[p[j].1 as int])
        } else {
            Seq::empty()
        }
    }
}

/// Block `at` with the moves it owes at its end.
pub open spec fn paid(bv: Seq<BlockV>, live: Seq<bool>, nregs: nat, at: int) -> BlockV {
    let b = bv[at];
    BlockV {
        insts: b.insts + moves_of(
            owed(bv, live, at as MIRBlockId),
            (nregs + temps_below(bv, live, at as nat)) as int,
            b.line,
            b.col,
        ),
        ..b
    }
}

proof fn owed_same(bv: Seq<BlockV>, cv: Seq<BlockV>, live: Seq<bool>, at: MIRBlockId, k: nat)
    requires
        bv.len() == cv.len(),
        forall|j: int| 0 <= j < bv.len() ==> (#[trigger] bv[j]).phis == cv[j].phis,
    ensures
        owed_below(bv, live, at, k) == owed_below(cv, live, at, k),
    decreases k,
{
    if k > 0 {
        owed_same(bv, cv, live, at, (k - 1) as nat);
    }
}

/// What a block's phis ask of block `at`.
fn asked_by(phis: &Vec<MIRPhi>, at: MIRBlockId, out: &mut Vec<(MIRRegId, MIRRegId)>)
    ensures
        final(out)@ == old(out)@ + asked_of(phis@.map_values(|p: MIRPhi| p@), at, phis@.len()),
{
    let ghost pv = phis@.map_values(|p: MIRPhi| p@);
    let ghost start = out@;
    let mut i: usize = 0;
    while i < phis.len()
        invariant
            pv == phis@.map_values(|p: MIRPhi| p@),
            i <= phis@.len(),
            out@ == start + asked_of(pv, at, i as nat),
        decreases phis@.len() - i,
    {
        let p = &phis[i];
        let ghost mid = out@;
        let mut k: usize = 0;
        while k < p.edges.len()
            invariant
                pv == phis@.map_values(|p: MIRPhi| p@),
                i < phis@.len(),
                *p == phis@[i as int],
                k <= p.edges@.len(),
                out@ == mid + asked(p@, at, k as nat),
            decreases p.edges@.len() - k,
        {
            let (from, src) = p.edges[k];
            if from == at {
                out.push((p.def, src));
            }
            proof {
                assert(out@ =~= mid + asked(p@, at, (k + 1) as nat));
            }
            k = k + 1;
        }
        proof {
            assert(pv[i as int] == p@);
            assert(out@ =~= start + asked_of(pv, at, (i + 1) as nat));
        }
        i = i + 1;
    }
}

/// Every move block `at` owes.
fn owed_by(body: &MIRBody, live: &Vec<bool>, at: MIRBlockId) -> (r: Vec<(MIRRegId, MIRRegId)>)
    requires
        live@.len() == body.blocks@.len(),
    ensures
        r@ == owed(blocks_v(body.blocks@), live@, at),
{
    let ghost bv = blocks_v(body.blocks@);
    let mut out: Vec<(MIRRegId, MIRRegId)> = Vec::new();
    let mut k: usize = 0;
    while k < body.blocks.len()
        invariant
            bv == blocks_v(body.blocks@),
            live@.len() == body.blocks@.len(),
            k <= body.blocks@.len(),
            out@ == owed_below(bv, live@, at, k as nat),
        decreases body.blocks@.len() - k,
    {
        let ghost before = out@;
        if live[k] {
            asked_by(&body.blocks[k].phis, at, &mut out);
            proof {
                assert(bv[k as int].phis == body.blocks@[k as int].phis@.map_values(|p: MIRPhi| p@));
            }
        }
        proof {
            assert(out@ =~= owed_below(bv, live@, at, (k + 1) as nat));
        }
        k = k + 1;
    }
    out
}

/// Whether one of `pairs` writes what one of them reads.
fn clashes(pairs: &Vec<(MIRRegId, MIRRegId)>) -> (r: bool)
    ensures
        r == clash(pairs@),
{
    let mut i: usize = 0;
    while i < pairs.len()
        invariant
            i <= pairs@.len(),
            forall|a: int, b: int| 0 <= a < i && 0 <= b < pairs@.len() ==> pairs@[a].0 != pairs@[b].1,
        decreases pairs@.len() - i,
    {
        let mut j: usize = 0;
        while j < pairs.len()
            invariant
                i < pairs@.len(),
                j <= pairs@.len(),
                forall|a: int, b: int| 0 <= a < i && 0 <= b < pairs@.len() ==> pairs@[a].0 != pairs@[b].1,
                forall|b: int| 0 <= b < j ==> pairs@[i as int].0 != pairs@[b].1,
            decreases pairs@.len() - j,
        {
            if pairs[i].0 == pairs[j].1 {
                return true;
            }
            j = j + 1;
        }
        i = i + 1;
    }
    false
}

/// Whether every value a phi takes is a register of the body.
pub open spec fn phis_read_regs(bv: Seq<BlockV>, nregs: nat) -> bool {
    forall|k: int, p: int, e: int|
        0 <= k < bv.len() && 0 <= p < bv[k].phis.len() && 0 <= e < bv[k].phis[p].edges.len() ==> #[trigger] bv[k].phis[p].edges[e].1
            < nregs
}

proof fn asked_reads(p: PhiV, at: MIRBlockId, n: nat, nregs: nat)
    requires
        forall|e: int| 0 <= e < p.edges.len() ==> #[trigger] p.edges[e].1 < nregs,
    ensures
        forall|j: int| 0 <= j < asked(p, at, n).len() ==> #[trigger] asked(p, at, n)[j].1 < nregs,
    decreases n,
{
    if n > 0 && n <= p.edges.len() {
        asked_reads(p, at, (n - 1) as nat, nregs);
        let front = asked(p, at, (n - 1) as nat);
        assert forall|j: int| 0 <= j < asked(p, at, n).len() implies #[trigger] asked(p, at, n)[j].1 < nregs by {
            if j < front.len() {
                assert(asked(p, at, n)[j] == front[j]);
            } else {
                assert(p.edges[n - 1].1 < nregs);
            }
        }
    }
}

proof fn asked_of_reads(phis: Seq<PhiV>, at: MIRBlockId, n: nat, nregs: nat)
    requires
        forall|p: int, e: int| 0 <= p < phis.len() && 0 <= e < phis[p].edges.len() ==> #[trigger] phis[p].edges[e].1 < nregs,
    ensures
        forall|j: int| 0 <= j < asked_of(phis, at, n).len() ==> #[trigger] asked_of(phis, at, n)[j].1 < nregs,
    decreases n,
{
    if n > 0 && n <= phis.len() {
        asked_of_reads(phis, at, (n - 1) as nat, nregs);
        let p = phis[n - 1];
        assert forall|e: int| 0 <= e < p.edges.len() implies #[trigger] p.edges[e].1 < nregs by {
            assert(phis[n - 1].edges[e].1 < nregs);
        }
        asked_reads(p, at, p.edges.len(), nregs);
        let front = asked_of(phis, at, (n - 1) as nat);
        let back = asked(p, at, p.edges.len());
        assert forall|j: int| 0 <= j < asked_of(phis, at, n).len() implies #[trigger] asked_of(phis, at, n)[j].1 < nregs by {
            if j < front.len() {
                assert(asked_of(phis, at, n)[j] == front[j]);
            } else {
                assert(asked_of(phis, at, n)[j] == back[j - front.len()]);
            }
        }
    }
}

proof fn owed_reads(bv: Seq<BlockV>, live: Seq<bool>, at: MIRBlockId, k: nat, nregs: nat)
    requires
        phis_read_regs(bv, nregs),
    ensures
        forall|j: int| 0 <= j < owed_below(bv, live, at, k).len() ==> #[trigger] owed_below(bv, live, at, k)[j].1 < nregs,
    decreases k,
{
    if k > 0 && k <= bv.len() && k <= live.len() {
        owed_reads(bv, live, at, (k - 1) as nat, nregs);
        let front = owed_below(bv, live, at, (k - 1) as nat);
        if live[k - 1] {
            let phis = bv[k - 1].phis;
            assert forall|p: int, e: int| 0 <= p < phis.len() && 0 <= e < phis[p].edges.len() implies #[trigger] phis[p].edges[e].1
                < nregs by {
                assert(bv[k - 1].phis[p].edges[e].1 < nregs);
            }
            asked_of_reads(phis, at, phis.len(), nregs);
            let back = asked_of(phis, at, phis.len());
            assert forall|j: int| 0 <= j < owed_below(bv, live, at, k).len() implies #[trigger] owed_below(bv, live, at, k)[j].1
                < nregs by {
                if j < front.len() {
                    assert(owed_below(bv, live, at, k)[j] == front[j]);
                } else {
                    assert(owed_below(bv, live, at, k)[j] == back[j - front.len()]);
                }
            }
        } else {
            assert(owed_below(bv, live, at, k) =~= front);
        }
    }
}

proof fn fresh_len(bv: Seq<BlockV>, live: Seq<bool>, regs: Seq<MIRReg>, k: nat)
    ensures
        fresh(bv, live, regs, k).len() == temps_below(bv, live, k),
    decreases k,
{
    if k > 0 {
        fresh_len(bv, live, regs, (k - 1) as nat);
    }
}

/// Writes every phi as moves at the end of the blocks it names, and takes the
/// phis away.
#[verifier::rlimit(50)]
fn unphi(body: &mut MIRBody)
    requires
        phis_read_regs(blocks_v(old(body).blocks@), old(body).regs@.len()),
    ensures
        final(body).blocks@.len() == old(body).blocks@.len(),
        forall|at: int|
            0 <= at < final(body).blocks@.len() ==> (#[trigger] final(body).blocks@[at])@ == (BlockV {
                phis: Seq::empty(),
                ..paid(blocks_v(old(body).blocks@), live_v(blocks_v(old(body).blocks@), old(body).entry), old(body).regs@.len(), at)
            }),
        final(body).regs@ == old(body).regs@ + fresh(
            blocks_v(old(body).blocks@),
            live_v(blocks_v(old(body).blocks@), old(body).entry),
            old(body).regs@,
            old(body).blocks@.len(),
        ),
        final(body).symbol == old(body).symbol,
        final(body).entry == old(body).entry,
        final(body).frame == old(body).frame,
        final(body).params == old(body).params,
{
    let live = body.live();
    let n = body.blocks.len();
    let ghost bv = blocks_v(body.blocks@);
    let ghost lv = live@;
    let ghost r0 = body.regs@;
    let nregs = body.regs.len();
    proof {
        assert forall|k: int| 0 <= k < n implies lv[k] == live_v(bv, old(body).entry)[k] by {
            reaches_agree(*old(body), k);
        }
        assert(lv =~= live_v(bv, old(body).entry));
    }
    let mut at: usize = 0;
    while at < n
        invariant
            n == bv.len(),
            lv.len() == n,
            live@ == lv,
            nregs == r0.len(),
            phis_read_regs(bv, nregs as nat),
            body.blocks@.len() == n,
            forall|k: int| 0 <= k < n ==> (#[trigger] body.blocks@[k])@.phis == bv[k].phis,
            forall|k: int| 0 <= k < at ==> (#[trigger] body.blocks@[k])@ == paid(bv, lv, nregs as nat, k),
            forall|k: int| at <= k < n ==> (#[trigger] body.blocks@[k])@ == bv[k],
            body.regs@ == r0 + fresh(bv, lv, r0, at as nat),
            at <= n,
            body.symbol == old(body).symbol,
            body.entry == old(body).entry,
            body.frame == old(body).frame,
            body.params == old(body).params,
        decreases n - at,
    {
        let pairs = owed_by(body, &live, at);
        proof {
            owed_same(blocks_v(body.blocks@), bv, lv, at, n as nat);
            assert(pairs@ == owed(bv, lv, at));
            owed_reads(bv, lv, at, n as nat, nregs as nat);
            fresh_len(bv, lv, r0, at as nat);
        }
        let ghost regs_before = body.regs@;
        let mut blk = body.blocks[at].copy();
        let ghost b0 = blk@;
        let (line, col) = (blk.line, blk.col);
        let ghost p = pairs@;
        if !clashes(&pairs) {
            let mut k: usize = 0;
            while k < pairs.len()
                invariant
                    k <= p.len(),
                    p == pairs@,
                    blk@ == (BlockV { insts: b0.insts + Seq::new(k as nat, |j: int| mv(p[j].0, p[j].1, line, col)), ..b0 }),
                decreases p.len() - k,
            {
                let (d, sv) = pairs[k];
                let one = MIRInst { def: Some(d), kind: Kind::Move(sv), line, col };
                let ghost before = blk.insts@;
                proof {
                    assert(one@ == mv(p[k as int].0, p[k as int].1, line, col));
                }
                blk.insts.push(one);
                proof {
                    assert(blk.insts@ == before.push(one));
                    assert(blk@.insts =~= before.map_values(|i: MIRInst| i@).push(one@));
                }
                proof {
                    assert(blk@.insts =~= b0.insts + Seq::new((k + 1) as nat, |j: int| mv(p[j].0, p[j].1, line, col)));
                }
                k = k + 1;
            }
        } else {
            let t0 = body.regs.len();
            let mut k: usize = 0;
            while k < pairs.len()
                invariant
                    k <= p.len(),
                    p == pairs@,
                    forall|j: int| 0 <= j < p.len() ==> #[trigger] p[j].1 < nregs,
                    nregs <= t0,
                    t0 == regs_before.len(),
                    body.regs@ == regs_before + Seq::new(k as nat, |j: int| r0[p[j].1 as int]),
                    regs_before.subrange(0, nregs as int) == r0,
                    body.blocks@.len() == n,
                    at < n,
                    forall|j: int| 0 <= j < n ==> (#[trigger] body.blocks@[j])@.phis == bv[j].phis,
                    forall|j: int| 0 <= j < at ==> (#[trigger] body.blocks@[j])@ == paid(bv, lv, nregs as nat, j),
                    forall|j: int| at <= j < n ==> (#[trigger] body.blocks@[j])@ == bv[j],
                    body.symbol == old(body).symbol,
                    body.entry == old(body).entry,
                    body.frame == old(body).frame,
                    body.params == old(body).params,
                    blk@ == (BlockV {
                        insts: b0.insts + Seq::new(k as nat, |j: int| mv((t0 + j) as MIRRegId, p[j].1, line, col)),
                        ..b0
                    }),
                decreases p.len() - k,
            {
                let (_, sv) = pairs[k];
                proof {
                    assert(body.regs@[sv as int] == r0[sv as int]);
                }
                let one = body.regs[sv];
                body.regs.push(one);
                let temp = body.regs.len() - 1;
                let one = MIRInst { def: Some(temp), kind: Kind::Move(sv), line, col };
                let ghost before = blk.insts@;
                proof {
                    assert(temp == t0 + k);
                    assert(one@ == mv((t0 + k) as MIRRegId, p[k as int].1, line, col));
                }
                blk.insts.push(one);
                proof {
                    assert(blk@.insts =~= before.map_values(|i: MIRInst| i@).push(one@));
                    assert(body.regs@ =~= regs_before + Seq::new((k + 1) as nat, |j: int| r0[p[j].1 as int]));
                    assert(blk@.insts =~= b0.insts + Seq::new(
                        (k + 1) as nat,
                        |j: int| mv((t0 + j) as MIRRegId, p[j].1, line, col),
                    ));
                }
                k = k + 1;
            }
            let ghost firsts = blk@.insts;
            let now = body.regs.len();
            proof {
                assert(now == t0 + p.len());
            }
            let mut k: usize = 0;
            while k < pairs.len()
                invariant
                    k <= p.len(),
                    p == pairs@,
                    t0 + p.len() <= usize::MAX,
                    blk@ == (BlockV {
                        insts: firsts + Seq::new(k as nat, |j: int| mv(p[j].0, (t0 + j) as MIRRegId, line, col)),
                        ..b0
                    }),
                decreases p.len() - k,
            {
                let (d, _) = pairs[k];
                let one = MIRInst { def: Some(d), kind: Kind::Move(t0 + k), line, col };
                let ghost before = blk.insts@;
                proof {
                    assert(one@ == mv(p[k as int].0, (t0 + k) as MIRRegId, line, col));
                }
                blk.insts.push(one);
                proof {
                    assert(blk@.insts =~= before.map_values(|i: MIRInst| i@).push(one@));
                    assert(blk@.insts =~= firsts + Seq::new(
                        (k + 1) as nat,
                        |j: int| mv(p[j].0, (t0 + j) as MIRRegId, line, col),
                    ));
                }
                k = k + 1;
            }
            proof {
                assert(blk@.insts =~= b0.insts + moves_of(p, t0 as int, line, col));
            }
        }
        proof {
            assert(blk@ == paid(bv, lv, nregs as nat, at as int));
            assert(body.regs@ =~= r0 + fresh(bv, lv, r0, (at + 1) as nat));
        }
        body.blocks.set(at, blk);
        at = at + 1;
    }
    let mut k: usize = 0;
    while k < n
        invariant
            n == bv.len(),
            body.blocks@.len() == n,
            k <= n,
            forall|j: int| 0 <= j < k ==> (#[trigger] body.blocks@[j])@ == (BlockV { phis: Seq::empty(), ..paid(bv, lv, nregs as nat, j) }),
            forall|j: int| k <= j < n ==> (#[trigger] body.blocks@[j])@ == paid(bv, lv, nregs as nat, j),
            body.regs@ == r0 + fresh(bv, lv, r0, n as nat),
            body.symbol == old(body).symbol,
            body.entry == old(body).entry,
            body.frame == old(body).frame,
            body.params == old(body).params,
        decreases n - k,
    {
        let mut blk = body.blocks[k].copy();
        blk.phis = Vec::new();
        proof {
            assert(blk@.phis =~= Seq::<PhiV>::empty());
        }
        body.blocks.set(k, blk);
        k = k + 1;
    }
}

// ---- The body written out ---------------------------------------------------

/// A body with its blocks in an order and its phis gone.
#[derive(Debug, Clone, PartialEq)]
pub struct Linear {
    pub symbol: String,
    pub regs: Vec<MIRReg>,
    pub frame: Vec<MIRSlot>,
    pub params: Vec<MIRRegId>,
    pub lines: Vec<Line>,
}

/// One line of it. A label is where a jump lands and takes no time; the
/// other two are what runs.
#[derive(Debug, Clone, PartialEq)]
pub enum Line {
    Label(MIRBlockId),
    Inst(MIRInst),
    Term(MIRTerm),
}

pub ghost enum LineV {
    Label(MIRBlockId),
    Inst(InstV),
    Term(MIRTerm),
}

impl View for Line {
    type V = LineV;

    open spec fn view(&self) -> LineV {
        match self {
            Line::Label(at) => LineV::Label(*at),
            Line::Inst(inst) => LineV::Inst(inst@),
            Line::Term(term) => LineV::Term(*term),
        }
    }
}

/// The lines, as values.
pub open spec fn lines_v(lines: Seq<Line>) -> Seq<LineV> {
    lines.map_values(|l: Line| l@)
}

/// One block written out: its label, its instructions, its terminator.
pub open spec fn block_lines(b: BlockV, at: MIRBlockId) -> Seq<LineV> {
    seq![LineV::Label(at)] + b.insts.map_values(|i: InstV| LineV::Inst(i)) + seq![LineV::Term(b.term)]
}

/// The blocks named by `ord`, written out one after another.
pub open spec fn written(bv: Seq<BlockV>, ord: Seq<MIRBlockId>) -> Seq<LineV>
    decreases ord.len(),
{
    if ord.len() == 0 {
        Seq::empty()
    } else {
        written(bv, ord.drop_last()) + block_lines(bv[ord.last() as int], ord.last())
    }
}

/// The blocks once every edge that needs one has a block of its own.
pub open spec fn split_blocks(body: MIRBody) -> Seq<BlockV> {
    split_upto(blocks_v(body.blocks@), split_edges(body), split_edges(body).len())
}

/// The blocks once every phi is moves.
pub open spec fn unphied(bv: Seq<BlockV>, entry: MIRBlockId, nregs: nat) -> Seq<BlockV> {
    Seq::new(bv.len(), |at: int| BlockV { phis: Seq::empty(), ..paid(bv, live_v(bv, entry), nregs, at) })
}

/// What `linearise` writes: the split and unphied blocks in reverse
/// postorder, `rpo`, which has every block the entry reaches once, the entry
/// first, and a block after every block that leads to it other than round a
/// loop.
pub open spec fn linearised(body: MIRBody, r: Linear) -> bool {
    let s = split_blocks(body);
    let u = unphied(s, body.entry, body.regs@.len());
    &&& r.symbol == body.symbol
    &&& r.frame@ == body.frame@
    &&& r.params@ == body.params@
    &&& r.regs@ == body.regs@ + fresh(s, live_v(s, body.entry), body.regs@, s.len())
    &&& {
        let ord = rpo(u, body.entry);
        &&& distinct(ord)
        &&& forall|b: int| 0 <= b <= usize::MAX ==> (ord.contains(b as MIRBlockId) <==> reaches_v(s, body.entry, b))
        &&& body.entry < s.len() ==> ord.len() > 0 && ord[0] == body.entry
        &&& forall|i: int, j: int|
            0 <= j <= i < ord.len() && #[trigger] goes_v(s, ord[i] as int, ord[j] as int) ==> leads(s, ord[j] as int, ord[i] as int)
        &&& lines_v(r.lines@) == written(u, ord)
    }
}

/// The blocks whose labels `lines` holds, in the order they stand.
pub open spec fn labels_of(lines: Seq<LineV>) -> Seq<MIRBlockId>
    decreases lines.len(),
{
    if lines.len() == 0 {
        Seq::empty()
    } else {
        labels_of(lines.drop_last()) + match lines.last() {
            LineV::Label(at) => seq![at],
            _ => Seq::empty(),
        }
    }
}

proof fn labels_add(a: Seq<LineV>, b: Seq<LineV>)
    ensures
        labels_of(a + b) == labels_of(a) + labels_of(b),
    decreases b.len(),
{
    if b.len() == 0 {
        assert(a + b =~= a);
        assert(labels_of(a) + labels_of(b) =~= labels_of(a));
    } else {
        labels_add(a, b.drop_last());
        assert((a + b).drop_last() =~= a + b.drop_last());
        assert(labels_of(a + b) =~= labels_of(a) + labels_of(b));
    }
}

proof fn no_labels(lines: Seq<LineV>)
    requires
        forall|i: int| 0 <= i < lines.len() ==> !(#[trigger] lines[i] is Label),
    ensures
        labels_of(lines) == Seq::<MIRBlockId>::empty(),
    decreases lines.len(),
{
    if lines.len() > 0 {
        no_labels(lines.drop_last());
        assert(!(lines[lines.len() - 1] is Label));
        assert(labels_of(lines) =~= Seq::<MIRBlockId>::empty());
    }
}

proof fn labels_written(bv: Seq<BlockV>, ord: Seq<MIRBlockId>)
    requires
        forall|i: int| 0 <= i < ord.len() ==> (#[trigger] ord[i]) < bv.len(),
    ensures
        labels_of(written(bv, ord)) == ord,
        ord.len() > 0 ==> written(bv, ord).len() > 0 && written(bv, ord)[0] == LineV::Label(ord[0]),
    decreases ord.len(),
{
    if ord.len() > 0 {
        let front = ord.drop_last();
        labels_written(bv, front);
        let at = ord.last();
        let b = bv[at as int];
        let head = seq![LineV::Label(at)];
        let body = b.insts.map_values(|i: InstV| LineV::Inst(i));
        let tail = seq![LineV::Term(b.term)];
        no_labels(body);
        no_labels(tail);
        labels_add(head, body);
        labels_add(head + body, tail);
        assert(head.drop_last() =~= Seq::<LineV>::empty());
        assert(labels_of(Seq::<LineV>::empty()) =~= Seq::<MIRBlockId>::empty());
        assert(head.last() == LineV::Label(at));
        assert(labels_of(head) =~= seq![at]);
        assert(block_lines(b, at) == head + body + tail);
        labels_add(written(bv, front), block_lines(b, at));
        assert(labels_of(written(bv, ord)) =~= ord);
        if front.len() == 0 {
            assert(written(bv, front) =~= Seq::<LineV>::empty());
            assert(written(bv, ord)[0] == block_lines(b, at)[0]);
        } else {
            assert(written(bv, ord)[0] == written(bv, front)[0]);
        }
    }
}

/// What `linearise` writes labels each block the entry reaches exactly
/// once and no other, the entry's label first of all lines, and the labels
/// in reverse postorder: a block's label comes after the label of every
/// block that leads to it other than round a loop.
pub proof fn labels_follow_the_order(body: MIRBody, r: Linear)
    requires
        linearised(body, r),
    ensures
        ({
            let s = split_blocks(body);
            let u = unphied(s, body.entry, body.regs@.len());
            let labels = labels_of(lines_v(r.lines@));
            &&& labels == rpo(u, body.entry)
            &&& distinct(labels)
            &&& forall|b: int| 0 <= b <= usize::MAX ==> (labels.contains(b as MIRBlockId) <==> reaches_v(s, body.entry, b))
            &&& body.entry < s.len() ==> r.lines@.len() > 0 && r.lines@[0]@ == LineV::Label(body.entry)
        }),
{
    let s = split_blocks(body);
    let u = unphied(s, body.entry, body.regs@.len());
    let ord = rpo(u, body.entry);
    assert forall|i: int| 0 <= i < ord.len() implies (#[trigger] ord[i]) < u.len() by {
        let b = ord[i] as int;
        assert(ord.contains(ord[i]));
        assert(ord.contains(b as MIRBlockId));
        assert(reaches_v(s, body.entry, b));
        let path = choose|path: Seq<MIRBlockId>| #[trigger] walks_v(s, body.entry, path) && path.last() == b;
        assert(path[path.len() - 1] < s.len());
    }
    labels_written(u, ord);
    if body.entry < s.len() {
        assert(lines_v(r.lines@)[0] == r.lines@[0]@);
    }
}

proof fn split_keeps_reads(bv: Seq<BlockV>, edges: Seq<(MIRBlockId, MIRBlockId)>, i: nat, nregs: nat)
    requires
        phis_read_regs(bv, nregs),
        forall|j: int| 0 <= j < edges.len() ==> #[trigger] edges[j].0 < bv.len() && edges[j].1 < bv.len(),
        i <= edges.len(),
    ensures
        phis_read_regs(split_upto(bv, edges, i), nregs),
        split_upto(bv, edges, i).len() == bv.len() + i,
    decreases i,
{
    if i > 0 {
        split_keeps_reads(bv, edges, (i - 1) as nat, nregs);
        let was = split_upto(bv, edges, (i - 1) as nat);
        let (from, to) = edges[i - 1];
        let new = was.len() as MIRBlockId;
        let f = was[from as int];
        let once = was.update(from as int, BlockV { term: retarget(f.term, to, new), ..f });
        let t = once[to as int];
        let twice = once.update(to as int, BlockV { phis: t.phis.map_values(|p: PhiV| resourced(p, from, new)), ..t });
        let now = split_upto(bv, edges, i);
        assert(now == twice.push(edge_block(f, to)));
        assert forall|k: int, p: int, e: int|
            0 <= k < now.len() && 0 <= p < now[k].phis.len() && 0 <= e < now[k].phis[p].edges.len() implies #[trigger] now[k].phis[p].edges[e].1
                < nregs by {
            if k == to as int {
                assert(now[k].phis[p] == resourced(once[to as int].phis[p], from, new));
                assert(once[to as int].phis == was[to as int].phis);
                assert(now[k].phis[p].edges[e].1 == was[to as int].phis[p].edges[e].1);
            } else if k < was.len() {
                assert(now[k].phis == was[k].phis);
            }
        }
    }
}

/// `ids`, the same, in a list of their own.
fn copy_params(ids: &Vec<MIRRegId>) -> (r: Vec<MIRRegId>)
    ensures
        r@ == ids@,
{
    crate::mir_nodes::copied(ids)
}

/// The body again, every part of it a copy.
fn copy_body(body: &MIRBody) -> (r: MIRBody)
    ensures
        blocks_v(r.blocks@) == blocks_v(body.blocks@),
        r.regs@ == body.regs@,
        r.frame@ == body.frame@,
        r.params@ == body.params@,
        r.symbol == body.symbol,
        r.entry == body.entry,
{
    let mut blocks: Vec<MIRBlock> = Vec::new();
    let mut i: usize = 0;
    while i < body.blocks.len()
        invariant
            i <= body.blocks@.len(),
            blocks@.len() == i,
            forall|j: int| 0 <= j < i ==> (#[trigger] blocks@[j])@ == body.blocks@[j]@,
        decreases body.blocks@.len() - i,
    {
        blocks.push(body.blocks[i].copy());
        i = i + 1;
    }
    let mut regs: Vec<MIRReg> = Vec::new();
    let mut i: usize = 0;
    while i < body.regs.len()
        invariant
            i <= body.regs@.len(),
            regs@ == body.regs@.subrange(0, i as int),
        decreases body.regs@.len() - i,
    {
        regs.push(body.regs[i]);
        proof {
            assert(regs@ =~= body.regs@.subrange(0, i + 1));
        }
        i = i + 1;
    }
    let mut frame: Vec<MIRSlot> = Vec::new();
    let mut i: usize = 0;
    while i < body.frame.len()
        invariant
            i <= body.frame@.len(),
            frame@ == body.frame@.subrange(0, i as int),
        decreases body.frame@.len() - i,
    {
        frame.push(body.frame[i].copy());
        proof {
            assert(frame@ =~= body.frame@.subrange(0, i + 1));
        }
        i = i + 1;
    }
    proof {
        assert(blocks_v(blocks@) =~= blocks_v(body.blocks@));
        assert(body.regs@.subrange(0, body.regs@.len() as int) =~= body.regs@);
        assert(body.frame@.subrange(0, body.frame@.len() as int) =~= body.frame@);
    }
    MIRBody {
        symbol: body.symbol.clone(),
        entry: body.entry,
        blocks,
        regs,
        frame,
        params: copy_params(&body.params),
    }
}

/// The graph written out as one run of instructions: every block the entry
/// reaches once, in reverse postorder, each as its label, its instructions and
/// its terminator, with every phi written as moves at the end of the blocks
/// it names.
pub fn linearise(body: &MIRBody) -> (r: Linear)
    requires
        phis_read_regs(blocks_v(body.blocks@), body.regs@.len()),
    ensures
        linearised(*body, r),
{
    let mut held = copy_body(body);
    let n0 = body.blocks.len();
    let ghost e = split_edges(*body);
    proof {
        assert(split_edges(held) == e) by {
            assert(blocks_v(held.blocks@) == blocks_v(body.blocks@));
            assert forall|k: int| 0 <= k < held.blocks@.len() implies (#[trigger] held.blocks@[k]).term == body.blocks@[k].term
                && held.blocks@[k].phis@.len() == body.blocks@[k].phis@.len() by {
                assert(blocks_v(held.blocks@)[k] == held.blocks@[k]@);
                assert(blocks_v(body.blocks@)[k] == body.blocks@[k]@);
                assert(held.blocks@[k]@.phis.len() == held.blocks@[k].phis@.len());
                assert(body.blocks@[k]@.phis.len() == body.blocks@[k].phis@.len());
            }
            split_edges_same(held, *body);
        }
        edges_bounded(*body, body.blocks@.len());
        assert forall|j: int| 0 <= j < e.len() implies #[trigger] e[j].0 < blocks_v(body.blocks@).len() && e[j].1 < blocks_v(
            body.blocks@,
        ).len() by {
            assert(critical(*body, e[j].0 as int, e[j].1 as int));
        }
        split_keeps_reads(blocks_v(body.blocks@), e, e.len(), body.regs@.len());
    }
    let ghost held0 = held;
    split(&mut held);
    let ghost s = blocks_v(held.blocks@);
    let ghost held1 = held;
    unphi(&mut held);
    let ord = order(&held);
    let ghost u = unphied(s, body.entry, body.regs@.len());
    proof {
        assert forall|at: int| 0 <= at < held.blocks@.len() implies (#[trigger] held.blocks@[at])@ == u[at] by {}
        assert(blocks_v(held.blocks@) =~= u);
    }
    proof {
        assert forall|j: int| 0 <= j < ord@.len() implies #[trigger] ord@[j] < held.blocks@.len() by {
            let b: int = ord@[j] as int;
            assert(ord@[j] == b as MIRBlockId);
            assert(ord@.contains(b as MIRBlockId));
            assert(held.reaches(b));
            let path = choose|path: Seq<MIRBlockId>| #[trigger] held.walks(path) && path.last() == b;
            assert(path[path.len() - 1] < held.blocks@.len());
        }
    }
    let mut lines: Vec<Line> = Vec::new();
    let mut k: usize = 0;
    while k < ord.len()
        invariant
            k <= ord@.len(),
            blocks_v(held.blocks@) == u,
            forall|j: int| 0 <= j < ord@.len() ==> #[trigger] ord@[j] < held.blocks@.len(),
            lines_v(lines@) == written(u, ord@.subrange(0, k as int)),
        decreases ord@.len() - k,
    {
        let at = ord[k];
        let ghost before = lines_v(lines@);
        lines.push(Line::Label(at));
        let blk = &held.blocks[at];
        let mut i: usize = 0;
        while i < blk.insts.len()
            invariant
                i <= blk.insts@.len(),
                blk@ == u[at as int],
                lines_v(lines@) == before + seq![LineV::Label(at)] + blk.insts@.subrange(0, i as int).map_values(
                    |x: MIRInst| LineV::Inst(x@),
                ),
            decreases blk.insts@.len() - i,
        {
            let one = blk.insts[i].copy();
            let ghost pre = lines@;
            lines.push(Line::Inst(one));
            proof {
                assert(lines_v(lines@) =~= lines_v(pre).push(LineV::Inst(one@)));
                assert(blk.insts@.subrange(0, i + 1).map_values(|x: MIRInst| LineV::Inst(x@)) =~= blk.insts@.subrange(
                    0,
                    i as int,
                ).map_values(|x: MIRInst| LineV::Inst(x@)).push(LineV::Inst(blk.insts@[i as int]@)));
                assert(lines_v(lines@) =~= before + seq![LineV::Label(at)] + blk.insts@.subrange(0, i + 1).map_values(
                    |x: MIRInst| LineV::Inst(x@),
                ));
            }
            i = i + 1;
        }
        let ghost mid = lines@;
        lines.push(Line::Term(blk.term));
        proof {
            assert(lines_v(lines@) =~= lines_v(mid).push(LineV::Term(blk.term)));
            assert(blk.term == u[at as int].term);
            let pre = ord@.subrange(0, k as int);
            let next = ord@.subrange(0, k + 1);
            assert(next.drop_last() =~= pre);
            assert(blk.insts@.subrange(0, blk.insts@.len() as int).map_values(|x: MIRInst| LineV::Inst(x@))
                =~= u[at as int].insts.map_values(|i: InstV| LineV::Inst(i)));
            assert(u[at as int].insts == blk.insts@.map_values(|x: MIRInst| x@));
            assert(lines_v(lines@) =~= before + block_lines(u[at as int], at));
            assert(next.last() == at);
            assert(lines_v(lines@) =~= written(u, next));
        }
        k = k + 1;
    }
    proof {
        assert(ord@.subrange(0, ord@.len() as int) =~= ord@);
        assert forall|b: int| 0 <= b <= usize::MAX implies (ord@.contains(b as MIRBlockId) <==> reaches_v(s, body.entry, b)) by {
            reaches_agree(held, b);
            assert forall|k: int| 0 <= k < u.len() implies (#[trigger] u[k]).term == s[k].term by {}
            reaches_same_terms(u, s, body.entry, b);
        }
        assert(blocks_v(held.blocks@).len() == s.len());
        assert(s == split_blocks(*body));
        assert(lines_v(lines@) == written(u, ord@));
        assert forall|i: int, j: int|
            0 <= j <= i < ord@.len() && #[trigger] goes_v(s, ord@[i] as int, ord@[j] as int) implies leads(
            s,
            ord@[j] as int,
            ord@[i] as int,
        ) by {
            assert forall|k: int| 0 <= k < u.len() implies (#[trigger] u[k]).term == s[k].term by {}
            assert(u[ord@[i] as int].term == s[ord@[i] as int].term);
            assert(goes_v(u, ord@[i] as int, ord@[j] as int));
            goes_agree(held, ord@[i] as int, ord@[j] as int);
            assert(held.goes(ord@[i] as int, ord@[j] as int));
            leads_same_terms(u, s, ord@[j] as int, ord@[i] as int);
        }
    }
    let r = Linear { symbol: held.symbol, regs: held.regs, frame: held.frame, params: held.params, lines };
    proof {
        assert(r.symbol == body.symbol);
        assert(r.frame@ == body.frame@);
        assert(r.params@ == body.params@);
        assert(r.regs@ == body.regs@ + fresh(s, live_v(s, body.entry), body.regs@, s.len()));
        assert(lines_v(r.lines@) == written(u, ord@));
    }
    r
}

/// The edges that need a block are a fact about the terminators and whether
/// each block has phis.
proof fn split_edges_same(a: MIRBody, b: MIRBody)
    requires
        a.blocks@.len() == b.blocks@.len(),
        a.entry == b.entry,
        forall|k: int| 0 <= k < a.blocks@.len() ==> (#[trigger] a.blocks@[k]).term == b.blocks@[k].term
            && a.blocks@[k].phis@.len() == b.blocks@[k].phis@.len(),
    ensures
        split_edges(a) == split_edges(b),
{
    assert forall|to: int| #[trigger] a.reaches(to) <==> b.reaches(to) by {
        reaches_agree(a, to);
        reaches_agree(b, to);
        assert(forall|k: int| 0 <= k < a.blocks@.len() ==> blocks_v(a.blocks@)[k].term == blocks_v(b.blocks@)[k].term);
        assert forall|path: Seq<MIRBlockId>| walks_v(blocks_v(a.blocks@), a.entry, path) <==> walks_v(blocks_v(b.blocks@), b.entry, path) by {
            let av = blocks_v(a.blocks@);
            let bv = blocks_v(b.blocks@);
            assert forall|x: int, y: int| goes_v(av, x, y) <==> goes_v(bv, x, y) by {
                if 0 <= x < av.len() {
                    assert(av[x].term == bv[x].term);
                }
            }
        }
    }
    assert forall|from: int, to: int| critical(a, from, to) <==> critical(b, from, to) by {
        if 0 <= from < a.blocks@.len() {
            assert(a.blocks@[from].term == b.blocks@[from].term);
        }
        if 0 <= to < a.blocks@.len() {
            assert(a.blocks@[to].phis@.len() == b.blocks@[to].phis@.len());
        }
    }
    edges_same(a, b, a.blocks@.len());
}

proof fn into_same(a: MIRBody, b: MIRBody, to: int, m: nat)
    requires
        forall|from: int, t: int| critical(a, from, t) <==> critical(b, from, t),
    ensures
        into(a, to, m) == into(b, to, m),
    decreases m,
{
    if m > 0 {
        into_same(a, b, to, (m - 1) as nat);
    }
}

proof fn edges_same(a: MIRBody, b: MIRBody, k: nat)
    requires
        a.blocks@.len() == b.blocks@.len(),
        forall|from: int, t: int| critical(a, from, t) <==> critical(b, from, t),
    ensures
        edges_below(a, k) == edges_below(b, k),
    decreases k,
{
    if k > 0 {
        edges_same(a, b, (k - 1) as nat);
        into_same(a, b, k - 1, a.blocks@.len());
    }
}

/// Every body of a program, written out.
pub fn all(bodies: &Vec<MIRBody>) -> (r: Vec<Linear>)
    requires
        forall|i: int| 0 <= i < bodies@.len() ==> phis_read_regs(blocks_v((#[trigger] bodies@[i]).blocks@), bodies@[i].regs@.len()),
    ensures
        r@.len() == bodies@.len(),
        forall|i: int| 0 <= i < r@.len() ==> linearised(bodies@[i], #[trigger] r@[i]),
{
    let mut out: Vec<Linear> = Vec::new();
    let mut i: usize = 0;
    while i < bodies.len()
        invariant
            i <= bodies@.len(),
            out@.len() == i,
            forall|i: int| 0 <= i < bodies@.len() ==> phis_read_regs(blocks_v((#[trigger] bodies@[i]).blocks@), bodies@[i].regs@.len()),
            forall|j: int| 0 <= j < i ==> linearised(bodies@[j], #[trigger] out@[j]),
        decreases bodies@.len() - i,
    {
        out.push(linearise(&bodies[i]));
        i = i + 1;
    }
    out
}

} // verus!
