//! The rules a MIR body is held to, checked rather than assumed.
//!
//! The SSA ones, because the graph is still SSA: a register is made in one
//! place; a register is read only where the place that made it stands between
//! the read and the entry; a phi names every way into its block, once each.
//! And the ones that are new here, because the arenas are: every register
//! read is in the register arena, every block named is in the block arena,
//! every slot named is in the frame.

use vstd::prelude::*;
use crate::mir_nodes::{kind_uses, uses, MIRBlock, MIRBlockId, MIRBody, MIRInst, MIRInstKind, MIRPhi, MIRRegId};
use crate::spell::{decimal, push_decimal, push_text};

verus! {

// ---- Which blocks stand between each block and the entry ---------------------

/// Whether every way from the entry to `b` goes through `a`, for a block `b`
/// the entry reaches.
pub open spec fn dominates(body: MIRBody, a: int, b: int) -> bool {
    &&& body.reaches(b)
    &&& forall|path: Seq<MIRBlockId>| #[trigger] body.walks(path) && path.last() == b ==> path.contains(a as MIRBlockId)
}

/// What a block's row of the dominator table comes to from the rows of the
/// blocks that reach it: the block itself, and what every way into it from a
/// block the entry reaches agrees on.
pub open spec fn transfer(body: MIRBody, rows: Seq<Seq<bool>>, at: int) -> Seq<bool> {
    Seq::new(
        body.blocks@.len(),
        |b: int|
            b == at || ((exists|p: int| #[trigger] body.goes(p, at) && body.reaches(p)) && forall|p: int|
                #[trigger] body.goes(p, at) && body.reaches(p) ==> rows[p][b]),
    )
}

/// How many of a row are set.
pub open spec fn ones(row: Seq<bool>) -> nat
    decreases row.len(),
{
    if row.len() == 0 {
        0
    } else {
        ones(row.drop_last()) + if row.last() { 1nat } else { 0nat }
    }
}

/// How many of the first `k` rows are set, all together.
pub open spec fn all_ones(rows: Seq<Seq<bool>>, k: int) -> nat
    decreases k,
{
    if k <= 0 {
        0
    } else {
        all_ones(rows, k - 1) + ones(rows[k - 1])
    }
}

/// A row that holds no more than another, and is not it, has fewer set.
proof fn fewer_ones(small: Seq<bool>, big: Seq<bool>)
    requires
        small.len() == big.len(),
        forall|i: int| 0 <= i < small.len() && #[trigger] small[i] ==> big[i],
    ensures
        ones(small) <= ones(big),
        small != big ==> ones(small) < ones(big),
    decreases small.len(),
{
    if small.len() == 0 {
        assert(small =~= big);
    } else {
        assert forall|i: int| 0 <= i < small.drop_last().len() && #[trigger] small.drop_last()[i] implies big.drop_last()[i] by {
            assert(small.drop_last()[i] == small[i]);
            assert(big.drop_last()[i] == big[i]);
        }
        fewer_ones(small.drop_last(), big.drop_last());
        assert(small.last() ==> big.last()) by {
            assert(small[small.len() - 1] ==> big[small.len() - 1]);
        }
        if small != big && small.drop_last() != big.drop_last() {
            assert(ones(small.drop_last()) < ones(big.drop_last()));
        }
        if small != big && small.drop_last() == big.drop_last() {
            assert(small.last() != big.last()) by {
                if small.last() == big.last() {
                    assert forall|i: int| 0 <= i < small.len() implies small[i] == big[i] by {
                        if i < small.len() - 1 {
                            assert(small[i] == small.drop_last()[i]);
                            assert(big[i] == big.drop_last()[i]);
                        }
                    }
                    assert(small =~= big);
                }
            }
        }
    }
}

/// Changing one row to fewer ones leaves fewer all together.
proof fn fewer_all(rows: Seq<Seq<bool>>, at: int, row: Seq<bool>, k: int)
    requires
        0 <= at < rows.len(),
        0 <= k <= rows.len(),
        ones(row) <= ones(rows[at]),
    ensures
        all_ones(rows.update(at, row), k) <= all_ones(rows, k),
        at < k && ones(row) < ones(rows[at]) ==> all_ones(rows.update(at, row), k) < all_ones(rows, k),
    decreases k,
{
    if k > 0 {
        fewer_all(rows, at, row, k - 1);
    }
}

/// A block the entry reaches, other than the entry, is reached through a way
/// in from a block the entry reaches.
proof fn reached_through(body: MIRBody, b: int) -> (p: int)
    requires
        body.reaches(b),
        b != body.entry,
    ensures
        body.goes(p, b),
        body.reaches(p),
{
    let path = choose|path: Seq<MIRBlockId>| #[trigger] body.walks(path) && path.last() == b;
    assert(path.len() >= 2) by {
        if path.len() == 1 {
            assert(path[0] == body.entry);
        }
    }
    let prefix = path.drop_last();
    assert(body.walks(prefix)) by {
        assert forall|i: int| 0 <= i < prefix.len() implies #[trigger] prefix[i] < body.blocks@.len() by {
            assert(prefix[i] == path[i]);
        }
        assert forall|i: int| 0 <= i < prefix.len() - 1 implies body.goes(#[trigger] prefix[i] as int, prefix[i + 1] as int) by {
            assert(prefix[i] == path[i] && prefix[i + 1] == path[i + 1]);
        }
    }
    let p = path[path.len() - 2] as int;
    assert(body.goes(path[path.len() - 2] as int, path[path.len() - 1] as int));
    assert(prefix.last() == p);
    p
}

/// Whatever stands on every way to `b` other than `b` itself stands on every
/// way to each block the entry reaches that leads into `b`.
proof fn dominates_back(body: MIRBody, a: int, b: int, p: int)
    requires
        body.blocks@.len() <= usize::MAX,
        0 <= a < body.blocks@.len(),
        0 <= b < body.blocks@.len(),
        dominates(body, a, b),
        a != b,
        body.goes(p, b),
        body.reaches(p),
    ensures
        dominates(body, a, p),
{
    assert forall|path: Seq<MIRBlockId>| #[trigger] body.walks(path) && path.last() == p implies path.contains(a as MIRBlockId) by {
        let longer = path.push(b as MIRBlockId);
        assert(body.walks(longer)) by {
            assert forall|i: int| 0 <= i < longer.len() implies #[trigger] longer[i] < body.blocks@.len() by {
                if i < path.len() {
                    assert(longer[i] == path[i]);
                }
            }
            assert forall|i: int| 0 <= i < longer.len() - 1 implies body.goes(#[trigger] longer[i] as int, longer[i + 1] as int) by {
                assert(longer[i] == path[i]);
                if i < path.len() - 1 {
                    assert(longer[i + 1] == path[i + 1]);
                }
            }
        }
        assert(longer.last() == b);
        assert(longer[path.len() as int] == b as MIRBlockId);
        assert(longer.contains(a as MIRBlockId));
        let j = choose|j: int| 0 <= j < longer.len() && longer[j] == a as MIRBlockId;
        assert(j < path.len());
        assert(path[j] == longer[j]);
    }
}

/// Where the table is settled -- each row is what its ways in make it, the
/// entry's is the entry alone -- whatever a row holds stands on every way to
/// its block.
proof fn settled_sound(body: MIRBody, rows: Seq<Seq<bool>>, path: Seq<MIRBlockId>, a: int)
    requires
        body.entry < body.blocks@.len(),
        rows.len() == body.blocks@.len(),
        forall|b: int| 0 <= b < rows.len() ==> (#[trigger] rows[b]).len() == body.blocks@.len(),
        forall|x: int| 0 <= x < rows.len() ==> (rows[body.entry as int][x] <==> x == body.entry),
        forall|b: int| 0 <= b < rows.len() && b != body.entry && body.reaches(b) ==> #[trigger] rows[b] == transfer(body, rows, b),
        body.walks(path),
        0 <= a < rows.len(),
        rows[path.last() as int][a],
    ensures
        path.contains(a as MIRBlockId),
    decreases path.len(),
{
    let b = path.last() as int;
    if b == body.entry {
        assert(path[0] == body.entry);
    } else if a == b {
        assert(path[path.len() - 1] == a);
    } else {
        assert(path.len() >= 2) by {
            if path.len() == 1 {
                assert(path[0] == body.entry);
            }
        }
        let prefix = path.drop_last();
        assert(body.walks(prefix)) by {
            assert forall|i: int| 0 <= i < prefix.len() implies #[trigger] prefix[i] < body.blocks@.len() by {
                assert(prefix[i] == path[i]);
            }
            assert forall|i: int| 0 <= i < prefix.len() - 1 implies body.goes(#[trigger] prefix[i] as int, prefix[i + 1] as int) by {
                assert(prefix[i] == path[i] && prefix[i + 1] == path[i + 1]);
            }
        }
        let p = prefix.last() as int;
        assert(body.goes(path[path.len() - 2] as int, path[path.len() - 1] as int));
        assert(body.goes(p, b));
        assert(body.reaches(p));
        assert(body.reaches(b));
        assert(rows[b] == transfer(body, rows, b));
        assert(transfer(body, rows, b)[a]);
        assert(rows[p][a]);
        settled_sound(body, rows, prefix, a);
        let j = choose|j: int| 0 <= j < prefix.len() && prefix[j] == a as MIRBlockId;
        assert(path[j] == prefix[j]);
    }
}

/// A row of `n`, all set or all clear.
fn row_of(n: usize, v: bool) -> (r: Vec<bool>)
    ensures
        r@.len() == n,
        forall|i: int| 0 <= i < n ==> r@[i] == v,
{
    let mut r: Vec<bool> = Vec::new();
    while r.len() < n
        invariant
            r@.len() <= n,
            forall|i: int| 0 <= i < r@.len() ==> r@[i] == v,
        decreases n - r@.len(),
    {
        r.push(v);
    }
    r
}

/// Whether two rows are the one row.
fn same_row(a: &Vec<bool>, b: &Vec<bool>) -> (r: bool)
    ensures
        r == (a@ == b@),
{
    if a.len() != b.len() {
        return false;
    }
    let mut i: usize = 0;
    while i < a.len()
        invariant
            a@.len() == b@.len(),
            i <= a@.len(),
            forall|j: int| 0 <= j < i ==> a@[j] == b@[j],
        decreases a@.len() - i,
    {
        if a[i] != b[i] {
            return false;
        }
        i = i + 1;
    }
    proof {
        assert(a@ =~= b@);
    }
    true
}

/// The rows as values.
pub open spec fn rows_of(doms: Seq<Vec<bool>>) -> Seq<Seq<bool>> {
    doms.map_values(|r: Vec<bool>| r@)
}

/// Whether every row of `ways` among the first `k` that `live` marks sets
/// flag `x`.
pub open spec fn agreed(doms: Seq<Vec<bool>>, ways: Seq<MIRBlockId>, live: Seq<bool>, k: int, x: int) -> bool {
    forall|j: int| 0 <= j < k && live[#[trigger] ways[j] as int] ==> doms[ways[j] as int]@[x]
}

/// What the rows of `ways` agree on, counting only the blocks `live` marks:
/// a flag set where every such row sets it, and whether there was any.
fn meet(doms: &Vec<Vec<bool>>, ways: &Vec<MIRBlockId>, live: &Vec<bool>, n: usize) -> (r: (Vec<bool>, bool))
    requires
        doms@.len() == n,
        forall|b: int| 0 <= b < n ==> (#[trigger] doms@[b])@.len() == n,
        live@.len() == n,
        forall|j: int| 0 <= j < ways@.len() ==> #[trigger] ways@[j] < n,
    ensures
        r.0@.len() == n,
        r.1 <==> exists|j: int| 0 <= j < ways@.len() && live@[#[trigger] ways@[j] as int],
        forall|x: int| 0 <= x < n ==> (r.0@[x] <==> agreed(doms@, ways@, live@, ways@.len() as int, x)),
{
    let mut held = row_of(n, true);
    let mut any = false;
    let mut k: usize = 0;
    while k < ways.len()
        invariant
            doms@.len() == n,
            forall|b: int| 0 <= b < n ==> (#[trigger] doms@[b])@.len() == n,
            live@.len() == n,
            forall|j: int| 0 <= j < ways@.len() ==> #[trigger] ways@[j] < n,
            k <= ways@.len(),
            held@.len() == n,
            any <==> exists|j: int| 0 <= j < k && live@[#[trigger] ways@[j] as int],
            forall|x: int| 0 <= x < n ==> (held@[x] <==> agreed(doms@, ways@, live@, k as int, x)),
        decreases ways@.len() - k,
    {
        let from = ways[k];
        let ghost h0 = held@;
        if live[from] {
            any = true;
            let mut b: usize = 0;
            while b < n
                invariant
                    doms@.len() == n,
                    forall|c: int| 0 <= c < n ==> (#[trigger] doms@[c])@.len() == n,
                    from < n,
                    b <= n,
                    held@.len() == n,
                    h0.len() == n,
                    forall|x: int| 0 <= x < b ==> #[trigger] held@[x] == (h0[x] && doms@[from as int]@[x]),
                    forall|x: int| b <= x < n ==> #[trigger] held@[x] == h0[x],
                decreases n - b,
            {
                let here = held[b];
                let there = doms[from][b];
                proof {
                    assert(here == h0[b as int]);
                    assert(there == doms@[from as int]@[b as int]);
                }
                let v = here && there;
                let ghost was = held@;
                held.set(b, v);
                let ghost old_b = b;
                b = b + 1;
                proof {
                    assert(held@[old_b as int] == v);
                    assert forall|x: int| 0 <= x < b implies #[trigger] held@[x] == (h0[x] && doms@[from as int]@[x]) by {
                        if x < old_b {
                            assert(held@[x] == was[x]);
                            assert(was[x] == (h0[x] && doms@[from as int]@[x]));
                        } else {
                            assert(x == old_b);
                        }
                    }
                    assert forall|x: int| b <= x < n implies #[trigger] held@[x] == h0[x] by {
                        assert(held@[x] == was[x]);
                    }
                }
            }
        }
        proof {
            assert(ways@[k as int] == from);
            assert forall|x: int| 0 <= x < n implies (held@[x] <==> agreed(doms@, ways@, live@, k + 1, x)) by {
                assert(held@[x] == (h0[x] && (live@[from as int] ==> doms@[from as int]@[x])));
                assert(h0[x] <==> agreed(doms@, ways@, live@, k as int, x));
                if agreed(doms@, ways@, live@, k + 1, x) {
                    assert(agreed(doms@, ways@, live@, k as int, x));
                    if live@[from as int] {
                        assert(live@[ways@[k as int] as int]);
                    }
                }
                if h0[x] && (live@[from as int] ==> doms@[from as int]@[x]) {
                    assert forall|j: int| 0 <= j < k + 1 && live@[#[trigger] ways@[j] as int] implies doms@[ways@[j] as int]@[x] by {
                        if j < k {
                            assert(agreed(doms@, ways@, live@, k as int, x));
                        }
                    }
                }
            }
            if live@[from as int] {
                assert(live@[ways@[k as int] as int]);
            }
            if any {
                if !live@[from as int] {
                    let j = choose|j: int| 0 <= j < k + 1 && live@[#[trigger] ways@[j] as int];
                    assert(j < k);
                }
            }
        }
        k = k + 1;
    }
    (held, any)
}

/// The table's row for `at`, worked out from the ways into it, is its
/// transfer.
proof fn met_is_transfer(
    body: MIRBody,
    rows: Seq<Seq<bool>>,
    ways: Seq<MIRBlockId>,
    live: Seq<bool>,
    at: int,
    any: bool,
    held: Seq<bool>,
)
    requires
        rows.len() == body.blocks@.len(),
        0 <= at < body.blocks@.len(),
        live.len() == body.blocks@.len(),
        forall|b: int| 0 <= b < live.len() ==> (#[trigger] live[b] <==> body.reaches(b)),
        forall|x: int| #[trigger] ways.contains(x as MIRBlockId) && 0 <= x <= usize::MAX <==> body.goes(x, at),
        forall|j: int| 0 <= j < ways.len() ==> #[trigger] ways[j] < body.blocks@.len(),
        any <==> exists|j: int| 0 <= j < ways.len() && live[#[trigger] ways[j] as int],
        held.len() == body.blocks@.len(),
        forall|x: int|
            0 <= x < held.len() ==> (held[x] <==> x == at || (any && forall|j: int|
                0 <= j < ways.len() && live[#[trigger] ways[j] as int] ==> rows[ways[j] as int][x])),
    ensures
        held == transfer(body, rows, at),
{
    let n = body.blocks@.len();
    let has = exists|p: int| #[trigger] body.goes(p, at) && body.reaches(p);
    assert(any == has) by {
        if any {
            let j = choose|j: int| 0 <= j < ways.len() && live[#[trigger] ways[j] as int];
            let x = ways[j] as int;
            assert(ways.contains(x as MIRBlockId));
            assert(body.goes(x, at) && body.reaches(x));
        }
        if has {
            let p = choose|p: int| #[trigger] body.goes(p, at) && body.reaches(p);
            assert(0 <= p < n);
            assert(ways.contains(p as MIRBlockId));
            let j = choose|j: int| 0 <= j < ways.len() && ways[j] == p as MIRBlockId;
            assert(live[ways[j] as int]);
        }
    }
    assert forall|x: int| 0 <= x < n implies held[x] == transfer(body, rows, at)[x] by {
        if x != at && any {
            let by_list = forall|j: int| 0 <= j < ways.len() && live[#[trigger] ways[j] as int] ==> rows[ways[j] as int][x];
            let by_graph = forall|p: int| #[trigger] body.goes(p, at) && body.reaches(p) ==> rows[p][x];
            if by_list {
                assert forall|p: int| #[trigger] body.goes(p, at) && body.reaches(p) implies rows[p][x] by {
                    assert(0 <= p < n);
                    assert(ways.contains(p as MIRBlockId));
                    let j = choose|j: int| 0 <= j < ways.len() && ways[j] == p as MIRBlockId;
                    assert(live[ways[j] as int]);
                }
            }
            if by_graph {
                assert forall|j: int| 0 <= j < ways.len() && live[#[trigger] ways[j] as int] implies rows[ways[j] as int][x] by {
                    let y = ways[j] as int;
                    assert(ways.contains(y as MIRBlockId));
                    assert(body.goes(y, at));
                }
            }
        }
    }
    assert(held =~= transfer(body, rows, at));
}

/// What the table keeps true while it narrows: the entry's row is the entry
/// alone, a row of a block nothing reaches is clear, every row holds what
/// dominates its block and what its ways in make it.
pub open spec fn narrowing(body: MIRBody, rows: Seq<Seq<bool>>, live: Seq<bool>) -> bool {
    let n = body.blocks@.len();
    &&& rows.len() == n
    &&& forall|b: int| 0 <= b < n ==> (#[trigger] rows[b]).len() == n
    &&& forall|x: int| 0 <= x < n ==> (rows[body.entry as int][x] <==> x == body.entry)
    &&& forall|b: int, x: int| 0 <= b < n && 0 <= x < n && !live[b] ==> !rows[b][x]
    &&& forall|b: int, a: int| 0 <= b < n && 0 <= a < n && dominates(body, a, b) ==> rows[b][a]
    &&& forall|b: int, x: int|
        0 <= b < n && 0 <= x < n && b != body.entry && body.reaches(b) && #[trigger] transfer(body, rows, b)[x] ==> rows[b][x]
}

/// Narrowing one row of a block the entry reaches to its transfer keeps the
/// table narrowing, and leaves fewer flags set where it changed anything.
proof fn narrow(body: MIRBody, rows: Seq<Seq<bool>>, live: Seq<bool>, at: int)
    requires
        body.blocks@.len() <= usize::MAX,
        body.entry < body.blocks@.len(),
        live.len() == body.blocks@.len(),
        forall|b: int| 0 <= b < live.len() ==> (#[trigger] live[b] <==> body.reaches(b)),
        narrowing(body, rows, live),
        0 <= at < body.blocks@.len(),
        at != body.entry,
        body.reaches(at),
    ensures
        narrowing(body, rows.update(at, transfer(body, rows, at)), live),
        transfer(body, rows, at) != rows[at] ==> all_ones(rows.update(at, transfer(body, rows, at)), rows.len() as int) < all_ones(
            rows,
            rows.len() as int,
        ),
{
    let n = body.blocks@.len();
    let held = transfer(body, rows, at);
    let now = rows.update(at, held);
    fewer_ones(held, rows[at]);
    fewer_all(rows, at, held, n as int);
    assert forall|b: int, x: int|
        0 <= b < n && 0 <= x < n && b != body.entry && body.reaches(b) && #[trigger] transfer(body, now, b)[x] implies now[b][x] by {
        if x != b {
            assert forall|p: int| #[trigger] body.goes(p, b) && body.reaches(p) implies rows[p][x] by {
                assert(now[p][x]);
                if p == at {
                    assert(held[x]);
                }
            }
        }
        assert(transfer(body, rows, b)[x]);
    }
    assert forall|b: int, a: int| 0 <= b < n && 0 <= a < n && dominates(body, a, b) implies now[b][a] by {
        if b == at && a != b {
            let p = reached_through(body, b);
            assert forall|q: int| #[trigger] body.goes(q, b) && body.reaches(q) implies rows[q][a] by {
                assert(0 <= q < n);
                dominates_back(body, a, b, q);
            }
        }
    }
    assert forall|b: int, x: int| 0 <= b < n && 0 <= x < n && !live[b] implies !now[b][x] by {
        if b == at {
            assert(live[at]);
        }
    }
}

/// Which blocks stand between each block and the entry, as a row of flags
/// per block: `doms[b][a]` is "every way to `b` goes through `a`". A block
/// nothing reaches dominates nothing and is dominated by nothing.
///
/// The ordinary iterative answer: everything dominates everything to begin
/// with, the entry dominates only itself, and each round narrows a block to
/// itself and what all its ways in agree on, until a round changes nothing.
#[verifier::spinoff_prover]
#[verifier::rlimit(50)]
fn dominators(body: &MIRBody, preds: &Vec<Vec<MIRBlockId>>, live: &Vec<bool>) -> (r: Vec<Vec<bool>>)
    requires
        body.entry < body.blocks@.len(),
        preds@.len() == body.blocks@.len(),
        forall|to: int, x: int|
            0 <= to < preds@.len() ==> (#[trigger] preds@[to]@.contains(x as MIRBlockId) && 0 <= x <= usize::MAX <==> body.goes(x, to)),
        live@.len() == body.blocks@.len(),
        forall|at: int| 0 <= at < live@.len() ==> (#[trigger] live@[at] <==> body.reaches(at)),
    ensures
        r@.len() == body.blocks@.len(),
        forall|b: int| 0 <= b < r@.len() ==> (#[trigger] r@[b])@.len() == body.blocks@.len(),
        forall|b: int, a: int| 0 <= b < r@.len() && 0 <= a < r@.len() ==> (r@[b]@[a] <==> dominates(*body, a, b)),
{
    let n = body.blocks.len();
    let entry = body.entry;
    let mut doms: Vec<Vec<bool>> = Vec::new();
    let mut at: usize = 0;
    while at < n
        invariant
            n == body.blocks@.len(),
            live@.len() == n,
            at <= n,
            doms@.len() == at,
            forall|b: int| 0 <= b < at ==> (#[trigger] doms@[b])@.len() == n,
            forall|b: int, x: int| 0 <= b < at && 0 <= x < n ==> (doms@[b]@[x] <==> live@[b]),
        decreases n - at,
    {
        let row = row_of(n, live[at]);
        doms.push(row);
        at = at + 1;
    }
    let mut first = row_of(n, false);
    first.set(entry, true);
    doms.set(entry, first);
    proof {
        let path = seq![entry];
        assert(body.walks(path));
        assert(live@[entry as int]);
        let rows = rows_of(doms@);
        assert forall|b: int, a: int| 0 <= b < n && 0 <= a < n && dominates(*body, a, b) implies rows[b][a] by {
            if b == entry {
                assert(path.contains(a as MIRBlockId));
            }
        }
        assert(narrowing(*body, rows, live@));
    }
    let mut again = true;
    while again
        invariant
            n == body.blocks@.len(),
            entry == body.entry,
            entry < n,
            preds@.len() == n,
            forall|to: int, x: int|
                0 <= to < preds@.len() ==> (#[trigger] preds@[to]@.contains(x as MIRBlockId) && 0 <= x <= usize::MAX <==> body.goes(x, to)),
            live@.len() == n,
            forall|at: int| 0 <= at < live@.len() ==> (#[trigger] live@[at] <==> body.reaches(at)),
            doms@.len() == n,
            forall|b: int| 0 <= b < n ==> (#[trigger] doms@[b])@.len() == n,
            narrowing(*body, rows_of(doms@), live@),
            !again ==> forall|b: int| 0 <= b < n && b != entry && body.reaches(b) ==> rows_of(doms@)[b] == transfer(
                *body,
                rows_of(doms@),
                b,
            ),
        decreases all_ones(rows_of(doms@), n as int) + if again { 1int } else { 0int },
    {
        again = false;
        let ghost start = rows_of(doms@);
        let mut at: usize = 0;
        while at < n
            invariant
                n == body.blocks@.len(),
                entry == body.entry,
                entry < n,
                preds@.len() == n,
                forall|to: int, x: int|
                    0 <= to < preds@.len() ==> (#[trigger] preds@[to]@.contains(x as MIRBlockId) && 0 <= x <= usize::MAX <==> body.goes(x, to)),
                live@.len() == n,
                forall|at: int| 0 <= at < live@.len() ==> (#[trigger] live@[at] <==> body.reaches(at)),
                at <= n,
                doms@.len() == n,
                start.len() == n,
                forall|b: int| 0 <= b < n ==> (#[trigger] doms@[b])@.len() == n,
                narrowing(*body, rows_of(doms@), live@),
                !again ==> rows_of(doms@) == start,
                !again ==> forall|b: int| 0 <= b < at && b != entry && body.reaches(b) ==> rows_of(doms@)[b] == transfer(
                    *body,
                    rows_of(doms@),
                    b,
                ),
                again ==> all_ones(rows_of(doms@), n as int) < all_ones(start, n as int),
            decreases n - at,
        {
            if live[at] && at != entry {
                let ghost rows = rows_of(doms@);
                proof {
                    assert forall|j: int| 0 <= j < preds@[at as int]@.len() implies #[trigger] preds@[at as int]@[j] < n by {
                        let y = preds@[at as int]@[j] as int;
                        assert(preds@[at as int]@.contains(y as MIRBlockId));
                        assert(body.goes(y, at as int));
                    }
                }
                let (mut held, any) = meet(&doms, &preds[at], live, n);
                if !any {
                    held = row_of(n, false);
                }
                held.set(at, true);
                proof {
                    assert forall|x: int| 0 <= x < n implies (held@[x] <==> x == at || (any && forall|j: int|
                        0 <= j < preds@[at as int]@.len() && live@[#[trigger] preds@[at as int]@[j] as int] ==> rows[preds@[at as int]@[j] as int][x])) by {
                        if x != at && any {
                            assert forall|j: int| 0 <= j < preds@[at as int]@.len() implies rows[preds@[at as int]@[j] as int] == doms@[preds@[at as int]@[j] as int]@ by {}
                        }
                    }
                    met_is_transfer(*body, rows, preds@[at as int]@, live@, at as int, any, held@);
                    narrow(*body, rows, live@, at as int);
                }
                if !same_row(&held, &doms[at]) {
                    doms.set(at, held);
                    again = true;
                    proof {
                        assert(rows_of(doms@) =~= rows.update(at as int, transfer(*body, rows, at as int)));
                    }
                }
            }
            at = at + 1;
        }
    }
    proof {
        let rows = rows_of(doms@);
        assert forall|b: int, a: int| 0 <= b < n && 0 <= a < n implies (doms@[b]@[a] <==> dominates(*body, a, b)) by {
            if doms@[b]@[a] {
                assert(rows[b] == doms@[b]@);
                assert(live@[b]);
                assert forall|path: Seq<MIRBlockId>| #[trigger] body.walks(path) && path.last() == b implies path.contains(
                    a as MIRBlockId,
                ) by {
                    settled_sound(*body, rows, path, a);
                }
            }
        }
    }
    doms
}

// ---- Order within a block -----------------------------------------------------

/// The registers the first `k` of `insts` make.
pub open spec fn defs_of(insts: Seq<MIRInst>, k: int) -> Seq<MIRRegId>
    decreases k,
{
    if k <= 0 {
        Seq::empty()
    } else {
        defs_of(insts, k - 1) + match insts[k - 1].def {
            Some(d) => seq![d],
            None => Seq::empty(),
        }
    }
}

/// What stands before instruction `i` of block `at` runs: the block's phis,
/// the parameters where it is the entry, and what the instructions above it
/// made.
pub open spec fn standing(body: MIRBody, at: int, i: int) -> Seq<MIRRegId> {
    let b = body.blocks@[at];
    b.phis@.map_values(|p: MIRPhi| p.def) + (if at == body.entry { body.params@ } else { Seq::empty() }) + defs_of(b.insts@, i)
}

/// Whether instruction `i` of block `at` reads `r` above the instruction of
/// the same block that makes it.
pub open spec fn above(body: MIRBody, at: int, i: int, r: MIRRegId) -> bool {
    let b = body.blocks@[at];
    defs_of(b.insts@, b.insts@.len() as int).contains(r) && !standing(body, at, i).contains(r)
}

/// The complaint for one such read.
pub open spec fn above_text(at: int, r: MIRRegId) -> Seq<char> {
    "block "@ + decimal(at as nat) + " reads %"@ + decimal(r as nat) + " above the instruction that makes it"@
}

/// The complaints about the first `k` of `rs`, read by instruction `i` of
/// block `at`.
pub open spec fn above_reads(body: MIRBody, at: int, i: int, rs: Seq<MIRRegId>, k: int) -> Seq<Seq<char>>
    decreases k,
{
    if k <= 0 {
        Seq::empty()
    } else {
        above_reads(body, at, i, rs, k - 1) + if above(body, at, i, rs[k - 1]) { seq![above_text(at, rs[k - 1])] } else { Seq::empty() }
    }
}

/// The complaints about the first `k` instructions of block `at`.
pub open spec fn above_insts(body: MIRBody, at: int, k: int) -> Seq<Seq<char>>
    decreases k,
{
    if k <= 0 {
        Seq::empty()
    } else {
        let rs = kind_uses(body.blocks@[at].insts@[k - 1].kind);
        above_insts(body, at, k - 1) + above_reads(body, at, k - 1, rs, rs.len() as int)
    }
}

/// The complaints about order in the first `k` blocks, those the entry
/// reaches.
pub open spec fn order_complaints(body: MIRBody, k: int) -> Seq<Seq<char>>
    decreases k,
{
    if k <= 0 {
        Seq::empty()
    } else {
        order_complaints(body, k - 1) + if body.reaches(k - 1) {
            above_insts(body, k - 1, body.blocks@[k - 1].insts@.len() as int)
        } else {
            Seq::empty()
        }
    }
}

/// The texts of `msgs`.
pub open spec fn texts(msgs: Seq<String>) -> Seq<Seq<char>> {
    msgs.map_values(|m: String| m@)
}

/// Whether `regs` holds `r`.
fn holds_reg(regs: &Vec<MIRRegId>, r: MIRRegId) -> (b: bool)
    ensures
        b == regs@.contains(r),
{
    let mut i: usize = 0;
    while i < regs.len()
        invariant
            i <= regs@.len(),
            forall|j: int| 0 <= j < i ==> regs@[j] != r,
        decreases regs@.len() - i,
    {
        if regs[i] == r {
            return true;
        }
        i = i + 1;
    }
    false
}

/// The registers the instructions of `b` make, in order.
fn made_in(b: &MIRBlock) -> (r: Vec<MIRRegId>)
    ensures
        r@ == defs_of(b.insts@, b.insts@.len() as int),
{
    let mut out: Vec<MIRRegId> = Vec::new();
    let mut i: usize = 0;
    while i < b.insts.len()
        invariant
            i <= b.insts@.len(),
            out@ == defs_of(b.insts@, i as int),
        decreases b.insts@.len() - i,
    {
        match b.insts[i].def {
            Some(d) => out.push(d),
            None => {},
        }
        proof {
            assert(out@ =~= defs_of(b.insts@, i + 1));
        }
        i = i + 1;
    }
    out
}

/// The second rule, within one block: what a register reads has to have
/// been made further up the same block, where it was made in that block at
/// all. A phi is read before the block begins, so every phi of a block is
/// already made when its first instruction runs. Empty is the answer for a
/// body in order.
pub fn verify_order(body: &MIRBody) -> (r: Vec<String>)
    ensures
        texts(r@) == order_complaints(*body, body.blocks@.len() as int),
{
    let mut wrong: Vec<String> = Vec::new();
    let live = body.live();
    let mut at: usize = 0;
    while at < body.blocks.len()
        invariant
            at <= body.blocks@.len(),
            live@.len() == body.blocks@.len(),
            forall|b: int| 0 <= b < live@.len() ==> (#[trigger] live@[b] <==> body.reaches(b)),
            texts(wrong@) == order_complaints(*body, at as int),
        decreases body.blocks@.len() - at,
    {
        if live[at] {
            let block = &body.blocks[at];
            let mut standing_now: Vec<MIRRegId> = Vec::new();
            let mut p: usize = 0;
            while p < block.phis.len()
                invariant
                    p <= block.phis@.len(),
                    standing_now@ == block.phis@.subrange(0, p as int).map_values(|q: MIRPhi| q.def),
                decreases block.phis@.len() - p,
            {
                standing_now.push(block.phis[p].def);
                proof {
                    assert(standing_now@ =~= block.phis@.subrange(0, p + 1).map_values(|q: MIRPhi| q.def));
                }
                p = p + 1;
            }
            proof {
                assert(block.phis@.subrange(0, block.phis@.len() as int) =~= block.phis@);
            }
            if at == body.entry {
                let mut q: usize = 0;
                let ghost base = standing_now@;
                while q < body.params.len()
                    invariant
                        q <= body.params@.len(),
                        standing_now@ == base + body.params@.subrange(0, q as int),
                    decreases body.params@.len() - q,
                {
                    standing_now.push(body.params[q]);
                    proof {
                        assert(standing_now@ =~= base + body.params@.subrange(0, q + 1));
                    }
                    q = q + 1;
                }
                proof {
                    assert(body.params@.subrange(0, body.params@.len() as int) =~= body.params@);
                }
            }
            let made_here = made_in(block);
            let ghost head = texts(wrong@);
            let mut i: usize = 0;
            while i < block.insts.len()
                invariant
                    *block == body.blocks@[at as int],
                    at < body.blocks@.len(),
                    i <= block.insts@.len(),
                    made_here@ == defs_of(block.insts@, block.insts@.len() as int),
                    standing_now@ == standing(*body, at as int, i as int),
                    texts(wrong@) == head + above_insts(*body, at as int, i as int),
                decreases block.insts@.len() - i,
            {
                let reads = uses(&block.insts[i].kind);
                let ghost mid = texts(wrong@);
                let mut k: usize = 0;
                while k < reads.len()
                    invariant
                        *block == body.blocks@[at as int],
                        at < body.blocks@.len(),
                        i < block.insts@.len(),
                        reads@ == kind_uses(block.insts@[i as int].kind),
                        made_here@ == defs_of(block.insts@, block.insts@.len() as int),
                        standing_now@ == standing(*body, at as int, i as int),
                        k <= reads@.len(),
                        texts(wrong@) == mid + above_reads(*body, at as int, i as int, reads@, k as int),
                    decreases reads@.len() - k,
                {
                    let reg = reads[k];
                    let ghost before = wrong@;
                    if holds_reg(&made_here, reg) && !holds_reg(&standing_now, reg) {
                        let mut said = String::new();
                        push_text(&mut said, "block ");
                        push_decimal(&mut said, at);
                        push_text(&mut said, " reads %");
                        push_decimal(&mut said, reg);
                        push_text(&mut said, " above the instruction that makes it");
                        proof {
                            assert(said@ =~= above_text(at as int, reg));
                        }
                        let ghost t = said@;
                        wrong.push(said);
                        proof {
                            assert(texts(wrong@) =~= texts(before).push(t));
                        }
                    }
                    proof {
                        assert(reads@[k as int] == reg);
                        assert(texts(wrong@) =~= mid + above_reads(*body, at as int, i as int, reads@, k + 1));
                    }
                    k = k + 1;
                }
                match block.insts[i].def {
                    Some(d) => standing_now.push(d),
                    None => {},
                }
                proof {
                    assert(standing_now@ =~= standing(*body, at as int, i + 1));
                    assert(texts(wrong@) =~= head + above_insts(*body, at as int, i + 1));
                }
                i = i + 1;
            }
        }
        proof {
            assert(texts(wrong@) =~= order_complaints(*body, at + 1));
        }
        at = at + 1;
    }
    wrong
}

// ---- Made once, and made somewhere -------------------------------------------------

/// Where each register of a block is made: its phis, then its instructions.
pub open spec fn block_defs(b: MIRBlock, at: int) -> Seq<(MIRRegId, MIRBlockId)> {
    b.phis@.map_values(|p: MIRPhi| (p.def, at as MIRBlockId)) + defs_of(b.insts@, b.insts@.len() as int).map_values(
        |d: MIRRegId| (d, at as MIRBlockId),
    )
}

/// Where each register is made in the first `k` blocks, those the entry
/// reaches.
pub open spec fn live_defs(body: MIRBody, k: int) -> Seq<(MIRRegId, MIRBlockId)>
    decreases k,
{
    if k <= 0 {
        Seq::empty()
    } else {
        live_defs(body, k - 1) + if body.reaches(k - 1) { block_defs(body.blocks@[k - 1], k - 1) } else { Seq::empty() }
    }
}

/// Every place a register is made, in the order they are checked: a
/// parameter is made by the caller, which is the entry as far as anything
/// here can see.
pub open spec fn all_defs(body: MIRBody) -> Seq<(MIRRegId, MIRBlockId)> {
    body.params@.map_values(|p: MIRRegId| (p, body.entry)) + live_defs(body, body.blocks@.len() as int)
}

/// Where the last of the first `k` of `d` that makes `r` stands.
pub open spec fn made_at(d: Seq<(MIRRegId, MIRBlockId)>, r: int, k: int) -> Option<MIRBlockId>
    decreases k,
{
    if k <= 0 {
        None
    } else if d[k - 1].0 == r {
        Some(d[k - 1].1)
    } else {
        made_at(d, r, k - 1)
    }
}

/// Where `r` is made, for a register of the arena.
pub open spec fn made_of(d: Seq<(MIRRegId, MIRBlockId)>, r: int, nregs: int) -> Option<MIRBlockId> {
    if 0 <= r < nregs { made_at(d, r, d.len() as int) } else { None }
}

/// The complaint about the `i`th of `d`: a register outside the arena, or
/// one already made.
pub open spec fn once_complaint(d: Seq<(MIRRegId, MIRBlockId)>, i: int, nregs: int) -> Seq<Seq<char>> {
    if d[i].0 >= nregs {
        seq!["register %"@ + decimal(d[i].0 as nat) + " is not in the arena"@]
    } else if made_at(d, d[i].0 as int, i) is Some {
        seq!["register %"@ + decimal(d[i].0 as nat) + " is made more than once"@]
    } else {
        Seq::empty()
    }
}

pub open spec fn once_complaints(d: Seq<(MIRRegId, MIRBlockId)>, nregs: int) -> Seq<Seq<char>>
    decreases d.len(),
{
    if d.len() == 0 {
        Seq::empty()
    } else {
        once_complaints(d.drop_last(), nregs) + once_complaint(d, d.len() - 1, nregs)
    }
}

proof fn made_at_prefix(d: Seq<(MIRRegId, MIRBlockId)>, e: Seq<(MIRRegId, MIRBlockId)>, r: int, k: int)
    requires
        0 <= k <= d.len(),
        k <= e.len(),
        forall|i: int| 0 <= i < k ==> d[i] == e[i],
    ensures
        made_at(d, r, k) == made_at(e, r, k),
    decreases k,
{
    if k > 0 {
        made_at_prefix(d, e, r, k - 1);
    }
}

/// Marks `reg` made in `at`, with the complaint it earns.
fn once(
    made: &mut Vec<Option<MIRBlockId>>,
    wrong: &mut Vec<String>,
    reg: MIRRegId,
    at: MIRBlockId,
    Ghost(seen): Ghost<Seq<(MIRRegId, MIRBlockId)>>,
)
    requires
        forall|r: int| 0 <= r < old(made)@.len() ==> old(made)@[r] == made_at(seen, r, seen.len() as int),
        texts(old(wrong)@) == once_complaints(seen, old(made)@.len() as int),
    ensures
        final(made)@.len() == old(made)@.len(),
        forall|r: int| 0 <= r < final(made)@.len() ==> final(made)@[r] == made_at(seen.push((reg, at)), r, seen.len() + 1 as int),
        texts(final(wrong)@) == once_complaints(seen.push((reg, at)), old(made)@.len() as int),
{
    let ghost s2 = seen.push((reg, at));
    let ghost nregs = made@.len() as int;
    proof {
        assert(s2.drop_last() =~= seen);
        assert forall|r: int| 0 <= r < made@.len() implies made_at(s2, r, seen.len() as int) == made_at(seen, r, seen.len() as int) by {
            made_at_prefix(s2, seen, r, seen.len() as int);
        }
    }
    if reg >= made.len() {
        let mut said = String::new();
        push_text(&mut said, "register %");
        push_decimal(&mut said, reg);
        push_text(&mut said, " is not in the arena");
        let ghost t = said@;
        let ghost before = wrong@;
        wrong.push(said);
        proof {
            assert(texts(wrong@) =~= texts(before).push(t));
            assert(texts(wrong@) =~= once_complaints(s2, nregs));
        }
        return;
    }
    let ghost before = wrong@;
    match made[reg] {
        Some(_) => {
            let mut said = String::new();
            push_text(&mut said, "register %");
            push_decimal(&mut said, reg);
            push_text(&mut said, " is made more than once");
            let ghost t = said@;
            wrong.push(said);
            proof {
                assert(texts(wrong@) =~= texts(before).push(t));
            }
        },
        None => {},
    }
    made.set(reg, Some(at));
    proof {
        assert(texts(wrong@) =~= once_complaints(s2, nregs));
    }
}

/// Where every register is made, and the complaints about registers made
/// twice or outside the arena.
fn made_everywhere(body: &MIRBody, live: &Vec<bool>) -> (r: (Vec<Option<MIRBlockId>>, Vec<String>))
    requires
        live@.len() == body.blocks@.len(),
        forall|b: int| 0 <= b < live@.len() ==> (#[trigger] live@[b] <==> body.reaches(b)),
    ensures
        r.0@.len() == body.regs@.len(),
        forall|q: int| 0 <= q < r.0@.len() ==> r.0@[q] == made_of(all_defs(*body), q, body.regs@.len() as int),
        texts(r.1@) == once_complaints(all_defs(*body), body.regs@.len() as int),
{
    let nregs = body.regs.len();
    let mut made: Vec<Option<MIRBlockId>> = Vec::new();
    while made.len() < nregs
        invariant
            made@.len() <= nregs,
            forall|q: int| 0 <= q < made@.len() ==> made@[q] is None,
        decreases nregs - made@.len(),
    {
        made.push(None);
    }
    let mut wrong: Vec<String> = Vec::new();
    let ghost mut seen: Seq<(MIRRegId, MIRBlockId)> = Seq::empty();
    let mut q: usize = 0;
    while q < body.params.len()
        invariant
            made@.len() == nregs,
            nregs == body.regs@.len(),
            q <= body.params@.len(),
            seen == body.params@.subrange(0, q as int).map_values(|p: MIRRegId| (p, body.entry)),
            forall|r: int| 0 <= r < made@.len() ==> made@[r] == made_at(seen, r, seen.len() as int),
            texts(wrong@) == once_complaints(seen, nregs as int),
        decreases body.params@.len() - q,
    {
        once(&mut made, &mut wrong, body.params[q], body.entry, Ghost(seen));
        proof {
            seen = seen.push((body.params@[q as int], body.entry));
            assert(seen =~= body.params@.subrange(0, q + 1).map_values(|p: MIRRegId| (p, body.entry)));
        }
        q = q + 1;
    }
    proof {
        assert(body.params@.subrange(0, body.params@.len() as int) =~= body.params@);
    }
    let ghost base = seen;
    let mut at: usize = 0;
    while at < body.blocks.len()
        invariant
            made@.len() == nregs,
            nregs == body.regs@.len(),
            at <= body.blocks@.len(),
            live@.len() == body.blocks@.len(),
            forall|b: int| 0 <= b < live@.len() ==> (#[trigger] live@[b] <==> body.reaches(b)),
            base == body.params@.map_values(|p: MIRRegId| (p, body.entry)),
            seen == base + live_defs(*body, at as int),
            forall|r: int| 0 <= r < made@.len() ==> made@[r] == made_at(seen, r, seen.len() as int),
            texts(wrong@) == once_complaints(seen, nregs as int),
        decreases body.blocks@.len() - at,
    {
        if live[at] {
            let block = &body.blocks[at];
            let ghost start = seen;
            let mut p: usize = 0;
            while p < block.phis.len()
                invariant
                    made@.len() == nregs,
                    *block == body.blocks@[at as int],
                    p <= block.phis@.len(),
                    seen == start + block.phis@.subrange(0, p as int).map_values(|x: MIRPhi| (x.def, at as MIRBlockId)),
                    forall|r: int| 0 <= r < made@.len() ==> made@[r] == made_at(seen, r, seen.len() as int),
                    texts(wrong@) == once_complaints(seen, nregs as int),
                decreases block.phis@.len() - p,
            {
                once(&mut made, &mut wrong, block.phis[p].def, at, Ghost(seen));
                proof {
                    seen = seen.push((block.phis@[p as int].def, at as MIRBlockId));
                    assert(seen =~= start + block.phis@.subrange(0, p + 1).map_values(|x: MIRPhi| (x.def, at as MIRBlockId)));
                }
                p = p + 1;
            }
            proof {
                assert(block.phis@.subrange(0, block.phis@.len() as int) =~= block.phis@);
            }
            let ghost mid = seen;
            let mut i: usize = 0;
            while i < block.insts.len()
                invariant
                    made@.len() == nregs,
                    *block == body.blocks@[at as int],
                    i <= block.insts@.len(),
                    seen == mid + defs_of(block.insts@, i as int).map_values(|d: MIRRegId| (d, at as MIRBlockId)),
                    forall|r: int| 0 <= r < made@.len() ==> made@[r] == made_at(seen, r, seen.len() as int),
                    texts(wrong@) == once_complaints(seen, nregs as int),
                decreases block.insts@.len() - i,
            {
                match block.insts[i].def {
                    Some(d) => {
                        once(&mut made, &mut wrong, d, at, Ghost(seen));
                        proof {
                            seen = seen.push((d, at as MIRBlockId));
                        }
                    },
                    None => {},
                }
                proof {
                    assert(seen =~= mid + defs_of(block.insts@, i + 1).map_values(|d: MIRRegId| (d, at as MIRBlockId)));
                }
                i = i + 1;
            }
            proof {
                assert(seen =~= base + live_defs(*body, at + 1));
            }
        } else {
            proof {
                assert(seen =~= base + live_defs(*body, at + 1));
            }
        }
        at = at + 1;
    }
    (made, wrong)
}

// ---- Every name reaches something ---------------------------------------------------

/// The complaints about the first `k` of `rs` that are outside an arena of
/// `size`: "block `at`", then `said`, then the name, then what it is not in.
pub open spec fn outside(at: int, rs: Seq<usize>, size: int, said: Seq<char>, not_in: Seq<char>, k: int) -> Seq<Seq<char>>
    decreases k,
{
    if k <= 0 {
        Seq::empty()
    } else {
        outside(at, rs, size, said, not_in, k - 1) + if rs[k - 1] >= size {
            seq!["block "@ + decimal(at as nat) + said + decimal(rs[k - 1] as nat) + not_in]
        } else {
            Seq::empty()
        }
    }
}

/// The complaint about a slot named outside the frame.
pub open spec fn slot_complaint(body: MIRBody, at: int, kind: MIRInstKind) -> Seq<Seq<char>> {
    match kind {
        MIRInstKind::Frame(slot) => if slot >= body.frame@.len() {
            seq!["block "@ + decimal(at as nat) + " names slot $"@ + decimal(slot as nat) + ", which is not in the frame"@]
        } else {
            Seq::empty()
        },
        _ => Seq::empty(),
    }
}

pub open spec fn arena_insts(body: MIRBody, at: int, k: int) -> Seq<Seq<char>>
    decreases k,
{
    if k <= 0 {
        Seq::empty()
    } else {
        let kind = body.blocks@[at].insts@[k - 1].kind;
        let rs = kind_uses(kind);
        arena_insts(body, at, k - 1) + outside(at, rs, body.regs@.len() as int, " reads %"@, ", which is not in the arena"@, rs.len() as int)
            + slot_complaint(body, at, kind)
    }
}

/// The complaints about one block: its instructions, then what it ends by
/// reading and where it goes.
pub open spec fn arena_block(body: MIRBody, at: int) -> Seq<Seq<char>> {
    let b = body.blocks@[at];
    let reads = b.term.spec_uses();
    let goes = b.term.spec_targets();
    arena_insts(body, at, b.insts@.len() as int) + outside(
        at,
        reads,
        body.regs@.len() as int,
        " ends reading %"@,
        ", which is not in the arena"@,
        reads.len() as int,
    ) + outside(at, goes, body.blocks@.len() as int, " goes to block "@, ", which is not in the arena"@, goes.len() as int)
}

pub open spec fn arena_complaints(body: MIRBody, k: int) -> Seq<Seq<char>>
    decreases k,
{
    if k <= 0 {
        Seq::empty()
    } else {
        arena_complaints(body, k - 1) + if body.reaches(k - 1) { arena_block(body, k - 1) } else { Seq::empty() }
    }
}

fn name_outside(at: usize, rs: &Vec<usize>, size: usize, said: &str, not_in: &str, wrong: &mut Vec<String>)
    ensures
        texts(final(wrong)@) == texts(old(wrong)@) + outside(at as int, rs@, size as int, said@, not_in@, rs@.len() as int),
{
    let mut k: usize = 0;
    while k < rs.len()
        invariant
            k <= rs@.len(),
            texts(wrong@) == texts(old(wrong)@) + outside(at as int, rs@, size as int, said@, not_in@, k as int),
        decreases rs@.len() - k,
    {
        let ghost before = wrong@;
        if rs[k] >= size {
            let mut one = String::new();
            push_text(&mut one, "block ");
            push_decimal(&mut one, at);
            push_text(&mut one, said);
            push_decimal(&mut one, rs[k]);
            push_text(&mut one, not_in);
            let ghost t = one@;
            wrong.push(one);
            proof {
                assert(texts(wrong@) =~= texts(before).push(t));
            }
        }
        proof {
            assert(texts(wrong@) =~= texts(old(wrong)@) + outside(at as int, rs@, size as int, said@, not_in@, k + 1));
        }
        k = k + 1;
    }
}

/// The complaints about names outside their arenas, in the blocks the entry
/// reaches.
fn in_arenas(body: &MIRBody, live: &Vec<bool>) -> (r: Vec<String>)
    requires
        live@.len() == body.blocks@.len(),
        forall|b: int| 0 <= b < live@.len() ==> (#[trigger] live@[b] <==> body.reaches(b)),
    ensures
        texts(r@) == arena_complaints(*body, body.blocks@.len() as int),
{
    let mut wrong: Vec<String> = Vec::new();
    let mut at: usize = 0;
    while at < body.blocks.len()
        invariant
            at <= body.blocks@.len(),
            live@.len() == body.blocks@.len(),
            forall|b: int| 0 <= b < live@.len() ==> (#[trigger] live@[b] <==> body.reaches(b)),
            texts(wrong@) == arena_complaints(*body, at as int),
        decreases body.blocks@.len() - at,
    {
        if live[at] {
            let block = &body.blocks[at];
            let ghost head = texts(wrong@);
            let mut i: usize = 0;
            while i < block.insts.len()
                invariant
                    *block == body.blocks@[at as int],
                    i <= block.insts@.len(),
                    texts(wrong@) == head + arena_insts(*body, at as int, i as int),
                decreases block.insts@.len() - i,
            {
                let reads = uses(&block.insts[i].kind);
                name_outside(at, &reads, body.regs.len(), " reads %", ", which is not in the arena", &mut wrong);
                let ghost mid = wrong@;
                match &block.insts[i].kind {
                    MIRInstKind::Frame(slot) => {
                        if *slot >= body.frame.len() {
                            let mut one = String::new();
                            push_text(&mut one, "block ");
                            push_decimal(&mut one, at);
                            push_text(&mut one, " names slot $");
                            push_decimal(&mut one, *slot);
                            push_text(&mut one, ", which is not in the frame");
                            let ghost t = one@;
                            wrong.push(one);
                            proof {
                                assert(texts(wrong@) =~= texts(mid).push(t));
                            }
                        }
                    },
                    _ => {},
                }
                proof {
                    assert(texts(wrong@) =~= head + arena_insts(*body, at as int, i + 1));
                }
                i = i + 1;
            }
            let reads = block.term.uses();
            name_outside(at, &reads, body.regs.len(), " ends reading %", ", which is not in the arena", &mut wrong);
            let goes = block.term.targets();
            name_outside(at, &goes, body.blocks.len(), " goes to block ", ", which is not in the arena", &mut wrong);
        }
        proof {
            assert(texts(wrong@) =~= arena_complaints(*body, at + 1));
        }
        at = at + 1;
    }
    wrong
}

// ---- A phi says where each of its operands came from ------------------------------

/// Lowest first.
pub open spec fn ascending() -> spec_fn(usize, usize) -> bool {
    |a: usize, b: usize| a <= b
}

proof fn ascending_orders()
    ensures
        vstd::relations::total_ordering(ascending()),
{
    let leq = ascending();
    assert(vstd::relations::reflexive(leq));
    assert(vstd::relations::antisymmetric(leq));
    assert(vstd::relations::transitive(leq));
    assert(vstd::relations::strongly_connected(leq));
}

/// `v`, lowest first.
fn sorted_copy(v: &Vec<usize>) -> (r: Vec<usize>)
    ensures
        r@ == v@.sort_by(ascending()),
{
    broadcast use vstd::seq_lib::group_to_multiset_ensures;
    let mut out: Vec<usize> = Vec::new();
    let mut i: usize = 0;
    while i < v.len()
        invariant
            i <= v@.len(),
            vstd::relations::sorted_by(out@, ascending()),
            out@.to_multiset() == v@.subrange(0, i as int).to_multiset(),
        decreases v@.len() - i,
    {
        let x = v[i];
        let mut p: usize = 0;
        while p < out.len() && out[p] <= x
            invariant
                p <= out@.len(),
                forall|j: int| 0 <= j < p ==> out@[j] <= x,
            decreases out@.len() - p,
        {
            p = p + 1;
        }
        let ghost before = out@;
        out.insert(p, x);
        proof {
            assert forall|a: int, b: int| 0 <= a < b < out@.len() implies #[trigger] (ascending())(out@[a], out@[b]) by {
                assert((ascending())(before[0], before[0]) || before.len() == 0);
                if a < p && b < p {
                    assert(out@[a] == before[a] && out@[b] == before[b]);
                    assert((ascending())(before[a], before[b]));
                } else if a < p && b == p {
                    assert(out@[a] == before[a]);
                } else if a < p && b > p {
                    assert(out@[a] == before[a] && out@[b] == before[b - 1]);
                    assert((ascending())(before[a], before[b - 1]));
                } else if a == p {
                    assert(out@[b] == before[b - 1]);
                    assert(before[p as int] > x);
                    if b - 1 > p {
                        assert((ascending())(before[p as int], before[b - 1]));
                    }
                } else {
                    assert(out@[a] == before[a - 1] && out@[b] == before[b - 1]);
                    assert((ascending())(before[a - 1], before[b - 1]));
                }
            }
            vstd::seq_lib::to_multiset_insert(before, p as int, x);
            assert(v@.subrange(0, i + 1) =~= v@.subrange(0, i as int).push(x));
            vstd::seq_lib::to_multiset_build(v@.subrange(0, i as int), x);
        }
        i = i + 1;
    }
    proof {
        assert(v@.subrange(0, v@.len() as int) =~= v@);
        ascending_orders();
        v@.lemma_sort_by_ensures(ascending());
        vstd::seq_lib::lemma_sorted_unique(out@, v@.sort_by(ascending()), ascending());
    }
    out
}

/// A list as a test prints one: between brackets, parted by commas.
pub open spec fn list_text(s: Seq<usize>) -> Seq<char> {
    "["@ + items_text(s) + "]"@
}

pub open spec fn items_text(s: Seq<usize>) -> Seq<char>
    decreases s.len(),
{
    if s.len() == 0 {
        Seq::empty()
    } else if s.len() == 1 {
        decimal(s[0] as nat)
    } else {
        items_text(s.drop_last()) + ", "@ + decimal(s.last() as nat)
    }
}

fn push_list(out: &mut String, s: &Vec<usize>)
    ensures
        final(out)@ == old(out)@ + list_text(s@),
{
    push_text(out, "[");
    let ghost head = out@;
    let mut i: usize = 0;
    while i < s.len()
        invariant
            i <= s@.len(),
            out@ == head + items_text(s@.subrange(0, i as int)),
        decreases s@.len() - i,
    {
        if i > 0 {
            push_text(out, ", ");
        }
        push_decimal(out, s[i]);
        proof {
            let next = s@.subrange(0, i + 1);
            assert(next.drop_last() =~= s@.subrange(0, i as int));
            assert(out@ =~= head + items_text(next));
        }
        i = i + 1;
    }
    push_text(out, "]");
    proof {
        assert(s@.subrange(0, s@.len() as int) =~= s@);
        assert(out@ =~= old(out)@ + list_text(s@));
    }
}

/// Where the ways into a phi say they came from.
pub open spec fn sources(edges: Seq<(MIRBlockId, MIRRegId)>) -> Seq<usize> {
    edges.map_values(|e: (MIRBlockId, MIRRegId)| e.0)
}

/// The complaint about a phi whose ways in are not the block's, each once.
pub open spec fn phi_complaint(body: MIRBody, at: int, p: MIRPhi) -> Seq<Seq<char>> {
    let named = sources(p.edges@).sort_by(ascending());
    let want = body.preds_upto(at, body.blocks@.len() as int);
    if named != want {
        seq![
            "the phi for %"@ + decimal(p.def as nat) + " in block "@ + decimal(at as nat) + " names "@ + list_text(named)
                + ", and the ways in are "@ + list_text(want),
        ]
    } else {
        Seq::empty()
    }
}

pub open spec fn phi_block(body: MIRBody, at: int, k: int) -> Seq<Seq<char>>
    decreases k,
{
    if k <= 0 {
        Seq::empty()
    } else {
        phi_block(body, at, k - 1) + phi_complaint(body, at, body.blocks@[at].phis@[k - 1])
    }
}

pub open spec fn phi_complaints(body: MIRBody, k: int) -> Seq<Seq<char>>
    decreases k,
{
    if k <= 0 {
        Seq::empty()
    } else {
        phi_complaints(body, k - 1) + if body.reaches(k - 1) {
            phi_block(body, k - 1, body.blocks@[k - 1].phis@.len() as int)
        } else {
            Seq::empty()
        }
    }
}

/// The complaints about phis that do not name every way in once.
fn phis_name_ways(body: &MIRBody, live: &Vec<bool>, preds: &Vec<Vec<MIRBlockId>>) -> (r: Vec<String>)
    requires
        live@.len() == body.blocks@.len(),
        forall|b: int| 0 <= b < live@.len() ==> (#[trigger] live@[b] <==> body.reaches(b)),
        preds@.len() == body.blocks@.len(),
        forall|to: int| 0 <= to < preds@.len() ==> (#[trigger] preds@[to])@ == body.preds_upto(to, body.blocks@.len() as int),
    ensures
        texts(r@) == phi_complaints(*body, body.blocks@.len() as int),
{
    let mut wrong: Vec<String> = Vec::new();
    let mut at: usize = 0;
    while at < body.blocks.len()
        invariant
            at <= body.blocks@.len(),
            live@.len() == body.blocks@.len(),
            forall|b: int| 0 <= b < live@.len() ==> (#[trigger] live@[b] <==> body.reaches(b)),
            preds@.len() == body.blocks@.len(),
            forall|to: int| 0 <= to < preds@.len() ==> (#[trigger] preds@[to])@ == body.preds_upto(to, body.blocks@.len() as int),
            texts(wrong@) == phi_complaints(*body, at as int),
        decreases body.blocks@.len() - at,
    {
        if live[at] {
            let block = &body.blocks[at];
            let ghost head = texts(wrong@);
            let want = &preds[at];
            let mut k: usize = 0;
            while k < block.phis.len()
                invariant
                    *block == body.blocks@[at as int],
                    at < body.blocks@.len(),
                    want@ == body.preds_upto(at as int, body.blocks@.len() as int),
                    k <= block.phis@.len(),
                    texts(wrong@) == head + phi_block(*body, at as int, k as int),
                decreases block.phis@.len() - k,
            {
                let phi = &block.phis[k];
                let mut from: Vec<usize> = Vec::new();
                let mut e: usize = 0;
                while e < phi.edges.len()
                    invariant
                        e <= phi.edges@.len(),
                        from@ == sources(phi.edges@.subrange(0, e as int)),
                    decreases phi.edges@.len() - e,
                {
                    from.push(phi.edges[e].0);
                    proof {
                        assert(from@ =~= sources(phi.edges@.subrange(0, e + 1)));
                    }
                    e = e + 1;
                }
                proof {
                    assert(phi.edges@.subrange(0, phi.edges@.len() as int) =~= phi.edges@);
                }
                let named = sorted_copy(&from);
                let ghost before = wrong@;
                if !same_list(&named, want) {
                    let mut one = String::new();
                    push_text(&mut one, "the phi for %");
                    push_decimal(&mut one, phi.def);
                    push_text(&mut one, " in block ");
                    push_decimal(&mut one, at);
                    push_text(&mut one, " names ");
                    push_list(&mut one, &named);
                    push_text(&mut one, ", and the ways in are ");
                    push_list(&mut one, want);
                    let ghost t = one@;
                    wrong.push(one);
                    proof {
                        assert(texts(wrong@) =~= texts(before).push(t));
                        assert(t =~= phi_complaint(*body, at as int, *phi)[0]);
                    }
                }
                proof {
                    assert(texts(wrong@) =~= head + phi_block(*body, at as int, k + 1));
                }
                k = k + 1;
            }
        }
        proof {
            assert(texts(wrong@) =~= phi_complaints(*body, at + 1));
        }
        at = at + 1;
    }
    wrong
}

/// Whether two lists are the one list.
fn same_list(a: &Vec<usize>, b: &Vec<usize>) -> (r: bool)
    ensures
        r == (a@ == b@),
{
    if a.len() != b.len() {
        return false;
    }
    let mut i: usize = 0;
    while i < a.len()
        invariant
            a@.len() == b@.len(),
            i <= a@.len(),
            forall|j: int| 0 <= j < i ==> a@[j] == b@[j],
        decreases a@.len() - i,
    {
        if a[i] != b[i] {
            return false;
        }
        i = i + 1;
    }
    proof {
        assert(a@ =~= b@);
    }
    true
}

// ---- A read only where what it reads has been made ---------------------------------

/// The complaint about the way into phi `p` of block `at` from `e.0`
/// bringing `e.1`: nothing makes it, or what makes it does not stand before
/// the block it came along.
pub open spec fn phi_read_complaint(
    body: MIRBody,
    d: Seq<(MIRRegId, MIRBlockId)>,
    at: int,
    p: MIRPhi,
    e: (MIRBlockId, MIRRegId),
) -> Seq<Seq<char>> {
    let head = "the phi for %"@ + decimal(p.def as nat) + " in block "@ + decimal(at as nat) + " reads %"@ + decimal(e.1 as nat);
    match made_of(d, e.1 as int, body.regs@.len() as int) {
        None => seq![head + ", which nothing makes"@],
        Some(m) => if e.0 < body.blocks@.len() && !dominates(body, m as int, e.0 as int) {
            seq![head + " along block "@ + decimal(e.0 as nat) + ", which does not reach it"@]
        } else {
            Seq::empty()
        },
    }
}

pub open spec fn phi_reads(body: MIRBody, d: Seq<(MIRRegId, MIRBlockId)>, at: int, p: MIRPhi, k: int) -> Seq<Seq<char>>
    decreases k,
{
    if k <= 0 {
        Seq::empty()
    } else {
        phi_reads(body, d, at, p, k - 1) + phi_read_complaint(body, d, at, p, p.edges@[k - 1])
    }
}

pub open spec fn phis_reads(body: MIRBody, d: Seq<(MIRRegId, MIRBlockId)>, at: int, k: int) -> Seq<Seq<char>>
    decreases k,
{
    if k <= 0 {
        Seq::empty()
    } else {
        let p = body.blocks@[at].phis@[k - 1];
        phis_reads(body, d, at, k - 1) + phi_reads(body, d, at, p, p.edges@.len() as int)
    }
}

/// The complaint about block `at` reading `r`: a register of the arena that
/// nothing makes, or one made in a block that does not stand before it.
pub open spec fn read_complaint(body: MIRBody, d: Seq<(MIRRegId, MIRBlockId)>, at: int, r: MIRRegId) -> Seq<Seq<char>> {
    let head = "block "@ + decimal(at as nat) + " reads %"@ + decimal(r as nat);
    match made_of(d, r as int, body.regs@.len() as int) {
        None => if r < body.regs@.len() { seq![head + ", which nothing makes"@] } else { Seq::empty() },
        Some(m) => if !dominates(body, m as int, at) {
            seq![head + ", which is made in block "@ + decimal(m as nat) + " and does not reach it"@]
        } else {
            Seq::empty()
        },
    }
}

pub open spec fn read_complaints(body: MIRBody, d: Seq<(MIRRegId, MIRBlockId)>, at: int, rs: Seq<MIRRegId>, k: int) -> Seq<Seq<char>>
    decreases k,
{
    if k <= 0 {
        Seq::empty()
    } else {
        read_complaints(body, d, at, rs, k - 1) + read_complaint(body, d, at, rs[k - 1])
    }
}

/// What the first `k` instructions of `insts` read, in order.
pub open spec fn insts_reads(insts: Seq<MIRInst>, k: int) -> Seq<MIRRegId>
    decreases k,
{
    if k <= 0 {
        Seq::empty()
    } else {
        insts_reads(insts, k - 1) + kind_uses(insts[k - 1].kind)
    }
}

/// Everything a block reads, its instructions and then how it ends.
pub open spec fn block_reads(b: MIRBlock) -> Seq<MIRRegId> {
    insts_reads(b.insts@, b.insts@.len() as int) + b.term.spec_uses()
}

pub open spec fn reach_block(body: MIRBody, d: Seq<(MIRRegId, MIRBlockId)>, at: int) -> Seq<Seq<char>> {
    let b = body.blocks@[at];
    phis_reads(body, d, at, b.phis@.len() as int) + read_complaints(body, d, at, block_reads(b), block_reads(b).len() as int)
}

pub open spec fn reach_complaints(body: MIRBody, d: Seq<(MIRRegId, MIRBlockId)>, k: int) -> Seq<Seq<char>>
    decreases k,
{
    if k <= 0 {
        Seq::empty()
    } else {
        reach_complaints(body, d, k - 1) + if body.reaches(k - 1) { reach_block(body, d, k - 1) } else { Seq::empty() }
    }
}

/// Where `reg` is made, where it is a register of the arena and something
/// makes it.
fn made_where(made: &Vec<Option<MIRBlockId>>, reg: MIRRegId) -> (r: Option<MIRBlockId>)
    ensures
        r == (if reg < made@.len() { made@[reg as int] } else { None }),
{
    if reg < made.len() {
        made[reg]
    } else {
        None
    }
}

/// The complaints about reads where what they read has not been made.
#[verifier::rlimit(30)]
fn reads_where_made(
    body: &MIRBody,
    live: &Vec<bool>,
    made: &Vec<Option<MIRBlockId>>,
    doms: &Vec<Vec<bool>>,
    Ghost(d): Ghost<Seq<(MIRRegId, MIRBlockId)>>,
) -> (r: Vec<String>)
    requires
        live@.len() == body.blocks@.len(),
        forall|b: int| 0 <= b < live@.len() ==> (#[trigger] live@[b] <==> body.reaches(b)),
        made@.len() == body.regs@.len(),
        forall|q: int| 0 <= q < made@.len() ==> made@[q] == made_of(d, q, body.regs@.len() as int),
        forall|q: int| 0 <= q < made@.len() && made@[q] is Some ==> made@[q]->0 < body.blocks@.len(),
        doms@.len() == body.blocks@.len(),
        forall|b: int| 0 <= b < doms@.len() ==> (#[trigger] doms@[b])@.len() == body.blocks@.len(),
        forall|b: int, a: int| 0 <= b < doms@.len() && 0 <= a < doms@.len() ==> (doms@[b]@[a] <==> dominates(*body, a, b)),
    ensures
        texts(r@) == reach_complaints(*body, d, body.blocks@.len() as int),
{
    let n = body.blocks.len();
    let mut wrong: Vec<String> = Vec::new();
    let mut at: usize = 0;
    while at < n
        invariant
            n == body.blocks@.len(),
            at <= n,
            live@.len() == n,
            forall|b: int| 0 <= b < live@.len() ==> (#[trigger] live@[b] <==> body.reaches(b)),
            made@.len() == body.regs@.len(),
            forall|q: int| 0 <= q < made@.len() ==> made@[q] == made_of(d, q, body.regs@.len() as int),
            forall|q: int| 0 <= q < made@.len() && made@[q] is Some ==> made@[q]->0 < n,
            doms@.len() == n,
            forall|b: int| 0 <= b < n ==> (#[trigger] doms@[b])@.len() == n,
            forall|b: int, a: int| 0 <= b < n && 0 <= a < n ==> (doms@[b]@[a] <==> dominates(*body, a, b)),
            texts(wrong@) == reach_complaints(*body, d, at as int),
        decreases n - at,
    {
        if live[at] {
            let block = &body.blocks[at];
            let ghost head = texts(wrong@);
            let mut k: usize = 0;
            while k < block.phis.len()
                invariant
                    n == body.blocks@.len(),
                    *block == body.blocks@[at as int],
                    at < n,
                    made@.len() == body.regs@.len(),
                    forall|q: int| 0 <= q < made@.len() ==> made@[q] == made_of(d, q, body.regs@.len() as int),
                    forall|q: int| 0 <= q < made@.len() && made@[q] is Some ==> made@[q]->0 < n,
                    doms@.len() == n,
                    forall|b: int| 0 <= b < n ==> (#[trigger] doms@[b])@.len() == n,
                    forall|b: int, a: int| 0 <= b < n && 0 <= a < n ==> (doms@[b]@[a] <==> dominates(*body, a, b)),
                    k <= block.phis@.len(),
                    texts(wrong@) == head + phis_reads(*body, d, at as int, k as int),
                decreases block.phis@.len() - k,
            {
                let phi = &block.phis[k];
                let ghost mid = texts(wrong@);
                let mut e: usize = 0;
                while e < phi.edges.len()
                    invariant
                        n == body.blocks@.len(),
                        *phi == body.blocks@[at as int].phis@[k as int],
                        at < n,
                        made@.len() == body.regs@.len(),
                        forall|q: int| 0 <= q < made@.len() ==> made@[q] == made_of(d, q, body.regs@.len() as int),
                        forall|q: int| 0 <= q < made@.len() && made@[q] is Some ==> made@[q]->0 < n,
                        doms@.len() == n,
                        forall|b: int| 0 <= b < n ==> (#[trigger] doms@[b])@.len() == n,
                        forall|b: int, a: int| 0 <= b < n && 0 <= a < n ==> (doms@[b]@[a] <==> dominates(*body, a, b)),
                        e <= phi.edges@.len(),
                        texts(wrong@) == mid + phi_reads(*body, d, at as int, *phi, e as int),
                    decreases phi.edges@.len() - e,
                {
                    let (from, reg) = phi.edges[e];
                    let ghost before = wrong@;
                    match made_where(made, reg) {
                        None => {
                            let mut one = String::new();
                            push_text(&mut one, "the phi for %");
                            push_decimal(&mut one, phi.def);
                            push_text(&mut one, " in block ");
                            push_decimal(&mut one, at);
                            push_text(&mut one, " reads %");
                            push_decimal(&mut one, reg);
                            push_text(&mut one, ", which nothing makes");
                            let ghost t = one@;
                            wrong.push(one);
                            proof {
                                assert(texts(wrong@) =~= texts(before).push(t));
                            }
                        },
                        Some(m) => {
                            if from < n && !doms[from][m] {
                                let mut one = String::new();
                                push_text(&mut one, "the phi for %");
                                push_decimal(&mut one, phi.def);
                                push_text(&mut one, " in block ");
                                push_decimal(&mut one, at);
                                push_text(&mut one, " reads %");
                                push_decimal(&mut one, reg);
                                push_text(&mut one, " along block ");
                                push_decimal(&mut one, from);
                                push_text(&mut one, ", which does not reach it");
                                let ghost t = one@;
                                wrong.push(one);
                                proof {
                                    assert(texts(wrong@) =~= texts(before).push(t));
                                }
                            }
                        },
                    }
                    proof {
                        assert(phi.edges@[e as int] == (from, reg));
                        assert(texts(wrong@) =~= mid + phi_reads(*body, d, at as int, *phi, e + 1));
                    }
                    e = e + 1;
                }
                proof {
                    assert(texts(wrong@) =~= head + phis_reads(*body, d, at as int, k + 1));
                }
                k = k + 1;
            }
            let ghost after_phis = texts(wrong@);
            let mut reads: Vec<MIRRegId> = Vec::new();
            let mut i: usize = 0;
            while i < block.insts.len()
                invariant
                    *block == body.blocks@[at as int],
                    i <= block.insts@.len(),
                    reads@ == insts_reads(block.insts@, i as int),
                decreases block.insts@.len() - i,
            {
                let these = uses(&block.insts[i].kind);
                let mut j: usize = 0;
                let ghost r0 = reads@;
                while j < these.len()
                    invariant
                        j <= these@.len(),
                        reads@ == r0 + these@.subrange(0, j as int),
                    decreases these@.len() - j,
                {
                    reads.push(these[j]);
                    proof {
                        assert(reads@ =~= r0 + these@.subrange(0, j + 1));
                    }
                    j = j + 1;
                }
                proof {
                    assert(these@.subrange(0, these@.len() as int) =~= these@);
                }
                i = i + 1;
            }
            let ends = block.term.uses();
            let mut j: usize = 0;
            let ghost r0 = reads@;
            while j < ends.len()
                invariant
                    j <= ends@.len(),
                    reads@ == r0 + ends@.subrange(0, j as int),
                decreases ends@.len() - j,
            {
                reads.push(ends[j]);
                proof {
                    assert(reads@ =~= r0 + ends@.subrange(0, j + 1));
                }
                j = j + 1;
            }
            proof {
                assert(ends@.subrange(0, ends@.len() as int) =~= ends@);
                assert(reads@ =~= block_reads(*block));
            }
            let mut k: usize = 0;
            while k < reads.len()
                invariant
                    n == body.blocks@.len(),
                    *block == body.blocks@[at as int],
                    at < n,
                    reads@ == block_reads(*block),
                    made@.len() == body.regs@.len(),
                    forall|q: int| 0 <= q < made@.len() ==> made@[q] == made_of(d, q, body.regs@.len() as int),
                    forall|q: int| 0 <= q < made@.len() && made@[q] is Some ==> made@[q]->0 < n,
                    doms@.len() == n,
                    forall|b: int| 0 <= b < n ==> (#[trigger] doms@[b])@.len() == n,
                    forall|b: int, a: int| 0 <= b < n && 0 <= a < n ==> (doms@[b]@[a] <==> dominates(*body, a, b)),
                    k <= reads@.len(),
                    texts(wrong@) == after_phis + read_complaints(*body, d, at as int, reads@, k as int),
                decreases reads@.len() - k,
            {
                let reg = reads[k];
                let ghost before = wrong@;
                match made_where(made, reg) {
                    None => {
                        if reg < body.regs.len() {
                            let mut one = String::new();
                            push_text(&mut one, "block ");
                            push_decimal(&mut one, at);
                            push_text(&mut one, " reads %");
                            push_decimal(&mut one, reg);
                            push_text(&mut one, ", which nothing makes");
                            let ghost t = one@;
                            wrong.push(one);
                            proof {
                                assert(texts(wrong@) =~= texts(before).push(t));
                            }
                        }
                    },
                    Some(m) => {
                        if !doms[at][m] {
                            let mut one = String::new();
                            push_text(&mut one, "block ");
                            push_decimal(&mut one, at);
                            push_text(&mut one, " reads %");
                            push_decimal(&mut one, reg);
                            push_text(&mut one, ", which is made in block ");
                            push_decimal(&mut one, m);
                            push_text(&mut one, " and does not reach it");
                            let ghost t = one@;
                            wrong.push(one);
                            proof {
                                assert(texts(wrong@) =~= texts(before).push(t));
                            }
                        }
                    },
                }
                proof {
                    assert(texts(wrong@) =~= after_phis + read_complaints(*body, d, at as int, reads@, k + 1));
                }
                k = k + 1;
            }
        }
        proof {
            assert(texts(wrong@) =~= reach_complaints(*body, d, at + 1));
        }
        at = at + 1;
    }
    wrong
}

// ---- All of it ---------------------------------------------------------------------

/// Everything wrong with a body, in the words a failing test should print:
/// an entry outside the arena alone, or else the registers made twice or
/// outside the arena, the names outside their arenas, the phis that do not
/// name their ways in, and the reads of what was not made before them.
pub open spec fn complaints(body: MIRBody) -> Seq<Seq<char>> {
    let n = body.blocks@.len() as int;
    if body.entry >= n {
        seq!["the entry is block "@ + decimal(body.entry as nat) + ", which is not in the arena"@]
    } else {
        let d = all_defs(body);
        once_complaints(d, body.regs@.len() as int) + arena_complaints(body, n) + phi_complaints(body, n) + reach_complaints(body, d, n)
    }
}

/// Where the last maker of `r` among the first `k` of `d` stands is where one
/// of them stands.
proof fn made_at_is_one(d: Seq<(MIRRegId, MIRBlockId)>, r: int, k: int)
    requires
        0 <= k <= d.len(),
    ensures
        made_at(d, r, k) matches Some(m) ==> exists|i: int| 0 <= i < k && d[i].1 == m,
    decreases k,
{
    if k > 0 {
        made_at_is_one(d, r, k - 1);
        if d[k - 1].0 == r {
            assert(d[k - 1].1 == d[k - 1].1);
        }
    }
}

/// Every place a register is made is a block of the arena.
proof fn defs_in_arena(body: MIRBody, k: int)
    requires
        body.entry < body.blocks@.len(),
        0 <= k <= body.blocks@.len(),
    ensures
        forall|i: int| 0 <= i < live_defs(body, k).len() ==> (#[trigger] live_defs(body, k)[i]).1 < body.blocks@.len(),
    decreases k,
{
    if k > 0 {
        defs_in_arena(body, k - 1);
        let prev = live_defs(body, k - 1);
        let all = live_defs(body, k);
        assert forall|i: int| 0 <= i < all.len() implies (#[trigger] all[i]).1 < body.blocks@.len() by {
            if i < prev.len() {
                assert(all[i] == prev[i]);
            } else {
                let b = body.blocks@[k - 1];
                let j = i - prev.len();
                let defs = block_defs(b, k - 1);
                assert(all[i] == defs[j]);
                if j < b.phis@.len() {
                    assert(defs[j].1 == (k - 1) as MIRBlockId);
                } else {
                    assert(defs[j].1 == (k - 1) as MIRBlockId);
                }
            }
        }
    }
}

/// Everything wrong with the body, in the words a failing test should print.
/// Empty is the answer a correct body gives.
pub fn verify(body: &MIRBody) -> (r: Vec<String>)
    ensures
        texts(r@) == complaints(*body),
{
    let live = body.live();
    let preds = body.preds();
    if body.entry >= body.blocks.len() {
        let mut one = String::new();
        push_text(&mut one, "the entry is block ");
        push_decimal(&mut one, body.entry);
        push_text(&mut one, ", which is not in the arena");
        let ghost t = one@;
        let mut wrong: Vec<String> = Vec::new();
        wrong.push(one);
        proof {
            assert(texts(wrong@) =~= seq![t]);
        }
        return wrong;
    }
    let ghost d = all_defs(*body);
    let (made, mut wrong) = made_everywhere(body, &live);
    proof {
        let n = body.blocks@.len() as int;
        defs_in_arena(*body, n);
        assert forall|i: int| 0 <= i < d.len() implies (#[trigger] d[i]).1 < n by {
            let ps = body.params@.map_values(|p: MIRRegId| (p, body.entry));
            if i >= ps.len() {
                assert(d[i] == live_defs(*body, n)[i - ps.len()]);
            }
        }
        assert forall|q: int| 0 <= q < made@.len() && made@[q] is Some implies made@[q]->0 < n by {
            made_at_is_one(d, q, d.len() as int);
        }
    }
    let mut outside = in_arenas(body, &live);
    let mut phis = phis_name_ways(body, &live, &preds);
    let doms = dominators(body, &preds, &live);
    let mut unmade = reads_where_made(body, &live, &made, &doms, Ghost(d));
    wrong.append(&mut outside);
    wrong.append(&mut phis);
    wrong.append(&mut unmade);
    proof {
        assert(texts(wrong@) =~= complaints(*body));
    }
    wrong
}

// ---- What empty means -------------------------------------------------------------

/// Whether a body is well formed: its entry is one of its blocks, a register
/// is made in one place and is one of the body's, and every block the entry
/// reaches is sound.
pub open spec fn well_formed(body: MIRBody) -> bool {
    let d = all_defs(body);
    &&& body.entry < body.blocks@.len()
    &&& forall|i: int| 0 <= i < d.len() ==> (#[trigger] d[i]).0 < body.regs@.len()
    &&& forall|i: int, j: int| 0 <= i < j < d.len() ==> (#[trigger] d[i]).0 != (#[trigger] d[j]).0
    &&& forall|at: int| 0 <= at < body.blocks@.len() && #[trigger] body.reaches(at) ==> block_sound(body, d, at)
}

/// Whether block `at` is sound: every register it reads is one of the body's,
/// every slot it names is in the frame and every block it goes to is in the
/// arena; each of its phis names every way in once; and everything it reads,
/// and everything its phis read along each way in, is made where that stands
/// before the read.
pub open spec fn block_sound(body: MIRBody, d: Seq<(MIRRegId, MIRBlockId)>, at: int) -> bool {
    let b = body.blocks@[at];
    let n = body.blocks@.len();
    let nregs = body.regs@.len();
    &&& forall|i: int, j: int|
        0 <= i < b.insts@.len() && 0 <= j < kind_uses(b.insts@[i].kind).len() ==> #[trigger] kind_uses(b.insts@[i].kind)[j] < nregs
    &&& forall|i: int| 0 <= i < b.insts@.len() ==> (#[trigger] b.insts@[i].kind matches MIRInstKind::Frame(slot) ==> slot < body.frame@.len())
    &&& forall|j: int| 0 <= j < b.term.spec_uses().len() ==> #[trigger] b.term.spec_uses()[j] < nregs
    &&& forall|j: int| 0 <= j < b.term.spec_targets().len() ==> #[trigger] b.term.spec_targets()[j] < n
    &&& forall|k: int|
        0 <= k < b.phis@.len() ==> sources((#[trigger] b.phis@[k]).edges@).sort_by(ascending()) == body.preds_upto(at, n as int)
    &&& forall|k: int, e: int|
        0 <= k < b.phis@.len() && 0 <= e < b.phis@[k].edges@.len() ==> ({
            let (from, reg) = #[trigger] b.phis@[k].edges@[e];
            made_of(d, reg as int, nregs as int) matches Some(m) && (from < n ==> dominates(body, m as int, from as int))
        })
    &&& forall|j: int|
        0 <= j < block_reads(b).len() ==> (made_of(d, #[trigger] block_reads(b)[j] as int, nregs as int) matches Some(m) && dominates(
            body,
            m as int,
            at,
        ))
}

proof fn made_at_none(d: Seq<(MIRRegId, MIRBlockId)>, r: int, k: int)
    requires
        0 <= k <= d.len(),
    ensures
        made_at(d, r, k) is None <==> forall|j: int| 0 <= j < k ==> d[j].0 != r,
    decreases k,
{
    if k > 0 {
        made_at_none(d, r, k - 1);
    }
}

proof fn once_empty(d: Seq<(MIRRegId, MIRBlockId)>, nregs: int)
    ensures
        once_complaints(d, nregs).len() == 0 <==> forall|i: int| 0 <= i < d.len() ==> once_complaint(d, i, nregs).len() == 0,
    decreases d.len(),
{
    if d.len() > 0 {
        let e = d.drop_last();
        once_empty(e, nregs);
        assert forall|i: int| 0 <= i < e.len() implies once_complaint(e, i, nregs) == once_complaint(d, i, nregs) by {
            made_at_prefix(e, d, e[i].0 as int, i);
        }
    }
}

proof fn outside_empty(at: int, rs: Seq<usize>, size: int, said: Seq<char>, not_in: Seq<char>, k: int)
    requires
        0 <= k <= rs.len(),
    ensures
        outside(at, rs, size, said, not_in, k).len() == 0 <==> forall|j: int| 0 <= j < k ==> rs[j] < size,
    decreases k,
{
    if k > 0 {
        outside_empty(at, rs, size, said, not_in, k - 1);
    }
}

proof fn arena_insts_empty(body: MIRBody, at: int, k: int)
    requires
        0 <= at < body.blocks@.len(),
        0 <= k <= body.blocks@[at].insts@.len(),
    ensures
        arena_insts(body, at, k).len() == 0 <==> forall|i: int|
            0 <= i < k ==> (forall|j: int|
                0 <= j < kind_uses(body.blocks@[at].insts@[i].kind).len() ==> #[trigger] kind_uses(body.blocks@[at].insts@[i].kind)[j]
                    < body.regs@.len()) && slot_complaint(body, at, body.blocks@[at].insts@[i].kind).len() == 0,
    decreases k,
{
    if k > 0 {
        arena_insts_empty(body, at, k - 1);
        let rs = kind_uses(body.blocks@[at].insts@[k - 1].kind);
        outside_empty(at, rs, body.regs@.len() as int, " reads %"@, ", which is not in the arena"@, rs.len() as int);
    }
}

proof fn arena_empty(body: MIRBody, k: int)
    requires
        0 <= k <= body.blocks@.len(),
    ensures
        arena_complaints(body, k).len() == 0 <==> forall|at: int| 0 <= at < k && body.reaches(at) ==> #[trigger] arena_block(body, at).len() == 0,
    decreases k,
{
    if k > 0 {
        arena_empty(body, k - 1);
    }
}

proof fn phi_block_empty(body: MIRBody, at: int, k: int)
    requires
        0 <= at < body.blocks@.len(),
        0 <= k <= body.blocks@[at].phis@.len(),
    ensures
        phi_block(body, at, k).len() == 0 <==> forall|i: int| 0 <= i < k ==> #[trigger] phi_complaint(body, at, body.blocks@[at].phis@[i]).len() == 0,
    decreases k,
{
    if k > 0 {
        phi_block_empty(body, at, k - 1);
    }
}

proof fn phi_empty(body: MIRBody, k: int)
    requires
        0 <= k <= body.blocks@.len(),
    ensures
        phi_complaints(body, k).len() == 0 <==> forall|at: int| 0 <= at < k && body.reaches(at) ==> #[trigger] phi_block(
            body,
            at,
            body.blocks@[at].phis@.len() as int,
        ).len() == 0,
    decreases k,
{
    if k > 0 {
        phi_empty(body, k - 1);
    }
}

proof fn phi_reads_empty(body: MIRBody, d: Seq<(MIRRegId, MIRBlockId)>, at: int, p: MIRPhi, k: int)
    requires
        0 <= k <= p.edges@.len(),
    ensures
        phi_reads(body, d, at, p, k).len() == 0 <==> forall|e: int| 0 <= e < k ==> #[trigger] phi_read_complaint(body, d, at, p, p.edges@[e]).len() == 0,
    decreases k,
{
    if k > 0 {
        phi_reads_empty(body, d, at, p, k - 1);
    }
}

proof fn phis_reads_empty(body: MIRBody, d: Seq<(MIRRegId, MIRBlockId)>, at: int, k: int)
    requires
        0 <= at < body.blocks@.len(),
        0 <= k <= body.blocks@[at].phis@.len(),
    ensures
        phis_reads(body, d, at, k).len() == 0 <==> forall|i: int, e: int|
            0 <= i < k && 0 <= e < body.blocks@[at].phis@[i].edges@.len() ==> #[trigger] phi_read_complaint(
                body,
                d,
                at,
                body.blocks@[at].phis@[i],
                body.blocks@[at].phis@[i].edges@[e],
            ).len() == 0,
    decreases k,
{
    if k > 0 {
        phis_reads_empty(body, d, at, k - 1);
        let p = body.blocks@[at].phis@[k - 1];
        phi_reads_empty(body, d, at, p, p.edges@.len() as int);
    }
}

proof fn read_complaints_empty(body: MIRBody, d: Seq<(MIRRegId, MIRBlockId)>, at: int, rs: Seq<MIRRegId>, k: int)
    requires
        0 <= k <= rs.len(),
    ensures
        read_complaints(body, d, at, rs, k).len() == 0 <==> forall|j: int| 0 <= j < k ==> #[trigger] read_complaint(body, d, at, rs[j]).len() == 0,
    decreases k,
{
    if k > 0 {
        read_complaints_empty(body, d, at, rs, k - 1);
    }
}

proof fn reach_empty(body: MIRBody, d: Seq<(MIRRegId, MIRBlockId)>, k: int)
    requires
        0 <= k <= body.blocks@.len(),
    ensures
        reach_complaints(body, d, k).len() == 0 <==> forall|at: int| 0 <= at < k && body.reaches(at) ==> #[trigger] reach_block(body, d, at).len() == 0,
    decreases k,
{
    if k > 0 {
        reach_empty(body, d, k - 1);
    }
}

/// Everything the first `k` instructions read is something one of them
/// reads.
proof fn insts_reads_from(insts: Seq<MIRInst>, k: int, j: int)
    requires
        0 <= k <= insts.len(),
        0 <= j < insts_reads(insts, k).len(),
    ensures
        exists|i: int, x: int| 0 <= i < k && 0 <= x < kind_uses(insts[i].kind).len() && #[trigger] kind_uses(insts[i].kind)[x] == insts_reads(insts, k)[j],
    decreases k,
{
    let prev = insts_reads(insts, k - 1);
    if j < prev.len() {
        insts_reads_from(insts, k - 1, j);
        let (i, x) = choose|i: int, x: int|
            0 <= i < k - 1 && 0 <= x < kind_uses(insts[i].kind).len() && #[trigger] kind_uses(insts[i].kind)[x] == prev[j];
        assert(insts_reads(insts, k)[j] == prev[j]);
    } else {
        let x = j - prev.len();
        assert(insts_reads(insts, k)[j] == kind_uses(insts[k - 1].kind)[x]);
    }
}

/// One block draws no complaint exactly when it is sound.
proof fn block_law(body: MIRBody, d: Seq<(MIRRegId, MIRBlockId)>, at: int)
    requires
        0 <= at < body.blocks@.len(),
    ensures
        (arena_block(body, at).len() == 0 && phi_block(body, at, body.blocks@[at].phis@.len() as int).len() == 0 && reach_block(
            body,
            d,
            at,
        ).len() == 0) <==> block_sound(body, d, at),
{
    let b = body.blocks@[at];
    let n = body.blocks@.len() as int;
    let nregs = body.regs@.len() as int;
    let reads = b.term.spec_uses();
    let goes = b.term.spec_targets();
    let all_reads = block_reads(b);
    arena_insts_empty(body, at, b.insts@.len() as int);
    outside_empty(at, reads, nregs, " ends reading %"@, ", which is not in the arena"@, reads.len() as int);
    outside_empty(at, goes, n, " goes to block "@, ", which is not in the arena"@, goes.len() as int);
    phi_block_empty(body, at, b.phis@.len() as int);
    phis_reads_empty(body, d, at, b.phis@.len() as int);
    read_complaints_empty(body, d, at, all_reads, all_reads.len() as int);
    let arena_ok = arena_block(body, at).len() == 0;
    let reach_ok = reach_block(body, d, at).len() == 0;
    assert(arena_ok <==> (arena_insts(body, at, b.insts@.len() as int).len() == 0 && outside(
        at,
        reads,
        nregs,
        " ends reading %"@,
        ", which is not in the arena"@,
        reads.len() as int,
    ).len() == 0 && outside(at, goes, n, " goes to block "@, ", which is not in the arena"@, goes.len() as int).len() == 0));
    assert(reach_ok <==> (phis_reads(body, d, at, b.phis@.len() as int).len() == 0 && read_complaints(
        body,
        d,
        at,
        all_reads,
        all_reads.len() as int,
    ).len() == 0));
    // Each slot clause, instruction by instruction.
    assert forall|i: int| 0 <= i < b.insts@.len() implies (slot_complaint(body, at, b.insts@[i].kind).len() == 0 <==> (
    #[trigger] b.insts@[i].kind matches MIRInstKind::Frame(slot) ==> slot < body.frame@.len())) by {}
    // Each phi clause.
    assert forall|k: int| 0 <= k < b.phis@.len() implies (#[trigger] phi_complaint(body, at, b.phis@[k]).len() == 0 <==> sources(
        b.phis@[k].edges@,
    ).sort_by(ascending()) == body.preds_upto(at, n)) by {}
    assert forall|k: int, e: int| 0 <= k < b.phis@.len() && 0 <= e < b.phis@[k].edges@.len() implies (#[trigger] phi_read_complaint(
        body,
        d,
        at,
        b.phis@[k],
        b.phis@[k].edges@[e],
    ).len() == 0 <==> ({
        let (from, reg) = b.phis@[k].edges@[e];
        made_of(d, reg as int, nregs) matches Some(m) && (from < n ==> dominates(body, m as int, from as int))
    })) by {}
    let phis_ok = phi_block(body, at, b.phis@.len() as int).len() == 0;
    if block_sound(body, d, at) {
        assert forall|j: int| 0 <= j < all_reads.len() implies #[trigger] read_complaint(body, d, at, all_reads[j]).len() == 0 by {}
        assert forall|i: int| 0 <= i < b.insts@.len() implies (forall|j: int|
            0 <= j < kind_uses(b.insts@[i].kind).len() ==> #[trigger] kind_uses(b.insts@[i].kind)[j] < nregs) && slot_complaint(
            body,
            at,
            b.insts@[i].kind,
        ).len() == 0 by {
            assert(b.insts@[i].kind matches MIRInstKind::Frame(slot) ==> slot < body.frame@.len());
        }
        assert forall|j: int| 0 <= j < reads.len() implies reads[j] < nregs by {
            assert(b.term.spec_uses()[j] < nregs);
        }
        assert forall|j: int| 0 <= j < goes.len() implies goes[j] < n by {
            assert(b.term.spec_targets()[j] < n);
        }
        assert(arena_ok);
        assert forall|k: int| 0 <= k < b.phis@.len() implies #[trigger] phi_complaint(body, at, b.phis@[k]).len() == 0 by {
            assert(sources(b.phis@[k].edges@).sort_by(ascending()) == body.preds_upto(at, n));
        }
        assert(phis_ok);
        assert forall|k: int, e: int| 0 <= k < b.phis@.len() && 0 <= e < b.phis@[k].edges@.len() implies #[trigger] phi_read_complaint(
            body,
            d,
            at,
            b.phis@[k],
            b.phis@[k].edges@[e],
        ).len() == 0 by {
            let (from, reg) = b.phis@[k].edges@[e];
            assert(made_of(d, reg as int, nregs) matches Some(m) && (from < n ==> dominates(body, m as int, from as int)));
        }
        assert(reach_ok);
    }
    if arena_ok && phis_ok && reach_ok {
        assert forall|i: int, j: int|
            0 <= i < b.insts@.len() && 0 <= j < kind_uses(b.insts@[i].kind).len() implies #[trigger] kind_uses(b.insts@[i].kind)[j]
            < nregs by {}
        assert forall|i: int| 0 <= i < b.insts@.len() implies (#[trigger] b.insts@[i].kind matches MIRInstKind::Frame(slot) ==> slot
            < body.frame@.len()) by {
            assert(slot_complaint(body, at, b.insts@[i].kind).len() == 0);
        }
        assert forall|j: int| 0 <= j < b.term.spec_uses().len() implies #[trigger] b.term.spec_uses()[j] < nregs by {}
        assert forall|j: int| 0 <= j < b.term.spec_targets().len() implies #[trigger] b.term.spec_targets()[j] < n by {}
        assert forall|k: int| 0 <= k < b.phis@.len() implies sources((#[trigger] b.phis@[k]).edges@).sort_by(ascending())
            == body.preds_upto(at, n) by {
            assert(phi_complaint(body, at, b.phis@[k]).len() == 0);
        }
        assert forall|k: int, e: int| 0 <= k < b.phis@.len() && 0 <= e < b.phis@[k].edges@.len() implies ({
            let (from, reg) = #[trigger] b.phis@[k].edges@[e];
            made_of(d, reg as int, nregs) matches Some(m) && (from < n ==> dominates(body, m as int, from as int))
        }) by {
            assert(phi_read_complaint(body, d, at, b.phis@[k], b.phis@[k].edges@[e]).len() == 0);
        }
    }
    if arena_ok && reach_ok {
        assert forall|j: int| 0 <= j < all_reads.len() implies (made_of(d, #[trigger] all_reads[j] as int, nregs) matches Some(m)
            && dominates(body, m as int, at)) by {
            assert(read_complaint(body, d, at, all_reads[j]).len() == 0);
            let ir = insts_reads(b.insts@, b.insts@.len() as int);
            if j < ir.len() {
                insts_reads_from(b.insts@, b.insts@.len() as int, j);
                assert(all_reads[j] == ir[j]);
                let (i, x) = choose|i: int, x: int|
                    0 <= i < b.insts@.len() && 0 <= x < kind_uses(b.insts@[i].kind).len() && #[trigger] kind_uses(b.insts@[i].kind)[x]
                        == ir[j];
                assert(kind_uses(b.insts@[i].kind)[x] < nregs);
            } else {
                assert(all_reads[j] == reads[j - ir.len()]);
            }
        }
    }
}

/// A body draws no complaint exactly when it is well formed: empty is the
/// answer a correct body gives, and only a correct one.
pub proof fn verify_law(body: MIRBody)
    ensures
        complaints(body).len() == 0 <==> well_formed(body),
{
    let n = body.blocks@.len() as int;
    let nregs = body.regs@.len() as int;
    if body.entry < n {
        let d = all_defs(body);
        once_empty(d, nregs);
        arena_empty(body, n);
        phi_empty(body, n);
        reach_empty(body, d, n);
        assert forall|i: int| 0 <= i < d.len() implies (once_complaint(d, i, nregs).len() == 0 <==> ((#[trigger] d[i]).0 < nregs
            && forall|j: int| 0 <= j < i ==> d[j].0 != d[i].0)) by {
            made_at_none(d, d[i].0 as int, i);
        }
        assert forall|at: int| 0 <= at < n && #[trigger] body.reaches(at) implies ((arena_block(body, at).len() == 0 && phi_block(
            body,
            at,
            body.blocks@[at].phis@.len() as int,
        ).len() == 0 && reach_block(body, d, at).len() == 0) <==> block_sound(body, d, at)) by {
            block_law(body, d, at);
        }
        if complaints(body).len() == 0 {
            assert forall|i: int| 0 <= i < d.len() implies (#[trigger] d[i]).0 < nregs by {
                assert(once_complaint(d, i, nregs).len() == 0);
            }
            assert forall|i: int, j: int| 0 <= i < j < d.len() implies (#[trigger] d[i]).0 != (#[trigger] d[j]).0 by {
                assert(once_complaint(d, j, nregs).len() == 0);
            }
            assert forall|at: int| 0 <= at < n && #[trigger] body.reaches(at) implies block_sound(body, d, at) by {
                assert(arena_block(body, at).len() == 0);
                assert(phi_block(body, at, body.blocks@[at].phis@.len() as int).len() == 0);
                assert(reach_block(body, d, at).len() == 0);
            }
        }
        if well_formed(body) {
            assert forall|i: int| 0 <= i < d.len() implies once_complaint(d, i, nregs).len() == 0 by {
                assert forall|j: int| 0 <= j < i implies d[j].0 != d[i].0 by {
                    assert(d[j].0 != d[i].0);
                }
            }
            assert forall|at: int| 0 <= at < n && body.reaches(at) implies #[trigger] arena_block(body, at).len() == 0 by {
                assert(block_sound(body, d, at));
            }
            assert forall|at: int| 0 <= at < n && body.reaches(at) implies #[trigger] phi_block(body, at, body.blocks@[at].phis@.len() as int).len() == 0 by {
                assert(block_sound(body, d, at));
            }
            assert forall|at: int| 0 <= at < n && body.reaches(at) implies #[trigger] reach_block(body, d, at).len() == 0 by {
                assert(block_sound(body, d, at));
            }
        }
    }
}

// ---- What a block nothing reaches holds ------------------------------------------

/// Whether `b2` is `b` but for what the blocks the entry does not reach hold
/// before their ends: the same entry, registers, parameters and frame, every
/// block ending the same way, and every block the entry reaches the same.
pub open spec fn alike_where_reached(b: MIRBody, b2: MIRBody) -> bool {
    &&& b2.entry == b.entry
    &&& b2.regs@ == b.regs@
    &&& b2.params@ == b.params@
    &&& b2.frame@ == b.frame@
    &&& b2.blocks@.len() == b.blocks@.len()
    &&& forall|at: int| 0 <= at < b.blocks@.len() ==> (#[trigger] b2.blocks@[at]).term == b.blocks@[at].term
    &&& forall|at: int| 0 <= at < b.blocks@.len() && b.reaches(at) ==> #[trigger] b2.blocks@[at] == b.blocks@[at]
}

/// Where the blocks end alike, the same ways go from one block to another, and
/// the entry reaches the same blocks by the same walks.
proof fn alike_walks(b: MIRBody, b2: MIRBody)
    requires
        alike_where_reached(b, b2),
    ensures
        forall|a: int, t: int| #[trigger] b2.goes(a, t) == b.goes(a, t),
        forall|path: Seq<MIRBlockId>| #[trigger] b2.walks(path) == b.walks(path),
        forall|at: int| #[trigger] b2.reaches(at) == b.reaches(at),
        forall|x: int, y: int| #[trigger] dominates(b2, x, y) == dominates(b, x, y),
{
    assert forall|a: int, t: int| #[trigger] b2.goes(a, t) == b.goes(a, t) by {
        if 0 <= a < b.blocks@.len() {
            assert(b2.blocks@[a].term == b.blocks@[a].term);
        }
    }
    assert forall|path: Seq<MIRBlockId>| #[trigger] b2.walks(path) == b.walks(path) by {
        if b.walks(path) {
            assert forall|i: int| 0 <= i < path.len() - 1 implies b2.goes(#[trigger] path[i] as int, path[i + 1] as int) by {
                assert(b.goes(path[i] as int, path[i + 1] as int));
            }
        }
        if b2.walks(path) {
            assert forall|i: int| 0 <= i < path.len() - 1 implies b.goes(#[trigger] path[i] as int, path[i + 1] as int) by {
                assert(b2.goes(path[i] as int, path[i + 1] as int));
            }
        }
    }
    assert forall|at: int| #[trigger] b2.reaches(at) == b.reaches(at) by {
        if b.reaches(at) {
            let path = choose|path: Seq<MIRBlockId>| #[trigger] b.walks(path) && path.last() == at;
            assert(b2.walks(path));
        }
        if b2.reaches(at) {
            let path = choose|path: Seq<MIRBlockId>| #[trigger] b2.walks(path) && path.last() == at;
            assert(b.walks(path));
        }
    }
    assert forall|x: int, y: int| #[trigger] dominates(b2, x, y) == dominates(b, x, y) by {
        assert(b2.reaches(y) == b.reaches(y));
        if dominates(b, x, y) {
            assert forall|path: Seq<MIRBlockId>| #[trigger] b2.walks(path) && path.last() == y implies path.contains(x as MIRBlockId) by {
                assert(b.walks(path));
            }
        }
        if dominates(b2, x, y) {
            assert forall|path: Seq<MIRBlockId>| #[trigger] b.walks(path) && path.last() == y implies path.contains(x as MIRBlockId) by {
                assert(b2.walks(path));
            }
        }
    }
}

proof fn alike_preds(b: MIRBody, b2: MIRBody, to: int, k: int)
    requires
        alike_where_reached(b, b2),
    ensures
        b2.preds_upto(to, k) == b.preds_upto(to, k),
    decreases k,
{
    if k > 0 {
        alike_walks(b, b2);
        alike_preds(b, b2, to, k - 1);
        assert(b2.goes(k - 1, to) == b.goes(k - 1, to));
    }
}

proof fn alike_defs(b: MIRBody, b2: MIRBody, k: int)
    requires
        alike_where_reached(b, b2),
        k <= b.blocks@.len(),
    ensures
        live_defs(b2, k) == live_defs(b, k),
    decreases k,
{
    if k > 0 {
        alike_walks(b, b2);
        alike_defs(b, b2, k - 1);
        if b.reaches(k - 1) {
            assert(b2.blocks@[k - 1] == b.blocks@[k - 1]);
        }
    }
}

proof fn alike_arena(b: MIRBody, b2: MIRBody, k: int)
    requires
        alike_where_reached(b, b2),
        k <= b.blocks@.len(),
    ensures
        arena_complaints(b2, k) == arena_complaints(b, k),
    decreases k,
{
    if k > 0 {
        alike_walks(b, b2);
        alike_arena(b, b2, k - 1);
        if b.reaches(k - 1) {
            assert(b2.blocks@[k - 1] == b.blocks@[k - 1]);
            alike_insts(b, b2, k - 1, b.blocks@[k - 1].insts@.len() as int);
        }
    }
}

proof fn alike_insts(b: MIRBody, b2: MIRBody, at: int, k: int)
    requires
        alike_where_reached(b, b2),
        b2.blocks@[at] == b.blocks@[at],
    ensures
        arena_insts(b2, at, k) == arena_insts(b, at, k),
    decreases k,
{
    if k > 0 {
        alike_insts(b, b2, at, k - 1);
    }
}

proof fn alike_phis(b: MIRBody, b2: MIRBody, k: int)
    requires
        alike_where_reached(b, b2),
        k <= b.blocks@.len(),
    ensures
        phi_complaints(b2, k) == phi_complaints(b, k),
    decreases k,
{
    if k > 0 {
        alike_walks(b, b2);
        alike_phis(b, b2, k - 1);
        if b.reaches(k - 1) {
            assert(b2.blocks@[k - 1] == b.blocks@[k - 1]);
            alike_phi_block(b, b2, k - 1, b.blocks@[k - 1].phis@.len() as int);
        }
    }
}

proof fn alike_phi_block(b: MIRBody, b2: MIRBody, at: int, k: int)
    requires
        alike_where_reached(b, b2),
        b2.blocks@[at] == b.blocks@[at],
    ensures
        phi_block(b2, at, k) == phi_block(b, at, k),
    decreases k,
{
    if k > 0 {
        alike_phi_block(b, b2, at, k - 1);
        alike_preds(b, b2, at, b.blocks@.len() as int);
    }
}

proof fn alike_reach(b: MIRBody, b2: MIRBody, d: Seq<(MIRRegId, MIRBlockId)>, k: int)
    requires
        alike_where_reached(b, b2),
        k <= b.blocks@.len(),
    ensures
        reach_complaints(b2, d, k) == reach_complaints(b, d, k),
    decreases k,
{
    if k > 0 {
        alike_walks(b, b2);
        alike_reach(b, b2, d, k - 1);
        if b.reaches(k - 1) {
            let at = k - 1;
            assert(b2.blocks@[at] == b.blocks@[at]);
            let blk = b.blocks@[at];
            alike_phis_reads(b, b2, d, at, blk.phis@.len() as int);
            alike_read_complaints(b, b2, d, at, block_reads(blk), block_reads(blk).len() as int);
        }
    }
}

proof fn alike_phis_reads(b: MIRBody, b2: MIRBody, d: Seq<(MIRRegId, MIRBlockId)>, at: int, k: int)
    requires
        alike_where_reached(b, b2),
        b2.blocks@[at] == b.blocks@[at],
    ensures
        phis_reads(b2, d, at, k) == phis_reads(b, d, at, k),
    decreases k,
{
    if k > 0 {
        alike_phis_reads(b, b2, d, at, k - 1);
        let p = b.blocks@[at].phis@[k - 1];
        alike_phi_reads(b, b2, d, at, p, p.edges@.len() as int);
    }
}

proof fn alike_phi_reads(b: MIRBody, b2: MIRBody, d: Seq<(MIRRegId, MIRBlockId)>, at: int, p: MIRPhi, k: int)
    requires
        alike_where_reached(b, b2),
    ensures
        phi_reads(b2, d, at, p, k) == phi_reads(b, d, at, p, k),
    decreases k,
{
    if k > 0 {
        alike_walks(b, b2);
        alike_phi_reads(b, b2, d, at, p, k - 1);
    }
}

proof fn alike_read_complaints(b: MIRBody, b2: MIRBody, d: Seq<(MIRRegId, MIRBlockId)>, at: int, rs: Seq<MIRRegId>, k: int)
    requires
        alike_where_reached(b, b2),
    ensures
        read_complaints(b2, d, at, rs, k) == read_complaints(b, d, at, rs, k),
    decreases k,
{
    if k > 0 {
        alike_walks(b, b2);
        alike_read_complaints(b, b2, d, at, rs, k - 1);
    }
}

/// A block the entry does not reach is held to nothing: whatever it holds
/// before its end, the complaints about the body are the same.
pub proof fn unreached_blocks_are_not_looked_at(b: MIRBody, b2: MIRBody)
    requires
        alike_where_reached(b, b2),
    ensures
        complaints(b2) == complaints(b),
{
    let n = b.blocks@.len() as int;
    if b.entry < n {
        alike_defs(b, b2, n);
        assert(all_defs(b2) == all_defs(b));
        alike_arena(b, b2, n);
        alike_phis(b, b2, n);
        alike_reach(b, b2, all_defs(b), n);
    }
}

} // verus!
