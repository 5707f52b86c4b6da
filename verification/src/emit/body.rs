//! What every machine's emitter needs to know about one body: where each
//! register turned out to live, how wide it is, the callee-saved registers it
//! has to put back, and how its frame sits under the frame pointer once those
//! are saved above the slots.

use vstd::prelude::*;
use crate::emit::Site;
use crate::linear::{Line, Linear};
use crate::machine::{holds, Class, Machine, Reg};
use crate::mir_nodes::{MIRBlockId, MIRInstKind, MIRRegId};
use crate::regalloc::{Allocation, Where};
use crate::spell::{decimal, decimal_is_digits, decimal_is_one_to_one, push_decimal, push_text};
use crate::text::{at_least_one, frame, frame_fits, reached, round_up, round_up_bounds};

verus! {

/// Where `reg` is, as the allocation says: nowhere for one not of the body.
pub open spec fn where_of(at: Seq<Where>, reg: int) -> Where {
    if 0 <= reg < at.len() { at[reg] } else { Where::Nowhere }
}

/// The callee-saved registers the first `k` registers of the body were given,
/// each once, in the order they are first given.
pub open spec fn kept_upto(at: Seq<Where>, m: Machine, k: int) -> Seq<Reg>
    decreases k,
{
    if k <= 0 {
        Seq::empty()
    } else {
        let prev = kept_upto(at, m, k - 1);
        match where_of(at, k - 1) {
            Where::In(one) => if holds(m.saved@, one) && !holds(prev, one) { prev.push(one) } else { prev },
            _ => prev,
        }
    }
}

/// Whether register `q` of the body was given `r`.
pub open spec fn gets(at: Seq<Where>, q: int, r: Reg) -> bool {
    where_of(at, q) matches Where::In(one) && one@ == r@
}

/// Whether one of the first `k` registers of the body was given `r`.
pub open spec fn given(at: Seq<Where>, k: int, r: Reg) -> bool {
    exists|q: int| 0 <= q < k && #[trigger] gets(at, q, r)
}

/// What `kept_upto` holds: exactly the callee-saved registers given to one of
/// the first `k`, none twice.
pub proof fn kept_law(at: Seq<Where>, m: Machine, k: int)
    requires
        k >= 0,
    ensures
        forall|r: Reg| #[trigger] holds(kept_upto(at, m, k), r) <==> (holds(m.saved@, r) && given(at, k, r)),
        crate::machine::distinct(kept_upto(at, m, k)),
    decreases k,
{
    if k > 0 {
        kept_law(at, m, k - 1);
        let prev = kept_upto(at, m, k - 1);
        let now = kept_upto(at, m, k);
        assert forall|r: Reg| holds(now, r) <==> (holds(m.saved@, r) && given(at, k, r)) by {
            if holds(now, r) {
                let i = choose|i: int| 0 <= i < now.len() && (#[trigger] now[i])@ == r@;
                if i < prev.len() {
                    assert(now[i] == prev[i]);
                    assert(holds(prev, r));
                    assert(holds(kept_upto(at, m, k - 1), r));
                    assert(given(at, k - 1, r));
                    let q = choose|q: int| 0 <= q < k - 1 && #[trigger] gets(at, q, r);
                    assert(gets(at, q, r));
                } else {
                    let one = where_of(at, k - 1)->In_0;
                    assert(gets(at, k - 1, r));
                    assert(holds(m.saved@, one));
                    let j = choose|j: int| 0 <= j < m.saved@.len() && (#[trigger] m.saved@[j])@ == one@;
                    assert(m.saved@[j]@ == r@);
                }
            }
            if holds(m.saved@, r) && given(at, k, r) {
                let q = choose|q: int| 0 <= q < k && #[trigger] gets(at, q, r);
                if q < k - 1 {
                    assert(given(at, k - 1, r));
                    assert(holds(kept_upto(at, m, k - 1), r));
                    let i = choose|i: int| 0 <= i < prev.len() && (#[trigger] prev[i])@ == r@;
                    assert(now[i] == prev[i]);
                } else {
                    let one = where_of(at, k - 1)->In_0;
                    if holds(prev, one) {
                        let i = choose|i: int| 0 <= i < prev.len() && (#[trigger] prev[i])@ == one@;
                        assert(now[i] == prev[i]);
                    } else {
                        let j = choose|j: int| 0 <= j < m.saved@.len() && (#[trigger] m.saved@[j])@ == r@;
                        assert(holds(m.saved@, one));
                        assert(now[now.len() - 1] == one);
                    }
                }
            }
        }
        assert forall|x: int, y: int| 0 <= x < y < now.len() implies (#[trigger] now[x])@ != (#[trigger] now[y])@ by {
            if y < prev.len() {
                assert(now[x] == prev[x] && now[y] == prev[y]);
            } else {
                assert(now[x] == prev[x]);
                let one = where_of(at, k - 1)->In_0;
                assert(now[y] == one);
                assert(!holds(prev, one));
            }
        }
    }
}

/// The callee-saved registers a body writes, which are exactly the ones it
/// has to put back. A body that touches none saves none.
pub fn kept(held: &Linear, at: &Allocation, m: &Machine) -> (r: Vec<Reg>)
    ensures
        r@ == kept_upto(at.at@, *m, held.regs@.len() as int),
{
    let mut out: Vec<Reg> = Vec::new();
    let mut reg: usize = 0;
    while reg < held.regs.len()
        invariant
            reg <= held.regs@.len(),
            out@ == kept_upto(at.at@, *m, reg as int),
        decreases held.regs@.len() - reg,
    {
        match at.of(reg) {
            Where::In(one) => {
                if m.keeps(one) && !crate::machine::names(&out, &one) {
                    out.push(one);
                }
            },
            _ => {},
        }
        reg = reg + 1;
    }
    out
}

/// Everything a machine's emitter needs to know about one body.
pub struct Body<'a> {
    pub held: &'a Linear,
    pub at: &'a Allocation,
    pub m: &'a Machine,
    /// How far below the frame pointer each slot begins, and how big the
    /// whole frame is once the saved registers and the alignment are in it.
    pub offsets: Vec<usize>,
    pub frame: usize,
    /// The callee-saved registers this body writes.
    pub saved: Vec<Reg>,
    /// Which body of the program this is, for numbering its labels.
    pub index: usize,
}

/// How many bytes the saved registers take above the slots.
pub open spec fn above(held: Linear, at: Allocation, m: Machine) -> int {
    kept_upto(at.at@, m, held.regs@.len() as int).len() * m.word
}

/// Whether the frame of `held`, with its saved registers above the slots and
/// rounded to what the stack is kept to, can be counted.
pub open spec fn body_fits(held: Linear, at: Allocation, m: Machine) -> bool {
    &&& frame_fits(held.frame@, m)
    &&& above(held, at, m) + round_up(reached(held.frame@, held.frame@.len() as int), at_least_one(m.stack)) + at_least_one(m.stack)
        <= usize::MAX
}

/// Whether `b` is body `index`, `held` as allocated by `at`, laid out on `m`:
/// the callee-saved registers it writes saved above the slots, each slot
/// below them at the offset its place in the frame gives, and the frame
/// rounded to what the stack is kept to.
pub open spec fn laid_out<'a>(held: Linear, at: Allocation, m: Machine, index: usize, b: Body<'a>) -> bool {
    &&& *b.held == held
    &&& *b.at == at
    &&& *b.m == m
    &&& b.index == index
    &&& b.saved@ == kept_upto(at.at@, m, held.regs@.len() as int)
    &&& b.offsets@.len() == held.frame@.len()
    &&& forall|i: int| 0 <= i < held.frame@.len() ==> b.offsets@[i] == reached(held.frame@, i + 1) + above(held, at, m)
    &&& b.frame == round_up(
        above(held, at, m) + round_up(reached(held.frame@, held.frame@.len() as int), at_least_one(m.stack)),
        at_least_one(m.stack),
    )
}

/// Where a register of the body ended up: the register it was given, or how
/// far below the frame pointer its slot begins -- a word down for a slot the
/// frame does not have.
pub open spec fn reg_site(b: &Body, reg: MIRRegId) -> Site {
    match where_of(b.at.at@, reg as int) {
        Where::In(r) => Site::In(r),
        Where::Spilled(slot) => Site::At(if slot < b.offsets@.len() { b.offsets@[slot as int] } else { b.m.word }),
        Where::Nowhere => Site::Nowhere,
    }
}

/// How wide a register's value is: never nought and never more than a word.
pub open spec fn reg_bytes(b: &Body, reg: MIRRegId) -> usize {
    let held = if reg < b.held.regs@.len() { b.held.regs@[reg as int].bytes } else { b.m.word };
    if held < 1 { 1 } else if held > b.m.word { b.m.word } else { held }
}

/// The file a register's value is in; an integer one for a register not of
/// the body.
pub open spec fn reg_class(b: &Body, reg: MIRRegId) -> Class {
    if reg < b.held.regs@.len() { b.held.regs@[reg as int].class } else { Class::Int }
}

impl<'a> Body<'a> {
    /// The saved registers sit directly under the frame pointer and the slots
    /// under them, so that a slot's offset does not depend on how many
    /// registers turned out to be worth saving.
    pub fn new(held: &'a Linear, at: &'a Allocation, m: &'a Machine, index: usize) -> (b: Body<'a>)
        requires
            body_fits(*held, *at, *m),
        ensures
            laid_out(*held, *at, *m, index, b),
            b.saved@.len() * m.word <= usize::MAX,
            b.held == held,
            b.at == at,
            b.m == m,
            b.index == index,
            b.saved@ == kept_upto(at.at@, *m, held.regs@.len() as int),
            b.offsets@.len() == held.frame@.len(),
            forall|i: int| 0 <= i < held.frame@.len() ==> b.offsets@[i] == reached(held.frame@, i + 1) + above(*held, *at, *m),
            b.frame == round_up(
                above(*held, *at, *m) + round_up(reached(held.frame@, held.frame@.len() as int), at_least_one(m.stack)),
                at_least_one(m.stack),
            ),
            // Nothing in the frame overlaps the registers saved above it.
            forall|i: int| 0 <= i < held.frame@.len() ==> (#[trigger] b.offsets@[i]) - held.frame@[i].bytes >= above(*held, *at, *m),
            // The frame is a whole number of what the stack stays aligned to,
            // and holds every slot.
            b.frame as int % at_least_one(m.stack) == 0,
            forall|i: int| 0 <= i < held.frame@.len() ==> (#[trigger] b.offsets@[i]) <= b.frame,
            // It saves exactly the callee-saved registers it writes, each once.
            forall|r: Reg| holds(b.saved@, r) <==> (holds(m.saved@, r) && given(at.at@, held.regs@.len() as int, r)),
            crate::machine::distinct(b.saved@),
    {
        let (raw, size) = frame(held.frame.as_slice(), m);
        let saved = kept(held, at, m);
        proof {
            kept_law(at.at@, *m, held.regs@.len() as int);
            assert(saved@.len() == kept_upto(at.at@, *m, held.regs@.len() as int).len());
            assert(saved@.len() * m.word == above(*held, *at, *m));
            assert(saved@.len() * m.word <= usize::MAX);
        }
        let above_slots = saved.len() * m.word;
        let mut offsets: Vec<usize> = Vec::new();
        let mut i: usize = 0;
        while i < raw.len()
            invariant
                raw@.len() == held.frame@.len(),
                forall|j: int| 0 <= j < held.frame@.len() ==> raw@[j] == reached(held.frame@, j + 1),
                forall|j: int| 0 <= j < held.frame@.len() ==> (#[trigger] raw@[j]) <= size,
                size == round_up(reached(held.frame@, held.frame@.len() as int), at_least_one(m.stack)),
                above_slots == above(*held, *at, *m),
                body_fits(*held, *at, *m),
                i <= raw@.len(),
                offsets@.len() == i,
                forall|j: int| 0 <= j < i ==> offsets@[j] == raw@[j] + above_slots,
            decreases raw@.len() - i,
        {
            offsets.push(raw[i] + above_slots);
            i = i + 1;
        }
        let stack = if m.stack == 0 { 1 } else { m.stack };
        let total = above_slots + size;
        let q = total / stack;
        let up = if total % stack == 0 { q } else { q + 1 };
        proof {
            round_up_bounds(total as int, stack as int);
            assert(up * stack == round_up(total as int, stack as int));
        }
        let b = Body { held, at, m, offsets, frame: up * stack, saved, index };
        proof {
            assert forall|r: Reg| holds(b.saved@, r) <==> (holds(m.saved@, r) && given(at.at@, held.regs@.len() as int, r)) by {
                assert(holds(kept_upto(at.at@, *m, held.regs@.len() as int), r) <==> (holds(m.saved@, r) && given(
                    at.at@,
                    held.regs@.len() as int,
                    r,
                )));
            }
            assert forall|j: int| 0 <= j < held.frame@.len() implies (#[trigger] b.offsets@[j]) - held.frame@[j].bytes >= above(
                *held,
                *at,
                *m,
            ) by {
                assert(raw@[j] >= held.frame@[j].bytes);
            }
        }
        b
    }

    /// Where a register of the body ended up: the register it was given, or
    /// how far below the frame pointer its slot begins -- a word down for a
    /// slot the frame does not have.
    pub fn site(&self, reg: MIRRegId) -> (s: Site)
        ensures
            s == reg_site(self, reg),
    {
        match self.at.of(reg) {
            Where::In(r) => Site::In(r),
            Where::Spilled(slot) => Site::At(if slot < self.offsets.len() { self.offsets[slot] } else { self.m.word }),
            Where::Nowhere => Site::Nowhere,
        }
    }

    /// How wide a value is, which says the width of the instruction that
    /// moves it: never nought and never more than a word, since anything
    /// bigger is held by its address.
    pub fn bytes(&self, reg: MIRRegId) -> (n: usize)
        requires
            self.m.word >= 1,
        ensures
            n == reg_bytes(self, reg),
    {
        let held = if reg < self.held.regs.len() { self.held.regs[reg].bytes } else { self.m.word };
        if held < 1 {
            1
        } else if held > self.m.word {
            self.m.word
        } else {
            held
        }
    }

    /// The file a register's value is in; an integer one for a register not
    /// of the body.
    pub fn class(&self, reg: MIRRegId) -> (c: Class)
        ensures
            c == reg_class(self, reg),
    {
        if reg < self.held.regs.len() {
            self.held.regs[reg].class
        } else {
            Class::Int
        }
    }

    /// How far below the frame pointer one of the saved registers goes.
    pub fn saved_at(&self, which: usize) -> (n: usize)
        requires
            which < usize::MAX,
            (which + 1) * self.m.word <= usize::MAX,
        ensures
            n == (which + 1) * self.m.word,
    {
        (which + 1) * self.m.word
    }
}

/// A block's label: local to the object, and numbered by the body as well as
/// the block, since every body has a block one.
pub open spec fn label_text(index: usize, at: MIRBlockId) -> Seq<char> {
    ".LB"@ + decimal(index as nat) + "_"@ + decimal(at as nat)
}

/// A label names one block of one body: no two blocks, of one body or of
/// two, are given the same label, though every body has a block one.
pub proof fn no_two_labels_alike(i: usize, a: MIRBlockId, j: usize, c: MIRBlockId)
    ensures
        label_text(i, a) == label_text(j, c) ==> i == j && a == c,
{
    if label_text(i, a) == label_text(j, c) {
        reveal_strlit(".LB");
        reveal_strlit("_");
        let s = label_text(i, a);
        let (di, dj) = (decimal(i as nat), decimal(j as nat));
        decimal_is_digits(i as nat);
        decimal_is_digits(j as nat);
        decimal_is_digits(a as nat);
        decimal_is_digits(c as nat);
        let ki: int = 3 + di.len() as int;
        let kj: int = 3 + dj.len() as int;
        assert(s[ki] == '_');
        assert(label_text(j, c)[kj] == '_');
        if ki < kj {
            assert(label_text(j, c)[ki] == dj[ki - 3]);
        } else if kj < ki {
            assert(s[kj] == di[kj - 3]);
        }
        assert(ki == kj);
        assert(s.subrange(3, ki) =~= di);
        assert(label_text(j, c).subrange(3, kj) =~= dj);
        decimal_is_one_to_one(i as nat, j as nat);
        assert(s.subrange(ki + 1, s.len() as int) =~= decimal(a as nat));
        assert(label_text(j, c).subrange(kj + 1, label_text(j, c).len() as int) =~= decimal(c as nat));
        decimal_is_one_to_one(a as nat, c as nat);
    }
}

pub fn label(b: &Body, at: MIRBlockId) -> (r: String)
    ensures
        r@ == label_text(b.index, at),
{
    let mut out = String::new();
    push_text(&mut out, ".LB");
    push_decimal(&mut out, b.index);
    push_text(&mut out, "_");
    push_decimal(&mut out, at);
    proof {
        assert(out@ =~= label_text(b.index, at));
    }
    out
}

/// What a vector instruction is called when it is refused; nothing for any
/// other.
pub open spec fn vector_what(kind: MIRInstKind) -> Option<&'static str> {
    match kind {
        MIRInstKind::Pack(_) => Some("a vector built by hand"),
        MIRInstKind::Lane { .. } => Some("one lane of a vector"),
        MIRInstKind::VecLoad { .. } => Some("a vector read"),
        MIRInstKind::VecStore { .. } => Some("a vector written"),
        _ => None,
    }
}

/// The complaint about one kind of vector instruction in a body.
pub open spec fn refusal(symbol: Seq<char>, what: &'static str) -> Seq<char> {
    symbol + ": "@ + what@ + " is not emitted -- widening is on, and nothing here writes vectors"@
}

/// The complaints about the first `k` lines, each said once.
pub open spec fn refusals(held: Linear, k: int) -> Seq<Seq<char>>
    decreases k,
{
    if k <= 0 {
        Seq::empty()
    } else {
        let prev = refusals(held, k - 1);
        match held.lines@[k - 1] {
            Line::Inst(inst) => match vector_what(inst.kind) {
                Some(what) => if prev.contains(refusal(held.symbol@, what)) { prev } else { prev.push(refusal(held.symbol@, what)) },
                None => prev,
            },
            _ => prev,
        }
    }
}

fn vector_of(kind: &MIRInstKind) -> (r: Option<(usize, &'static str)>)
    ensures
        match r {
            Some((w, what)) => vector_what(*kind) == Some(what) && w < 4 && w == which_vector(*kind),
            None => vector_what(*kind) is None,
        },
{
    match kind {
        MIRInstKind::Pack(_) => Some((0, "a vector built by hand")),
        MIRInstKind::Lane { .. } => Some((1, "one lane of a vector")),
        MIRInstKind::VecLoad { .. } => Some((2, "a vector read")),
        MIRInstKind::VecStore { .. } => Some((3, "a vector written")),
        _ => None,
    }
}

/// Which of the four a vector instruction is.
pub open spec fn which_vector(kind: MIRInstKind) -> usize {
    match kind {
        MIRInstKind::Pack(_) => 0,
        MIRInstKind::Lane { .. } => 1,
        MIRInstKind::VecLoad { .. } => 2,
        _ => 3,
    }
}

/// The name of the `w`th of the four.
pub open spec fn what_of(w: usize) -> &'static str {
    if w == 0 {
        "a vector built by hand"
    } else if w == 1 {
        "one lane of a vector"
    } else if w == 2 {
        "a vector read"
    } else {
        "a vector written"
    }
}

proof fn refusals_differ(symbol: Seq<char>, v: usize, w: usize)
    requires
        v < 4,
        w < 4,
        v != w,
    ensures
        refusal(symbol, what_of(v)) != refusal(symbol, what_of(w)),
{
    reveal_strlit("a vector built by hand");
    reveal_strlit("one lane of a vector");
    reveal_strlit("a vector read");
    reveal_strlit("a vector written");
    assert(refusal(symbol, what_of(v)).len() != refusal(symbol, what_of(w)).len());
}

/// Whether a body holds something no machine's emitter here writes: the four
/// vector instructions, each named once. They reach the MIR only where
/// widening is on, and a body holding one is refused by name rather than
/// emitted wrongly.
pub fn refuses(held: &Linear) -> (r: Vec<String>)
    ensures
        r@.map_values(|s: String| s@) == refusals(*held, held.lines@.len() as int),
{
    let mut out: Vec<String> = Vec::new();
    let mut seen: Vec<bool> = vec![false, false, false, false];
    let mut k: usize = 0;
    while k < held.lines.len()
        invariant
            k <= held.lines@.len(),
            seen@.len() == 4,
            out@.map_values(|s: String| s@) == refusals(*held, k as int),
            forall|w: int| 0 <= w < 4 ==> (#[trigger] seen@[w] <==> refusals(*held, k as int).contains(refusal(held.symbol@, what_of(w as usize)))),
        decreases held.lines@.len() - k,
    {
        let ghost prev = refusals(*held, k as int);
        match &held.lines[k] {
            Line::Inst(inst) => {
                match vector_of(&inst.kind) {
                    Some((w, what)) => {
                        proof {
                            assert(what == what_of(w));
                        }
                        if !seen[w] {
                            let mut said = String::new();
                            push_text(&mut said, held.symbol.as_str());
                            push_text(&mut said, ": ");
                            push_text(&mut said, what);
                            push_text(&mut said, " is not emitted -- widening is on, and nothing here writes vectors");
                            let ghost t = said@;
                            let ghost before = out@;
                            out.push(said);
                            seen.set(w, true);
                            proof {
                                assert(t =~= refusal(held.symbol@, what));
                                assert(out@.map_values(|s: String| s@) =~= before.map_values(|s: String| s@).push(t));
                                let now = refusals(*held, k + 1);
                                assert(now =~= prev.push(t));
                                assert forall|v: int| 0 <= v < 4 implies (#[trigger] seen@[v] <==> now.contains(
                                    refusal(held.symbol@, what_of(v as usize)),
                                )) by {
                                    if v != w {
                                        refusals_differ(held.symbol@, v as usize, w);
                                        if now.contains(refusal(held.symbol@, what_of(v as usize))) {
                                            let i = choose|i: int| 0 <= i < now.len() && now[i] == refusal(held.symbol@, what_of(v as usize));
                                            if i < prev.len() {
                                                assert(prev[i] == now[i]);
                                            }
                                        }
                                        if prev.contains(refusal(held.symbol@, what_of(v as usize))) {
                                            let i = choose|i: int| 0 <= i < prev.len() && prev[i] == refusal(held.symbol@, what_of(v as usize));
                                            assert(now[i] == prev[i]);
                                        }
                                    } else {
                                        assert(now[now.len() - 1] == t);
                                    }
                                }
                            }
                        } else {
                            proof {
                                assert(refusals(*held, k + 1) == prev);
                            }
                        }
                    },
                    None => {},
                }
            },
            _ => {},
        }
        k = k + 1;
    }
    out
}

} // verus!
