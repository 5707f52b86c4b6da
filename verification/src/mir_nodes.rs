//! What the MIR is made of, in the shape it has while it is still a graph.
//!
//! The vocabulary is the machine's: a field is an address and a number of
//! bytes from it, a division is signed or unsigned, a release is a call. The
//! shape is still SSA: every register is defined once, and the phis are still
//! here. A register is a name for one value; how many a machine has is
//! `machine`'s business and nothing here knows it.

use vstd::prelude::*;
use crate::machine::Class;

verus! {

/// Numbered within the body that holds them.
pub type MIRRegId = usize;

pub type MIRBlockId = usize;

pub type MIRFrameId = usize;

pub type MIRBodyId = usize;

#[derive(Debug, Clone, PartialEq)]
pub struct MIRProgram {
    pub bodies: Vec<MIRBody>,
    /// What a literal too big to stand in an instruction is kept in.
    pub pool: Vec<MIRConstant>,
    /// The globals: places, which may be written to.
    pub data: Vec<MIRGlobal>,
}

/// One global, and the bytes it starts as.
#[derive(Debug, Clone, PartialEq)]
pub struct MIRGlobal {
    pub symbol: String,
    pub bytes: Vec<u8>,
    pub align: usize,
}

/// One thing in the constant pool, under the symbol that reaches it.
#[derive(Debug, Clone, PartialEq)]
pub struct MIRConstant {
    pub symbol: String,
    pub held: MIRConstBody,
}

/// What is under a constant's name: bytes, or a run of names the linker fills
/// in -- a trait object's table is one address per member.
#[derive(Debug, Clone, PartialEq)]
pub enum MIRConstBody {
    Bytes(Vec<u8>),
    Words(Vec<String>),
}

#[derive(Debug, Clone, PartialEq)]
pub struct MIRBody {
    /// What the linker calls it.
    pub symbol: String,
    pub entry: MIRBlockId,
    pub blocks: Vec<MIRBlock>,
    /// Every register the body makes, by the id that names it.
    pub regs: Vec<MIRReg>,
    pub frame: Vec<MIRSlot>,
    /// What the caller filled, in the order the signature declared them.
    pub params: Vec<MIRRegId>,
}

/// One value, and what a machine would need to hold it: which file, how wide,
/// and how many lanes.
#[derive(Debug, Clone, Copy, PartialEq)]
pub struct MIRReg {
    pub class: Class,
    pub bytes: usize,
    pub lanes: usize,
    pub line: usize,
    pub col: usize,
}

impl MIRReg {
    /// One of its width, which is what all but the widened ones are.
    pub fn one(class: Class, bytes: usize, line: usize, col: usize) -> (r: MIRReg)
        ensures
            r == (MIRReg { class, bytes, lanes: 1, line, col }),
    {
        MIRReg { class, bytes, lanes: 1, line, col }
    }
}

/// Somewhere in the frame: a local, an aggregate built somewhere, or a
/// register the allocator could not find room for.
#[derive(Debug, Clone, PartialEq)]
pub struct MIRSlot {
    pub bytes: usize,
    pub align: usize,
    pub name: String,
    /// Whether the allocator made it rather than the program.
    pub spill: bool,
}

#[derive(Debug, Clone, PartialEq)]
pub struct MIRBlock {
    /// Read before the block begins, all at once.
    pub phis: Vec<MIRPhi>,
    pub insts: Vec<MIRInst>,
    pub term: MIRTerm,
    pub line: usize,
    pub col: usize,
}

#[derive(Debug, Clone, PartialEq)]
pub struct MIRPhi {
    pub def: MIRRegId,
    pub edges: Vec<(MIRBlockId, MIRRegId)>,
}

#[derive(Debug, Clone, PartialEq)]
pub struct MIRInst {
    /// What it makes, where it makes something.
    pub def: Option<MIRRegId>,
    pub kind: MIRInstKind,
    pub line: usize,
    pub col: usize,
}

#[derive(Debug, Clone, PartialEq)]
pub enum MIRInstKind {
    Const(MIRConst),
    /// One register into another.
    Move(MIRRegId),
    Un { op: MIRUnOp, operand: MIRRegId },
    Bin { op: MIRBinOp, lhs: MIRRegId, rhs: MIRRegId },
    /// Answers with a one or a nought.
    Cmp { op: MIRCmpOp, lhs: MIRRegId, rhs: MIRRegId },
    /// Between widths and between the two files; both ends are named.
    Convert { of: MIRRegId, from: MIRScalar, to: MIRScalar },
    /// Where a slot of this frame begins.
    Frame(MIRFrameId),
    /// Where something the linker knows about begins.
    Symbol(String),
    /// A fixed number of bytes along.
    Offset { base: MIRRegId, bytes: i64 },
    /// `base + index * scale`.
    Scaled { base: MIRRegId, index: MIRRegId, scale: usize },
    Load { from: MIRRegId, bytes: usize },
    Store { to: MIRRegId, value: MIRRegId, bytes: usize },
    /// A whole aggregate from one address to another.
    Copy { to: MIRRegId, from: MIRRegId, bytes: usize },
    /// Every call, whatever it was before.
    Call { to: MIRCallee, args: Vec<MIRRegId> },
    Pack(Vec<MIRRegId>),
    Lane { of: MIRRegId, at: usize },
    VecLoad { from: MIRRegId, bytes: usize, lanes: usize },
    VecStore { to: MIRRegId, value: MIRRegId },
    /// A register read on a path that never wrote it.
    Undef,
}

/// What a call names: a symbol known before anything runs, or an address
/// that is not.
#[derive(Debug, Clone, PartialEq)]
pub enum MIRCallee {
    Symbol(String),
    Reg(MIRRegId),
}

/// What fits in an instruction rather than in memory. A floating-point
/// constant is kept as its IEEE 754 bits at the width of the register it is
/// made into -- a double's eight bytes, or a single's four in the low half --
/// which is what an instruction or a data directive carries of it.
#[derive(Debug, Clone, Copy, PartialEq)]
pub enum MIRConst {
    Int(i64),
    Float(u64),
}

/// A width and whether the top bit means anything.
#[derive(Debug, Clone, Copy, PartialEq, Eq, Structural)]
pub enum MIRScalar {
    Int { bytes: usize, signed: bool },
    Float { bytes: usize },
}

impl MIRScalar {
    pub fn bytes(&self) -> (r: usize)
        ensures
            r == (match *self {
                MIRScalar::Int { bytes, .. } => bytes,
                MIRScalar::Float { bytes } => bytes,
            }),
    {
        match self {
            MIRScalar::Int { bytes, .. } => *bytes,
            MIRScalar::Float { bytes } => *bytes,
        }
    }

    pub fn class(&self) -> (r: Class)
        ensures
            r == (match *self {
                MIRScalar::Int { .. } => Class::Int,
                MIRScalar::Float { .. } => Class::Float,
            }),
    {
        match self {
            MIRScalar::Int { .. } => Class::Int,
            MIRScalar::Float { .. } => Class::Float,
        }
    }
}

#[derive(Debug, Clone, Copy, PartialEq, Eq, Structural)]
pub enum MIRUnOp {
    Neg,
    FNeg,
    Not,
}

/// The operators the machine has: signed and unsigned division, logical and
/// arithmetic shifts, and the floating ones, each its own.
#[derive(Debug, Clone, Copy, PartialEq, Eq, Structural)]
pub enum MIRBinOp {
    Add,
    Sub,
    Mul,
    SDiv,
    UDiv,
    SRem,
    URem,
    And,
    Or,
    Xor,
    Shl,
    LShr,
    AShr,
    FAdd,
    FSub,
    FMul,
    FDiv,
}

#[derive(Debug, Clone, Copy, PartialEq, Eq, Structural)]
pub enum MIRCmpOp {
    Eq,
    Ne,
    SLt,
    SLe,
    SGt,
    SGe,
    ULt,
    ULe,
    UGt,
    UGe,
    FEq,
    FNe,
    FLt,
    FLe,
    FGt,
    FGe,
}

/// The value a `bits`-wide pattern stands for read as two's complement: a
/// pattern with its top bit set stands for itself less two to the `bits`.
pub open spec fn signed_of(u: int, bits: nat) -> int {
    if bits > 0 && u >= vstd::arithmetic::power2::pow2((bits - 1) as nat) {
        u - vstd::arithmetic::power2::pow2(bits)
    } else {
        u
    }
}

/// No two `bits`-wide patterns stand for the same value read as two's
/// complement.
pub proof fn signed_of_one_to_one(x: int, y: int, bits: nat)
    requires
        bits > 0,
        0 <= x < vstd::arithmetic::power2::pow2(bits),
        0 <= y < vstd::arithmetic::power2::pow2(bits),
    ensures
        signed_of(x, bits) == signed_of(y, bits) ==> x == y,
{
    vstd::arithmetic::power2::lemma_pow2_unfold(bits);
}

/// Whether a comparison is of integers rather than floats.
pub open spec fn compares_integers(op: MIRCmpOp) -> bool {
    !(op is FEq || op is FNe || op is FLt || op is FLe || op is FGt || op is FGe)
}

/// Whether an integer comparison holds between two `bits`-wide values, each
/// given as the pattern it is held in: the `S` comparisons read both as
/// two's complement, the `U` ones as they stand, and equality is sameness of
/// the patterns.
pub open spec fn comparison_holds(op: MIRCmpOp, x: int, y: int, bits: nat) -> bool {
    let (sx, sy) = (signed_of(x, bits), signed_of(y, bits));
    match op {
        MIRCmpOp::Eq => x == y,
        MIRCmpOp::Ne => x != y,
        MIRCmpOp::SLt => sx < sy,
        MIRCmpOp::SLe => sx <= sy,
        MIRCmpOp::SGt => sx > sy,
        MIRCmpOp::SGe => sx >= sy,
        MIRCmpOp::ULt => x < y,
        MIRCmpOp::ULe => x <= y,
        MIRCmpOp::UGt => x > y,
        MIRCmpOp::UGe => x >= y,
        _ => false,
    }
}

/// Whether an integer comparison reads its operands as two's complement,
/// so that a narrow operand is widened by its sign rather than by noughts.
pub open spec fn compares_signed(op: MIRCmpOp) -> bool {
    op is SLt || op is SLe || op is SGt || op is SGe
}

/// A `from`-wide pattern widened to `to` bits: by copies of its top bit
/// where `by_sign` says so, by noughts otherwise.
pub open spec fn extended(x: int, from: nat, to: nat, by_sign: bool) -> int {
    if by_sign && from > 0 && x >= vstd::arithmetic::power2::pow2((from - 1) as nat) {
        x + vstd::arithmetic::power2::pow2(to) - vstd::arithmetic::power2::pow2(from)
    } else {
        x
    }
}

/// Widening both operands of an integer comparison the way
/// `compares_signed` says -- by the sign for a signed comparison, by noughts
/// for the rest -- leaves its answer as it was on the narrow values.
pub proof fn widening_keeps_comparisons(op: MIRCmpOp, x: int, y: int, from: nat, to: nat)
    requires
        compares_integers(op),
        0 < from <= to,
        0 <= x < vstd::arithmetic::power2::pow2(from),
        0 <= y < vstd::arithmetic::power2::pow2(from),
    ensures
        comparison_holds(
            op,
            extended(x, from, to, compares_signed(op)),
            extended(y, from, to, compares_signed(op)),
            to,
        ) == comparison_holds(op, x, y, from),
{
    vstd::arithmetic::power2::lemma_pow2_unfold(from);
    vstd::arithmetic::power2::lemma_pow2_unfold(to);
    if from < to {
        vstd::arithmetic::power2::lemma_pow2_strictly_increases((from - 1) as nat, (to - 1) as nat);
    }
    if compares_signed(op) {
        widened_by_sign(x, from, to);
        widened_by_sign(y, from, to);
    }
}

proof fn widened_by_sign(x: int, from: nat, to: nat)
    requires
        0 < from <= to,
        0 <= x < vstd::arithmetic::power2::pow2(from),
    ensures
        signed_of(extended(x, from, to, true), to) == signed_of(x, from),
{
    vstd::arithmetic::power2::lemma_pow2_unfold(from);
    vstd::arithmetic::power2::lemma_pow2_unfold(to);
    if from < to {
        vstd::arithmetic::power2::lemma_pow2_strictly_increases((from - 1) as nat, (to - 1) as nat);
    }
}

/// How a block ends.
#[derive(Debug, Clone, Copy, PartialEq, Eq)]
pub enum MIRTerm {
    Goto(MIRBlockId),
    Branch { cond: MIRRegId, then: MIRBlockId, els: MIRBlockId },
    Return(Option<MIRRegId>),
    Unreachable,
}

impl MIRTerm {
    /// Where a terminator may go next.
    pub open spec fn spec_targets(&self) -> Seq<MIRBlockId> {
        match *self {
            MIRTerm::Goto(to) => seq![to],
            MIRTerm::Branch { then, els, .. } => seq![then, els],
            _ => seq![],
        }
    }

    /// What a terminator reads: the condition, the answer, or nothing.
    pub open spec fn spec_uses(&self) -> Seq<MIRRegId> {
        match *self {
            MIRTerm::Branch { cond, .. } => seq![cond],
            MIRTerm::Return(Some(reg)) => seq![reg],
            _ => seq![],
        }
    }

    pub fn targets(&self) -> (r: Vec<MIRBlockId>)
        ensures
            r@ == self.spec_targets(),
    {
        match self {
            MIRTerm::Goto(to) => vec![*to],
            MIRTerm::Branch { then, els, .. } => vec![*then, *els],
            MIRTerm::Return(_) => Vec::new(),
            MIRTerm::Unreachable => Vec::new(),
        }
    }

    pub fn uses(&self) -> (r: Vec<MIRRegId>)
        ensures
            r@ == self.spec_uses(),
    {
        match self {
            MIRTerm::Branch { cond, .. } => vec![*cond],
            MIRTerm::Return(Some(reg)) => vec![*reg],
            _ => Vec::new(),
        }
    }
}

impl MIRBody {
    /// Whether block `at` ends by going to `to`.
    pub open spec fn goes(&self, at: int, to: int) -> bool {
        0 <= at < self.blocks@.len() && self.blocks@[at].term.spec_targets().contains(to as MIRBlockId)
    }

    /// Whether `path` is a way through the body from its entry, every block
    /// of it in the arena.
    pub open spec fn walks(&self, path: Seq<MIRBlockId>) -> bool {
        &&& path.len() >= 1
        &&& path[0] == self.entry
        &&& forall|i: int| 0 <= i < path.len() ==> #[trigger] path[i] < self.blocks@.len()
        &&& forall|i: int| 0 <= i < path.len() - 1 ==> self.goes(#[trigger] path[i] as int, path[i + 1] as int)
    }

    /// Whether the entry reaches `at`.
    pub open spec fn reaches(&self, at: int) -> bool {
        exists|path: Seq<MIRBlockId>| #[trigger] self.walks(path) && path.last() == at
    }

    /// The blocks below `k` whose terminator names `to`, lowest first.
    pub open spec fn preds_upto(&self, to: int, k: int) -> Seq<MIRBlockId>
        decreases k,
    {
        if k <= 0 {
            Seq::empty()
        } else {
            self.preds_upto(to, k - 1) + if self.goes(k - 1, to) { seq![(k - 1) as MIRBlockId] } else { Seq::empty() }
        }
    }

    /// Which blocks reach which, by the block reached: one list per block, of
    /// every block whose terminator names it, lowest first and each once. A
    /// block nothing reaches has an empty one.
    pub fn preds(&self) -> (r: Vec<Vec<MIRBlockId>>)
        ensures
            r@.len() == self.blocks@.len(),
            forall|to: int, x: int|
                0 <= to < r@.len() ==> (#[trigger] r@[to]@.contains(x as MIRBlockId) && 0 <= x <= usize::MAX <==> self.goes(
                    x,
                    to,
                )),
            forall|to: int, i: int, j: int|
                0 <= to < r@.len() && 0 <= i < j < r@[to]@.len() ==> #[trigger] r@[to]@[i] < #[trigger] r@[to]@[j],
            forall|to: int| 0 <= to < r@.len() ==> (#[trigger] r@[to])@ == self.preds_upto(to, self.blocks@.len() as int),
    {
        let n = self.blocks.len();
        let mut out: Vec<Vec<MIRBlockId>> = Vec::new();
        let mut to: usize = 0;
        while to < n
            invariant
                n == self.blocks@.len(),
                to <= n,
                out@.len() == to,
                forall|t: int, x: int|
                    0 <= t < to ==> (#[trigger] out@[t]@.contains(x as MIRBlockId) && 0 <= x <= usize::MAX <==> self.goes(x, t)),
                forall|t: int, i: int, j: int|
                    0 <= t < to && 0 <= i < j < out@[t]@.len() ==> #[trigger] out@[t]@[i] < #[trigger] out@[t]@[j],
                forall|t: int| 0 <= t < to ==> (#[trigger] out@[t])@ == self.preds_upto(t, n as int),
            decreases n - to,
        {
            let mut row: Vec<MIRBlockId> = Vec::new();
            let mut at: usize = 0;
            while at < n
                invariant
                    n == self.blocks@.len(),
                    to < n,
                    at <= n,
                    forall|x: int| #[trigger] row@.contains(x as MIRBlockId) && 0 <= x <= usize::MAX <==> (x < at && self.goes(x, to as int)),
                    forall|i: int, j: int| 0 <= i < j < row@.len() ==> #[trigger] row@[i] < #[trigger] row@[j],
                    forall|i: int| 0 <= i < row@.len() ==> #[trigger] row@[i] < at,
                    row@ == self.preds_upto(to as int, at as int),
                decreases n - at,
            {
                let targets = self.blocks[at].term.targets();
                let mut hit = false;
                let mut k: usize = 0;
                while k < targets.len()
                    invariant
                        k <= targets@.len(),
                        hit <==> exists|j: int| 0 <= j < k && targets@[j] == to,
                    decreases targets@.len() - k,
                {
                    if targets[k] == to {
                        hit = true;
                    }
                    k = k + 1;
                }
                proof {
                    assert(hit <==> targets@.contains(to));
                }
                let ghost before = row@;
                if hit {
                    row.push(at);
                }
                proof {
                    assert forall|x: int|
                        #[trigger] row@.contains(x as MIRBlockId) && 0 <= x <= usize::MAX <==> (x < at + 1 && self.goes(
                            x,
                            to as int,
                        )) by {
                        if hit && x == at {
                            assert(row@[row@.len() - 1] == at);
                        }
                        if row@.contains(x as MIRBlockId) && 0 <= x <= usize::MAX && x != at {
                            let i = choose|i: int| 0 <= i < row@.len() && row@[i] == x as MIRBlockId;
                            if hit {
                                assert(i < before.len());
                            }
                            assert(before.contains(x as MIRBlockId));
                        }
                        if x < at && self.goes(x, to as int) {
                            assert(before.contains(x as MIRBlockId));
                            let i = choose|i: int| 0 <= i < before.len() && before[i] == x as MIRBlockId;
                            assert(row@[i] == x as MIRBlockId);
                        }
                    }
                }
                at = at + 1;
            }
            out.push(row);
            proof {
                assert forall|t: int, x: int|
                    0 <= t < to + 1 implies (#[trigger] out@[t]@.contains(x as MIRBlockId) && 0 <= x <= usize::MAX <==> self.goes(
                        x,
                        t,
                    )) by {
                    if t == to {
                        if self.goes(x, t) {
                            assert(x < n);
                        }
                    }
                }
            }
            to = to + 1;
        }
        out
    }
}

/// How many of `on` are still off.
pub open spec fn off_count(on: Seq<bool>) -> nat
    decreases on.len(),
{
    if on.len() == 0 {
        0
    } else {
        off_count(on.drop_last()) + if on.last() { 0nat } else { 1nat }
    }
}

pub proof fn off_count_turned_on(on: Seq<bool>, at: int)
    requires
        0 <= at < on.len(),
        !on[at],
    ensures
        off_count(on.update(at, true)) + 1 == off_count(on),
    decreases on.len(),
{
    let up = on.update(at, true);
    if at < on.len() - 1 {
        off_count_turned_on(on.drop_last(), at);
        assert(up.drop_last() =~= on.drop_last().update(at, true));
    } else {
        assert(up.drop_last() =~= on.drop_last());
    }
}

/// A way through the body, one block longer.
pub proof fn walks_on(body: MIRBody, path: Seq<MIRBlockId>, to: MIRBlockId)
    requires
        body.walks(path),
        body.goes(path.last() as int, to as int),
        to < body.blocks@.len(),
    ensures
        body.walks(path.push(to)),
        path.push(to).last() == to,
{
    let p = path.push(to);
    assert forall|i: int| 0 <= i < p.len() - 1 implies body.goes(#[trigger] p[i] as int, p[i + 1] as int) by {
        if i < path.len() - 1 {
            assert(p[i] == path[i] && p[i + 1] == path[i + 1]);
        }
    }
    assert forall|i: int| 0 <= i < p.len() implies #[trigger] p[i] < body.blocks@.len() by {
        if i < path.len() {
            assert(p[i] == path[i]);
        }
    }
}

/// Where every block a block goes to is on, every block a way reaches is on.
pub proof fn closed_reaches(body: MIRBody, on: Seq<bool>, path: Seq<MIRBlockId>)
    requires
        on.len() == body.blocks@.len(),
        body.walks(path),
        body.entry < on.len() ==> on[body.entry as int],
        forall|a: int, t: int| 0 <= a < on.len() && on[a] && #[trigger] body.goes(a, t) && 0 <= t < on.len() ==> on[t],
    ensures
        on[path.last() as int],
    decreases path.len(),
{
    if path.len() > 1 {
        let front = path.drop_last();
        assert(body.walks(front)) by {
            assert forall|i: int| 0 <= i < front.len() - 1 implies body.goes(#[trigger] front[i] as int, front[i + 1] as int) by {
                assert(front[i] == path[i] && front[i + 1] == path[i + 1]);
            }
            assert forall|i: int| 0 <= i < front.len() implies #[trigger] front[i] < body.blocks@.len() by {
                assert(front[i] == path[i]);
            }
        }
        closed_reaches(body, on, front);
        assert(body.goes(path[path.len() - 2] as int, path[path.len() - 1] as int));
        assert(path[path.len() - 1] < body.blocks@.len());
    } else {
        assert(path[0] < body.blocks@.len());
    }
}

impl MIRBody {
    /// Puts every block `at` goes to on `todo`, once `at` is reached.
    fn step_from(&self, at: MIRBlockId, todo: &mut Vec<MIRBlockId>, Ghost(was): Ghost<Seq<MIRBlockId>>, Ghost(rest): Ghost<Seq<MIRBlockId>>)
        requires
            at < self.blocks@.len(),
            self.reaches(at as int),
            old(todo)@ == rest,
            was == rest.push(at),
            forall|i: int| 0 <= i < was.len() && #[trigger] was[i] < self.blocks@.len() ==> self.reaches(was[i] as int),
        ensures
            final(todo)@ == rest + self.blocks@[at as int].term.spec_targets(),
            forall|i: int| 0 <= i < final(todo)@.len() && #[trigger] final(todo)@[i] < self.blocks@.len() ==> self.reaches(
                final(todo)@[i] as int,
            ),
    {
        let targets = self.blocks[at].term.targets();
        let mut k: usize = 0;
        while k < targets.len()
            invariant
                targets@ == self.blocks@[at as int].term.spec_targets(),
                k <= targets@.len(),
                todo@ == rest + targets@.subrange(0, k as int),
            decreases targets@.len() - k,
        {
            todo.push(targets[k]);
            proof {
                assert(todo@ =~= rest + targets@.subrange(0, k + 1));
            }
            k = k + 1;
        }
        proof {
            assert(targets@.subrange(0, k as int) =~= targets@);
            assert forall|i: int| 0 <= i < todo@.len() && #[trigger] todo@[i] < self.blocks@.len() implies self.reaches(
                todo@[i] as int,
            ) by {
                if i < rest.len() {
                    assert(todo@[i] == was[i]);
                } else {
                    let t = todo@[i];
                    assert(t == targets@[i - rest.len()]);
                    assert(self.goes(at as int, t as int));
                    let path = choose|path: Seq<MIRBlockId>| #[trigger] self.walks(path) && path.last() == at as int;
                    walks_on(*self, path, t);
                }
            }
        }
    }

    /// Which blocks the entry reaches. Nothing shrinks a block arena, so a
    /// block a rewrite emptied is still in it, and every count that means
    /// anything is over these rather than over all of them.
    pub fn live(&self) -> (r: Vec<bool>)
        ensures
            r@.len() == self.blocks@.len(),
            forall|at: int| 0 <= at < r@.len() ==> (#[trigger] r@[at] <==> self.reaches(at)),
    {
        let n = self.blocks.len();
        let mut on: Vec<bool> = Vec::new();
        let mut i: usize = 0;
        while i < n
            invariant
                i <= n,
                on@.len() == i,
                forall|j: int| 0 <= j < i ==> !#[trigger] on@[j],
            decreases n - i,
        {
            on.push(false);
            i = i + 1;
        }
        let mut todo: Vec<MIRBlockId> = Vec::new();
        todo.push(self.entry);
        proof {
            assert(todo@[0] == self.entry);
            if self.entry < n {
                let path = seq![self.entry];
                assert(self.walks(path));
            }
        }
        while todo.len() > 0
            invariant
                n == self.blocks@.len(),
                on@.len() == n,
                forall|a: int| 0 <= a < n && #[trigger] on@[a] ==> self.reaches(a),
                forall|i: int| 0 <= i < todo@.len() && #[trigger] todo@[i] < n ==> self.reaches(todo@[i] as int),
                self.entry < n ==> on@[self.entry as int] || todo@.contains(self.entry),
                forall|a: int, t: int|
                    0 <= a < n && on@[a] && #[trigger] self.goes(a, t) && 0 <= t < n ==> on@[t] || todo@.contains(
                        t as MIRBlockId,
                    ),
            decreases 3 * off_count(on@) + todo@.len(),
        {
            let ghost was = todo@;
            let at = todo.pop().unwrap();
            let ghost rest = todo@;
            proof {
                assert(was =~= rest.push(at));
            }
            if at >= n || on[at] {
                proof {
                    assert forall|a: int, t: int|
                        0 <= a < n && on@[a] && #[trigger] self.goes(a, t) && 0 <= t < n implies on@[t] || todo@.contains(
                            t as MIRBlockId,
                        ) by {
                        if !on@[t] {
                            assert(was.contains(t as MIRBlockId));
                            let j = choose|j: int| 0 <= j < was.len() && was[j] == t as MIRBlockId;
                            if j < rest.len() {
                                assert(rest[j] == was[j]);
                            }
                        }
                    }
                    if self.entry < n && !on@[self.entry as int] {
                        let j = choose|j: int| 0 <= j < was.len() && was[j] == self.entry;
                        if j < rest.len() {
                            assert(rest[j] == was[j]);
                        }
                    }
                    assert forall|i: int| 0 <= i < todo@.len() && #[trigger] todo@[i] < n implies self.reaches(
                        todo@[i] as int,
                    ) by {
                        assert(todo@[i] == was[i]);
                    }
                }
                continue;
            }
            proof {
                assert(was[was.len() - 1] == at);
                off_count_turned_on(on@, at as int);
            }
            let ghost off = on@;
            on.set(at, true);
            self.step_from(at, &mut todo, Ghost(was), Ghost(rest));
            proof {
                let tg = self.blocks@[at as int].term.spec_targets();
                assert forall|a: int, t: int|
                    0 <= a < n && on@[a] && #[trigger] self.goes(a, t) && 0 <= t < n implies on@[t] || todo@.contains(
                        t as MIRBlockId,
                    ) by {
                    if a == at as int {
                        let j = choose|j: int| 0 <= j < tg.len() && tg[j] == t as MIRBlockId;
                        assert(todo@[rest.len() + j] == t as MIRBlockId);
                    } else if !on@[t] {
                        assert(off[a]);
                        assert(was.contains(t as MIRBlockId));
                        let j = choose|j: int| 0 <= j < was.len() && was[j] == t as MIRBlockId;
                        if j < rest.len() {
                            assert(todo@[j] == rest[j]);
                        }
                    }
                }
                if self.entry < n && !on@[self.entry as int] {
                    let j = choose|j: int| 0 <= j < was.len() && was[j] == self.entry;
                    if j < rest.len() {
                        assert(todo@[j] == rest[j]);
                    }
                }
            }
        }
        proof {
            assert forall|at: int| 0 <= at < n implies (#[trigger] on@[at] <==> self.reaches(at)) by {
                if self.reaches(at) {
                    let path = choose|path: Seq<MIRBlockId>| #[trigger] self.walks(path) && path.last() == at;
                    closed_reaches(*self, on@, path);
                }
            }
        }
        on
    }
}

/// What a call reads of its callee: the register holding it, or nothing for
/// a symbol.
pub open spec fn callee_uses(to: MIRCallee) -> Seq<MIRRegId> {
    match to {
        MIRCallee::Reg(reg) => seq![reg],
        MIRCallee::Symbol(_) => seq![],
    }
}

/// What an instruction reads, in the order it names them.
pub open spec fn kind_uses(kind: MIRInstKind) -> Seq<MIRRegId> {
    match kind {
        MIRInstKind::Const(_) => seq![],
        MIRInstKind::Frame(_) => seq![],
        MIRInstKind::Symbol(_) => seq![],
        MIRInstKind::Undef => seq![],
        MIRInstKind::Move(of) => seq![of],
        MIRInstKind::Un { operand, .. } => seq![operand],
        MIRInstKind::Lane { of, .. } => seq![of],
        MIRInstKind::Offset { base, .. } => seq![base],
        MIRInstKind::Load { from, .. } => seq![from],
        MIRInstKind::VecLoad { from, .. } => seq![from],
        MIRInstKind::Bin { lhs, rhs, .. } => seq![lhs, rhs],
        MIRInstKind::Cmp { lhs, rhs, .. } => seq![lhs, rhs],
        MIRInstKind::Convert { of, .. } => seq![of],
        MIRInstKind::Scaled { base, index, .. } => seq![base, index],
        MIRInstKind::Store { to, value, .. } => seq![to, value],
        MIRInstKind::VecStore { to, value } => seq![to, value],
        MIRInstKind::Copy { to, from, .. } => seq![to, from],
        MIRInstKind::Pack(of) => of@,
        MIRInstKind::Call { to, args } => callee_uses(to) + args@,
    }
}

/// `ids` again, as a list of its own.
pub fn copied(ids: &Vec<MIRRegId>) -> (r: Vec<MIRRegId>)
    ensures
        r@ == ids@,
{
    let mut out: Vec<MIRRegId> = Vec::new();
    let mut i: usize = 0;
    while i < ids.len()
        invariant
            i <= ids@.len(),
            out@ == ids@.subrange(0, i as int),
        decreases ids@.len() - i,
    {
        out.push(ids[i]);
        proof {
            assert(out@ =~= ids@.subrange(0, i + 1));
        }
        i = i + 1;
    }
    proof {
        assert(ids@.subrange(0, ids@.len() as int) =~= ids@);
    }
    out
}

/// What an instruction reads.
pub fn uses(kind: &MIRInstKind) -> (r: Vec<MIRRegId>)
    ensures
        r@ == kind_uses(*kind),
{
    match kind {
        MIRInstKind::Const(_) | MIRInstKind::Frame(_) | MIRInstKind::Symbol(_) | MIRInstKind::Undef => Vec::new(),
        MIRInstKind::Move(of) => vec![*of],
        MIRInstKind::Un { operand, .. } => vec![*operand],
        MIRInstKind::Lane { of, .. } => vec![*of],
        MIRInstKind::Offset { base, .. } => vec![*base],
        MIRInstKind::Load { from, .. } => vec![*from],
        MIRInstKind::VecLoad { from, .. } => vec![*from],
        MIRInstKind::Bin { lhs, rhs, .. } => vec![*lhs, *rhs],
        MIRInstKind::Cmp { lhs, rhs, .. } => vec![*lhs, *rhs],
        MIRInstKind::Convert { of, .. } => vec![*of],
        MIRInstKind::Scaled { base, index, .. } => vec![*base, *index],
        MIRInstKind::Store { to, value, .. } => vec![*to, *value],
        MIRInstKind::VecStore { to, value } => vec![*to, *value],
        MIRInstKind::Copy { to, from, .. } => vec![*to, *from],
        MIRInstKind::Pack(of) => copied(of),
        MIRInstKind::Call { to, args } => {
            let mut held: Vec<MIRRegId> = match to {
                MIRCallee::Reg(reg) => vec![*reg],
                MIRCallee::Symbol(_) => Vec::new(),
            };
            let ghost first = held@;
            let mut i: usize = 0;
            while i < args.len()
                invariant
                    i <= args@.len(),
                    first == callee_uses(*to),
                    held@ == first + args@.subrange(0, i as int),
                decreases args@.len() - i,
            {
                held.push(args[i]);
                proof {
                    assert(held@ =~= first + args@.subrange(0, i + 1));
                }
                i = i + 1;
            }
            proof {
                assert(args@.subrange(0, args@.len() as int) =~= args@);
            }
            held
        },
    }
}

// ---- What the nodes hold, as values ------------------------------------------

/// What a callee is, with a symbol as its text.
pub ghost enum CalleeV {
    Symbol(Seq<char>),
    Reg(MIRRegId),
}

/// An instruction's kind, with every list and every name as a value.
pub ghost enum KindV {
    Const(MIRConst),
    Move(MIRRegId),
    Un { op: MIRUnOp, operand: MIRRegId },
    Bin { op: MIRBinOp, lhs: MIRRegId, rhs: MIRRegId },
    Cmp { op: MIRCmpOp, lhs: MIRRegId, rhs: MIRRegId },
    Convert { of: MIRRegId, from: MIRScalar, to: MIRScalar },
    Frame(MIRFrameId),
    Symbol(Seq<char>),
    Offset { base: MIRRegId, bytes: i64 },
    Scaled { base: MIRRegId, index: MIRRegId, scale: usize },
    Load { from: MIRRegId, bytes: usize },
    Store { to: MIRRegId, value: MIRRegId, bytes: usize },
    Copy { to: MIRRegId, from: MIRRegId, bytes: usize },
    Call { to: CalleeV, args: Seq<MIRRegId> },
    Pack(Seq<MIRRegId>),
    Lane { of: MIRRegId, at: usize },
    VecLoad { from: MIRRegId, bytes: usize, lanes: usize },
    VecStore { to: MIRRegId, value: MIRRegId },
    Undef,
}

pub ghost struct InstV {
    pub def: Option<MIRRegId>,
    pub kind: KindV,
    pub line: usize,
    pub col: usize,
}

pub ghost struct PhiV {
    pub def: MIRRegId,
    pub edges: Seq<(MIRBlockId, MIRRegId)>,
}

pub ghost struct BlockV {
    pub phis: Seq<PhiV>,
    pub insts: Seq<InstV>,
    pub term: MIRTerm,
    pub line: usize,
    pub col: usize,
}

impl View for MIRCallee {
    type V = CalleeV;

    open spec fn view(&self) -> CalleeV {
        match self {
            MIRCallee::Symbol(s) => CalleeV::Symbol(s@),
            MIRCallee::Reg(r) => CalleeV::Reg(*r),
        }
    }
}

impl View for MIRInstKind {
    type V = KindV;

    open spec fn view(&self) -> KindV {
        match self {
            MIRInstKind::Const(c) => KindV::Const(*c),
            MIRInstKind::Move(of) => KindV::Move(*of),
            MIRInstKind::Un { op, operand } => KindV::Un { op: *op, operand: *operand },
            MIRInstKind::Bin { op, lhs, rhs } => KindV::Bin { op: *op, lhs: *lhs, rhs: *rhs },
            MIRInstKind::Cmp { op, lhs, rhs } => KindV::Cmp { op: *op, lhs: *lhs, rhs: *rhs },
            MIRInstKind::Convert { of, from, to } => KindV::Convert { of: *of, from: *from, to: *to },
            MIRInstKind::Frame(slot) => KindV::Frame(*slot),
            MIRInstKind::Symbol(name) => KindV::Symbol(name@),
            MIRInstKind::Offset { base, bytes } => KindV::Offset { base: *base, bytes: *bytes },
            MIRInstKind::Scaled { base, index, scale } => KindV::Scaled { base: *base, index: *index, scale: *scale },
            MIRInstKind::Load { from, bytes } => KindV::Load { from: *from, bytes: *bytes },
            MIRInstKind::Store { to, value, bytes } => KindV::Store { to: *to, value: *value, bytes: *bytes },
            MIRInstKind::Copy { to, from, bytes } => KindV::Copy { to: *to, from: *from, bytes: *bytes },
            MIRInstKind::Call { to, args } => KindV::Call { to: to@, args: args@ },
            MIRInstKind::Pack(of) => KindV::Pack(of@),
            MIRInstKind::Lane { of, at } => KindV::Lane { of: *of, at: *at },
            MIRInstKind::VecLoad { from, bytes, lanes } => KindV::VecLoad { from: *from, bytes: *bytes, lanes: *lanes },
            MIRInstKind::VecStore { to, value } => KindV::VecStore { to: *to, value: *value },
            MIRInstKind::Undef => KindV::Undef,
        }
    }
}

impl View for MIRInst {
    type V = InstV;

    open spec fn view(&self) -> InstV {
        InstV { def: self.def, kind: self.kind@, line: self.line, col: self.col }
    }
}

impl View for MIRPhi {
    type V = PhiV;

    open spec fn view(&self) -> PhiV {
        PhiV { def: self.def, edges: self.edges@ }
    }
}

impl View for MIRBlock {
    type V = BlockV;

    open spec fn view(&self) -> BlockV {
        BlockV {
            phis: self.phis@.map_values(|p: MIRPhi| p@),
            insts: self.insts@.map_values(|i: MIRInst| i@),
            term: self.term,
            line: self.line,
            col: self.col,
        }
    }
}

/// The blocks of a body, as values.
pub open spec fn blocks_v(blocks: Seq<MIRBlock>) -> Seq<BlockV> {
    blocks.map_values(|b: MIRBlock| b@)
}

impl MIRConst {
    pub fn copy(&self) -> (r: MIRConst)
        ensures
            r == *self,
    {
        match self {
            MIRConst::Int(n) => MIRConst::Int(*n),
            MIRConst::Float(bits) => MIRConst::Float(*bits),
        }
    }
}

impl MIRInstKind {
    /// The same kind again.
    pub fn copy(&self) -> (r: MIRInstKind)
        ensures
            r@ == self@,
    {
        match self {
            MIRInstKind::Const(c) => MIRInstKind::Const(c.copy()),
            MIRInstKind::Move(of) => MIRInstKind::Move(*of),
            MIRInstKind::Un { op, operand } => MIRInstKind::Un { op: *op, operand: *operand },
            MIRInstKind::Bin { op, lhs, rhs } => MIRInstKind::Bin { op: *op, lhs: *lhs, rhs: *rhs },
            MIRInstKind::Cmp { op, lhs, rhs } => MIRInstKind::Cmp { op: *op, lhs: *lhs, rhs: *rhs },
            MIRInstKind::Convert { of, from, to } => MIRInstKind::Convert { of: *of, from: *from, to: *to },
            MIRInstKind::Frame(slot) => MIRInstKind::Frame(*slot),
            MIRInstKind::Symbol(name) => MIRInstKind::Symbol(name.clone()),
            MIRInstKind::Offset { base, bytes } => MIRInstKind::Offset { base: *base, bytes: *bytes },
            MIRInstKind::Scaled { base, index, scale } => MIRInstKind::Scaled { base: *base, index: *index, scale: *scale },
            MIRInstKind::Load { from, bytes } => MIRInstKind::Load { from: *from, bytes: *bytes },
            MIRInstKind::Store { to, value, bytes } => MIRInstKind::Store { to: *to, value: *value, bytes: *bytes },
            MIRInstKind::Copy { to, from, bytes } => MIRInstKind::Copy { to: *to, from: *from, bytes: *bytes },
            MIRInstKind::Call { to, args } => {
                let callee = match to {
                    MIRCallee::Symbol(name) => MIRCallee::Symbol(name.clone()),
                    MIRCallee::Reg(r) => MIRCallee::Reg(*r),
                };
                MIRInstKind::Call { to: callee, args: copied(args) }
            },
            MIRInstKind::Pack(of) => MIRInstKind::Pack(copied(of)),
            MIRInstKind::Lane { of, at } => MIRInstKind::Lane { of: *of, at: *at },
            MIRInstKind::VecLoad { from, bytes, lanes } => MIRInstKind::VecLoad { from: *from, bytes: *bytes, lanes: *lanes },
            MIRInstKind::VecStore { to, value } => MIRInstKind::VecStore { to: *to, value: *value },
            MIRInstKind::Undef => MIRInstKind::Undef,
        }
    }
}

impl MIRInst {
    /// The same instruction again.
    pub fn copy(&self) -> (r: MIRInst)
        ensures
            r@ == self@,
    {
        MIRInst { def: self.def, kind: self.kind.copy(), line: self.line, col: self.col }
    }
}

impl MIRPhi {
    /// The same phi again.
    pub fn copy(&self) -> (r: MIRPhi)
        ensures
            r@ == self@,
    {
        let mut edges: Vec<(MIRBlockId, MIRRegId)> = Vec::new();
        let mut i: usize = 0;
        while i < self.edges.len()
            invariant
                i <= self.edges@.len(),
                edges@ == self.edges@.subrange(0, i as int),
            decreases self.edges@.len() - i,
        {
            edges.push(self.edges[i]);
            proof {
                assert(edges@ =~= self.edges@.subrange(0, i + 1));
            }
            i = i + 1;
        }
        proof {
            assert(self.edges@.subrange(0, self.edges@.len() as int) =~= self.edges@);
        }
        MIRPhi { def: self.def, edges }
    }
}

impl MIRBlock {
    /// The same block again.
    pub fn copy(&self) -> (r: MIRBlock)
        ensures
            r@ == self@,
    {
        let mut phis: Vec<MIRPhi> = Vec::new();
        let mut i: usize = 0;
        while i < self.phis.len()
            invariant
                i <= self.phis@.len(),
                phis@.len() == i,
                forall|j: int| 0 <= j < i ==> (#[trigger] phis@[j])@ == self.phis@[j]@,
            decreases self.phis@.len() - i,
        {
            phis.push(self.phis[i].copy());
            i = i + 1;
        }
        let mut insts: Vec<MIRInst> = Vec::new();
        let mut k: usize = 0;
        while k < self.insts.len()
            invariant
                k <= self.insts@.len(),
                insts@.len() == k,
                forall|j: int| 0 <= j < k ==> (#[trigger] insts@[j])@ == self.insts@[j]@,
            decreases self.insts@.len() - k,
        {
            insts.push(self.insts[k].copy());
            k = k + 1;
        }
        let r = MIRBlock { phis, insts, term: self.term, line: self.line, col: self.col };
        proof {
            assert(r@.phis =~= self@.phis);
            assert(r@.insts =~= self@.insts);
        }
        r
    }
}

impl MIRSlot {
    /// The same slot again.
    pub fn copy(&self) -> (r: MIRSlot)
        ensures
            r == *self,
    {
        MIRSlot { bytes: self.bytes, align: self.align, name: self.name.clone(), spill: self.spill }
    }
}

/// Whether block `at` of `bv` ends by going to `to`.
pub open spec fn goes_v(bv: Seq<BlockV>, at: int, to: int) -> bool {
    0 <= at < bv.len() && bv[at].term.spec_targets().contains(to as MIRBlockId)
}

/// Whether `path` is a way through `bv` from `entry`.
pub open spec fn walks_v(bv: Seq<BlockV>, entry: MIRBlockId, path: Seq<MIRBlockId>) -> bool {
    &&& path.len() >= 1
    &&& path[0] == entry
    &&& forall|i: int| 0 <= i < path.len() ==> #[trigger] path[i] < bv.len()
    &&& forall|i: int| 0 <= i < path.len() - 1 ==> goes_v(bv, #[trigger] path[i] as int, path[i + 1] as int)
}

/// Whether `entry` reaches `at` in `bv`.
pub open spec fn reaches_v(bv: Seq<BlockV>, entry: MIRBlockId, at: int) -> bool {
    exists|path: Seq<MIRBlockId>| #[trigger] walks_v(bv, entry, path) && path.last() == at
}

/// Which blocks of `bv` the entry reaches, as a list.
pub open spec fn live_v(bv: Seq<BlockV>, entry: MIRBlockId) -> Seq<bool> {
    Seq::new(bv.len(), |k: int| reaches_v(bv, entry, k))
}

/// Reaching is a fact about the terminators alone.
pub proof fn reaches_agree(body: MIRBody, at: int)
    ensures
        body.reaches(at) <==> reaches_v(blocks_v(body.blocks@), body.entry, at),
{
    let bv = blocks_v(body.blocks@);
    assert forall|a: int, t: int| body.goes(a, t) <==> goes_v(bv, a, t) by {
        if 0 <= a < bv.len() {
            assert(bv[a].term == body.blocks@[a].term);
        }
    }
    assert forall|path: Seq<MIRBlockId>| body.walks(path) <==> walks_v(bv, body.entry, path) by {
        if body.walks(path) {
            assert forall|i: int| 0 <= i < path.len() - 1 implies goes_v(bv, #[trigger] path[i] as int, path[i + 1] as int) by {
                assert(body.goes(path[i] as int, path[i + 1] as int));
            }
        }
        if walks_v(bv, body.entry, path) {
            assert forall|i: int| 0 <= i < path.len() - 1 implies body.goes(#[trigger] path[i] as int, path[i + 1] as int) by {
                assert(goes_v(bv, path[i] as int, path[i + 1] as int));
            }
        }
    }
    if body.reaches(at) {
        let path = choose|path: Seq<MIRBlockId>| #[trigger] body.walks(path) && path.last() == at;
        assert(walks_v(bv, body.entry, path));
    }
    if reaches_v(bv, body.entry, at) {
        let path = choose|path: Seq<MIRBlockId>| #[trigger] walks_v(bv, body.entry, path) && path.last() == at;
        assert(body.walks(path));
    }
}

/// Two bodies whose blocks end the same way reach the same blocks.
pub proof fn reaches_same_terms(a: Seq<BlockV>, b: Seq<BlockV>, entry: MIRBlockId, at: int)
    requires
        a.len() == b.len(),
        forall|k: int| 0 <= k < a.len() ==> (#[trigger] a[k]).term == b[k].term,
    ensures
        reaches_v(a, entry, at) <==> reaches_v(b, entry, at),
{
    assert forall|x: int, y: int| goes_v(a, x, y) <==> goes_v(b, x, y) by {
        if 0 <= x < a.len() {
            assert(a[x].term == b[x].term);
        }
    }
    assert forall|path: Seq<MIRBlockId>| walks_v(a, entry, path) <==> walks_v(b, entry, path) by {
        if walks_v(a, entry, path) {
            assert forall|i: int| 0 <= i < path.len() - 1 implies goes_v(b, #[trigger] path[i] as int, path[i + 1] as int) by {
                assert(goes_v(a, path[i] as int, path[i + 1] as int));
            }
        }
        if walks_v(b, entry, path) {
            assert forall|i: int| 0 <= i < path.len() - 1 implies goes_v(a, #[trigger] path[i] as int, path[i + 1] as int) by {
                assert(goes_v(b, path[i] as int, path[i + 1] as int));
            }
        }
    }
    if reaches_v(a, entry, at) {
        let path = choose|path: Seq<MIRBlockId>| #[trigger] walks_v(a, entry, path) && path.last() == at;
        assert(walks_v(b, entry, path));
    }
    if reaches_v(b, entry, at) {
        let path = choose|path: Seq<MIRBlockId>| #[trigger] walks_v(b, entry, path) && path.last() == at;
        assert(walks_v(a, entry, path));
    }
}

} // verus!
