//! A MIR body built by hand, for trying the things that read one.
//!
//! A verifier has to be tried against a body that is wrong -- a register made
//! twice, a phi missing a way in -- and no lowering makes one of those on
//! purpose, so they are written. Every register is eight bytes and an
//! integer unless a test says otherwise.

use vstd::prelude::*;
use crate::machine::{is_x86_64, x86_64, Class, Machine, Target};
use crate::mir_nodes::{
    blocks_v, BlockV, InstV, KindV, MIRBinOp, MIRBlock, MIRBlockId, MIRBody, MIRCallee, MIRCmpOp, MIRConst, MIRFrameId, MIRInst,
    MIRInstKind, MIRPhi, MIRProgram, MIRReg, MIRRegId, MIRSlot, MIRTerm,
};
use crate::spell::{has_text, occurs, owned};
use crate::verify::{complaints, order_complaints, texts, verify, verify_order};

verus! {

pub struct Fixture {
    blocks: Vec<MIRBlock>,
    regs: Vec<MIRReg>,
    frame: Vec<MIRSlot>,
    params: Vec<MIRRegId>,
}

/// What a fixture has built so far.
pub ghost struct FixtureV {
    pub blocks: Seq<BlockV>,
    pub regs: Seq<MIRReg>,
    pub frame: Seq<MIRSlot>,
    pub params: Seq<MIRRegId>,
}

impl View for Fixture {
    type V = FixtureV;

    closed spec fn view(&self) -> FixtureV {
        FixtureV { blocks: blocks_v(self.blocks@), regs: self.regs@, frame: self.frame@, params: self.params@ }
    }
}

/// The register every fixture makes unless told otherwise: an eight-byte
/// integer.
pub open spec fn plain_reg(class: Class) -> MIRReg {
    MIRReg { class, bytes: 8, lanes: 1, line: 1, col: 1 }
}

/// An empty block that falls off the end.
pub open spec fn empty_block() -> BlockV {
    BlockV { phis: Seq::empty(), insts: Seq::empty(), term: MIRTerm::Unreachable, line: 1, col: 1 }
}

/// `b` with one more instruction at its end.
pub open spec fn with_inst(b: BlockV, i: MIRInst) -> BlockV {
    BlockV { insts: b.insts.push(i@), ..b }
}

/// Each way in of `edges` that comes from `from`, now bringing `reg`.
pub open spec fn reedged(edges: Seq<(MIRBlockId, MIRRegId)>, from: MIRBlockId, reg: MIRRegId) -> Seq<(MIRBlockId, MIRRegId)> {
    Seq::new(edges.len(), |i: int| if edges[i].0 == from { (from, reg) } else { edges[i] })
}

impl Fixture {
    pub fn new() -> (f: Fixture)
        ensures
            f@.blocks.len() == 0,
            f@.regs.len() == 0,
            f@.frame.len() == 0,
            f@.params.len() == 0,
    {
        Fixture { blocks: Vec::new(), regs: Vec::new(), frame: Vec::new(), params: Vec::new() }
    }

    /// A register nothing has made yet. Handing the id out before there is an
    /// instruction to make it lets a body be written in the order a reader
    /// reads one.
    pub fn reg(&mut self) -> (r: MIRRegId)
        requires
            old(self)@.regs.len() < usize::MAX,
        ensures
            r == old(self)@.regs.len(),
            final(self)@ == (FixtureV { regs: old(self)@.regs.push(plain_reg(Class::Int)), ..old(self)@ }),
    {
        self.regs.push(MIRReg::one(Class::Int, 8, 1, 1));
        self.regs.len() - 1
    }

    pub fn floating(&mut self) -> (r: MIRRegId)
        requires
            old(self)@.regs.len() < usize::MAX,
        ensures
            r == old(self)@.regs.len(),
            final(self)@ == (FixtureV { regs: old(self)@.regs.push(plain_reg(Class::Float)), ..old(self)@ }),
    {
        self.regs.push(MIRReg::one(Class::Float, 8, 1, 1));
        self.regs.len() - 1
    }

    /// Filled by the caller, so made by no instruction.
    pub fn param(&mut self) -> (r: MIRRegId)
        requires
            old(self)@.regs.len() < usize::MAX,
        ensures
            r == old(self)@.regs.len(),
            final(self)@ == (FixtureV {
                regs: old(self)@.regs.push(plain_reg(Class::Int)),
                params: old(self)@.params.push(r),
                ..old(self)@
            }),
    {
        let reg = self.reg();
        self.params.push(reg);
        reg
    }

    /// A slot of `bytes`, aligned to itself.
    pub fn slot(&mut self, name: &str, bytes: usize) -> (r: MIRFrameId)
        requires
            old(self)@.frame.len() < usize::MAX,
        ensures
            r == old(self)@.frame.len(),
            final(self)@.frame.len() == old(self)@.frame.len() + 1,
            final(self)@.frame.subrange(0, r as int) == old(self)@.frame,
            final(self)@.frame[r as int].bytes == bytes,
            final(self)@.frame[r as int].align == (if bytes == 0 { 1 } else { bytes }),
            final(self)@.frame[r as int].name@ == name@,
            !final(self)@.frame[r as int].spill,
            final(self)@.blocks == old(self)@.blocks,
            final(self)@.regs == old(self)@.regs,
            final(self)@.params == old(self)@.params,
    {
        self.frame.push(MIRSlot { bytes, align: if bytes == 0 { 1 } else { bytes }, name: owned(name), spill: false });
        proof {
            assert(self.frame@.subrange(0, old(self).frame@.len() as int) =~= old(self).frame@);
        }
        self.frame.len() - 1
    }

    /// An empty block that falls off the end, so that a body whose block was
    /// never ended is still well formed.
    pub fn block(&mut self) -> (r: MIRBlockId)
        requires
            old(self)@.blocks.len() < usize::MAX,
        ensures
            r == old(self)@.blocks.len(),
            final(self)@ == (FixtureV { blocks: old(self)@.blocks.push(empty_block()), ..old(self)@ }),
    {
        self.blocks.push(MIRBlock { phis: Vec::new(), insts: Vec::new(), term: MIRTerm::Unreachable, line: 1, col: 1 });
        proof {
            let nb = self.blocks@[self.blocks@.len() - 1];
            assert(nb@.phis =~= Seq::<crate::mir_nodes::PhiV>::empty());
            assert(nb@.insts =~= Seq::<crate::mir_nodes::InstV>::empty());
            assert(nb@ == empty_block());
            assert(blocks_v(self.blocks@) =~= blocks_v(old(self).blocks@).push(empty_block()));
        }
        self.blocks.len() - 1
    }

    pub fn term(&mut self, at: MIRBlockId, term: MIRTerm)
        requires
            at < old(self)@.blocks.len(),
        ensures
            final(self)@ == (FixtureV {
                blocks: old(self)@.blocks.update(at as int, BlockV { term, ..old(self)@.blocks[at as int] }),
                ..old(self)@
            }),
    {
        let mut b = self.blocks.remove(at);
        b.term = term;
        self.blocks.insert(at, b);
        proof {
            assert(blocks_v(self.blocks@) =~= blocks_v(old(self).blocks@).update(
                at as int,
                BlockV { term, ..blocks_v(old(self).blocks@)[at as int] },
            ));
        }
    }

    /// An instruction that makes something, with the register it makes handed
    /// back.
    pub fn push(&mut self, at: MIRBlockId, kind: MIRInstKind) -> (r: MIRRegId)
        requires
            at < old(self)@.blocks.len(),
            old(self)@.regs.len() < usize::MAX,
        ensures
            r == old(self)@.regs.len(),
            final(self)@ == (FixtureV {
                regs: old(self)@.regs.push(plain_reg(Class::Int)),
                blocks: old(self)@.blocks.update(
                    at as int,
                    with_inst(old(self)@.blocks[at as int], MIRInst { def: Some(r), kind, line: 1, col: 1 }),
                ),
                ..old(self)@
            }),
    {
        let def = self.reg();
        self.making(at, def, kind);
        def
    }

    /// The same, making a register already named -- which is how a body that
    /// is wrong on purpose is written.
    pub fn making(&mut self, at: MIRBlockId, def: MIRRegId, kind: MIRInstKind)
        requires
            at < old(self)@.blocks.len(),
        ensures
            final(self)@ == (FixtureV {
                blocks: old(self)@.blocks.update(
                    at as int,
                    with_inst(old(self)@.blocks[at as int], MIRInst { def: Some(def), kind, line: 1, col: 1 }),
                ),
                ..old(self)@
            }),
    {
        self.put(at, MIRInst { def: Some(def), kind, line: 1, col: 1 });
    }

    /// One that makes nothing: a store, a call whose answer nobody wanted.
    pub fn effect(&mut self, at: MIRBlockId, kind: MIRInstKind)
        requires
            at < old(self)@.blocks.len(),
        ensures
            final(self)@ == (FixtureV {
                blocks: old(self)@.blocks.update(
                    at as int,
                    with_inst(old(self)@.blocks[at as int], MIRInst { def: None, kind, line: 1, col: 1 }),
                ),
                ..old(self)@
            }),
    {
        self.put(at, MIRInst { def: None, kind, line: 1, col: 1 });
    }

    fn put(&mut self, at: MIRBlockId, inst: MIRInst)
        requires
            at < old(self)@.blocks.len(),
        ensures
            final(self)@ == (FixtureV {
                blocks: old(self)@.blocks.update(at as int, with_inst(old(self)@.blocks[at as int], inst)),
                ..old(self)@
            }),
    {
        let ghost i = inst;
        let mut b = self.blocks.remove(at);
        let ghost b0 = b;
        b.insts.push(inst);
        proof {
            assert(b@.insts =~= b0@.insts.push(i@));
        }
        self.blocks.insert(at, b);
        proof {
            assert(blocks_v(self.blocks@) =~= blocks_v(old(self).blocks@).update(
                at as int,
                with_inst(blocks_v(old(self).blocks@)[at as int], i),
            ));
        }
    }

    /// Changes the ways in of one phi already written that come from `from`
    /// to bring `reg`. A swap at the top of a loop needs it: the two phis
    /// name each other, and neither register exists until both are made.
    pub fn set_phi_edge(&mut self, at: MIRBlockId, which: usize, from: MIRBlockId, reg: MIRRegId)
        requires
            at < old(self)@.blocks.len(),
            which < old(self)@.blocks[at as int].phis.len(),
        ensures
            final(self)@ == (FixtureV {
                blocks: old(self)@.blocks.update(
                    at as int,
                    BlockV {
                        phis: old(self)@.blocks[at as int].phis.update(
                            which as int,
                            crate::mir_nodes::PhiV {
                                edges: reedged(old(self)@.blocks[at as int].phis[which as int].edges, from, reg),
                                ..old(self)@.blocks[at as int].phis[which as int]
                            },
                        ),
                        ..old(self)@.blocks[at as int]
                    },
                ),
                ..old(self)@
            }),
    {
        let mut b = self.blocks.remove(at);
        let ghost b0 = b;
        let mut phi = b.phis.remove(which);
        let ghost p0 = phi;
        let mut i: usize = 0;
        while i < phi.edges.len()
            invariant
                i <= phi.edges@.len(),
                phi.edges@.len() == p0.edges@.len(),
                phi.def == p0.def,
                forall|j: int| 0 <= j < i ==> phi.edges@[j] == reedged(p0.edges@, from, reg)[j],
                forall|j: int| i <= j < phi.edges@.len() ==> phi.edges@[j] == p0.edges@[j],
            decreases phi.edges@.len() - i,
        {
            let (held, _) = phi.edges[i];
            if held == from {
                phi.edges.set(i, (from, reg));
            }
            i = i + 1;
        }
        proof {
            assert(phi@.edges =~= reedged(p0@.edges, from, reg));
        }
        b.phis.insert(which, phi);
        proof {
            assert(b@.phis =~= b0@.phis.update(which as int, crate::mir_nodes::PhiV { edges: reedged(b0@.phis[which as int].edges, from, reg), ..b0@.phis[which as int] }));
        }
        self.blocks.insert(at, b);
        proof {
            assert(blocks_v(self.blocks@) =~= blocks_v(old(self).blocks@).update(at as int, b@));
        }
    }

    /// A phi at the top of `at`, with the register it makes handed back.
    pub fn phi(&mut self, at: MIRBlockId, edges: Vec<(MIRBlockId, MIRRegId)>) -> (r: MIRRegId)
        requires
            at < old(self)@.blocks.len(),
            old(self)@.regs.len() < usize::MAX,
        ensures
            r == old(self)@.regs.len(),
            final(self)@ == (FixtureV {
                regs: old(self)@.regs.push(plain_reg(Class::Int)),
                blocks: old(self)@.blocks.update(
                    at as int,
                    BlockV {
                        phis: old(self)@.blocks[at as int].phis.push(crate::mir_nodes::PhiV { def: r, edges: edges@ }),
                        ..old(self)@.blocks[at as int]
                    },
                ),
                ..old(self)@
            }),
    {
        let def = self.reg();
        let ghost e = edges@;
        let mut b = self.blocks.remove(at);
        let ghost b0 = b;
        b.phis.push(MIRPhi { def, edges });
        proof {
            assert(b@.phis =~= b0@.phis.push(crate::mir_nodes::PhiV { def, edges: e }));
        }
        self.blocks.insert(at, b);
        proof {
            assert(blocks_v(self.blocks@) =~= blocks_v(old(self).blocks@).update(at as int, b@));
        }
        def
    }

    // ---- The handful every body is written with ------------------------------------

    pub fn integer(&mut self, at: MIRBlockId, n: i64) -> (r: MIRRegId)
        requires
            at < old(self)@.blocks.len(),
            old(self)@.regs.len() < usize::MAX,
        ensures
            r == old(self)@.regs.len(),
            final(self)@ == (FixtureV {
                regs: old(self)@.regs.push(plain_reg(Class::Int)),
                blocks: old(self)@.blocks.update(
                    at as int,
                    with_inst(
                        old(self)@.blocks[at as int],
                        MIRInst { def: Some(r), kind: MIRInstKind::Const(MIRConst::Int(n)), line: 1, col: 1 },
                    ),
                ),
                ..old(self)@
            }),
    {
        self.push(at, MIRInstKind::Const(MIRConst::Int(n)))
    }

    pub fn add(&mut self, at: MIRBlockId, lhs: MIRRegId, rhs: MIRRegId) -> (r: MIRRegId)
        requires
            at < old(self)@.blocks.len(),
            old(self)@.regs.len() < usize::MAX,
        ensures
            r == old(self)@.regs.len(),
            final(self)@ == (FixtureV {
                regs: old(self)@.regs.push(plain_reg(Class::Int)),
                blocks: old(self)@.blocks.update(
                    at as int,
                    with_inst(
                        old(self)@.blocks[at as int],
                        MIRInst { def: Some(r), kind: MIRInstKind::Bin { op: MIRBinOp::Add, lhs, rhs }, line: 1, col: 1 },
                    ),
                ),
                ..old(self)@
            }),
    {
        self.push(at, MIRInstKind::Bin { op: MIRBinOp::Add, lhs, rhs })
    }

    pub fn less(&mut self, at: MIRBlockId, lhs: MIRRegId, rhs: MIRRegId) -> (r: MIRRegId)
        requires
            at < old(self)@.blocks.len(),
            old(self)@.regs.len() < usize::MAX,
        ensures
            r == old(self)@.regs.len(),
            final(self)@ == (FixtureV {
                regs: old(self)@.regs.push(plain_reg(Class::Int)),
                blocks: old(self)@.blocks.update(
                    at as int,
                    with_inst(
                        old(self)@.blocks[at as int],
                        MIRInst { def: Some(r), kind: MIRInstKind::Cmp { op: MIRCmpOp::SLt, lhs, rhs }, line: 1, col: 1 },
                    ),
                ),
                ..old(self)@
            }),
    {
        self.push(at, MIRInstKind::Cmp { op: MIRCmpOp::SLt, lhs, rhs })
    }

    pub fn address(&mut self, at: MIRBlockId, slot: MIRFrameId) -> (r: MIRRegId)
        requires
            at < old(self)@.blocks.len(),
            old(self)@.regs.len() < usize::MAX,
        ensures
            r == old(self)@.regs.len(),
            final(self)@ == (FixtureV {
                regs: old(self)@.regs.push(plain_reg(Class::Int)),
                blocks: old(self)@.blocks.update(
                    at as int,
                    with_inst(old(self)@.blocks[at as int], MIRInst { def: Some(r), kind: MIRInstKind::Frame(slot), line: 1, col: 1 }),
                ),
                ..old(self)@
            }),
    {
        self.push(at, MIRInstKind::Frame(slot))
    }

    pub fn load(&mut self, at: MIRBlockId, from: MIRRegId) -> (r: MIRRegId)
        requires
            at < old(self)@.blocks.len(),
            old(self)@.regs.len() < usize::MAX,
        ensures
            r == old(self)@.regs.len(),
            final(self)@ == (FixtureV {
                regs: old(self)@.regs.push(plain_reg(Class::Int)),
                blocks: old(self)@.blocks.update(
                    at as int,
                    with_inst(
                        old(self)@.blocks[at as int],
                        MIRInst { def: Some(r), kind: MIRInstKind::Load { from, bytes: 8 }, line: 1, col: 1 },
                    ),
                ),
                ..old(self)@
            }),
    {
        self.push(at, MIRInstKind::Load { from, bytes: 8 })
    }

    pub fn store(&mut self, at: MIRBlockId, to: MIRRegId, value: MIRRegId)
        requires
            at < old(self)@.blocks.len(),
        ensures
            final(self)@ == (FixtureV {
                blocks: old(self)@.blocks.update(
                    at as int,
                    with_inst(
                        old(self)@.blocks[at as int],
                        MIRInst { def: None, kind: MIRInstKind::Store { to, value, bytes: 8 }, line: 1, col: 1 },
                    ),
                ),
                ..old(self)@
            }),
    {
        self.effect(at, MIRInstKind::Store { to, value, bytes: 8 });
    }

    pub fn call(&mut self, at: MIRBlockId, to: &str, args: Vec<MIRRegId>) -> (r: MIRRegId)
        requires
            at < old(self)@.blocks.len(),
            old(self)@.regs.len() < usize::MAX,
        ensures
            r == old(self)@.regs.len(),
            final(self)@.regs == old(self)@.regs.push(plain_reg(Class::Int)),
            final(self)@.frame == old(self)@.frame,
            final(self)@.params == old(self)@.params,
            final(self)@.blocks.len() == old(self)@.blocks.len(),
            forall|b: int| 0 <= b < old(self)@.blocks.len() && b != at ==> final(self)@.blocks[b] == old(self)@.blocks[b],
            final(self)@.blocks[at as int].phis == old(self)@.blocks[at as int].phis,
            final(self)@.blocks[at as int].term == old(self)@.blocks[at as int].term,
            final(self)@.blocks[at as int].insts.drop_last() == old(self)@.blocks[at as int].insts,
            final(self)@.blocks[at as int].insts.last().def == Some(r),
            final(self)@.blocks[at as int].insts.last().kind == (crate::mir_nodes::KindV::Call {
                to: crate::mir_nodes::CalleeV::Symbol(to@),
                args: args@,
            }),
    {
        let ghost a = args@;
        let r = self.push(at, MIRInstKind::Call { to: MIRCallee::Symbol(owned(to)), args });
        proof {
            assert(self@.blocks[at as int].insts.drop_last() =~= old(self)@.blocks[at as int].insts);
        }
        r
    }

    // ---- Closing it off ----------------------------------------------------------

    /// The body built, under a symbol of its own, starting at `entry`.
    pub fn body(self, entry: MIRBlockId) -> (r: MIRBody)
        ensures
            r.symbol@ == "__F1t"@,
            r.entry == entry,
            blocks_v(r.blocks@) == self@.blocks,
            r.regs@ == self@.regs,
            r.frame@ == self@.frame,
            r.params@ == self@.params,
    {
        MIRBody {
            symbol: owned("__F1t"),
            entry,
            blocks: self.blocks,
            regs: self.regs,
            frame: self.frame,
            params: self.params,
        }
    }

    /// A program of that one body, with nothing in its pool and no globals.
    pub fn program(self, entry: MIRBlockId) -> (r: MIRProgram)
        ensures
            r.bodies@.len() == 1,
            r.bodies@[0].symbol@ == "__F1t"@,
            r.bodies@[0].entry == entry,
            blocks_v(r.bodies@[0].blocks@) == self@.blocks,
            r.bodies@[0].regs@ == self@.regs,
            r.bodies@[0].frame@ == self@.frame,
            r.bodies@[0].params@ == self@.params,
            r.pool@.len() == 0,
            r.data@.len() == 0,
    {
        let ghost v = self@;
        let body = self.body(entry);
        MIRProgram { bodies: vec![body], pool: Vec::new(), data: Vec::new() }
    }
}

impl Default for Fixture {
    fn default() -> (f: Fixture)
        ensures
            f@.blocks.len() == 0,
            f@.regs.len() == 0,
            f@.frame.len() == 0,
            f@.params.len() == 0,
    {
        Fixture::new()
    }
}

/// The shape a graph wants to be tried on: two ways into one block, so there
/// is something for a phi to be about. The entry branches on a constant to
/// `then` and `els`, which both go to `join`, which returns.
pub fn diamond() -> (r: (Fixture, [MIRBlockId; 4]))
    ensures
        r.1@ == seq![0usize, 1, 2, 3],
        r.0@.regs == seq![plain_reg(Class::Int)],
        r.0@.frame.len() == 0,
        r.0@.params.len() == 0,
        r.0@.blocks.len() == 4,
        r.0@.blocks[0].phis.len() == 0,
        r.0@.blocks[0].insts.len() == 1,
        r.0@.blocks[0].insts[0].def == Some(0usize),
        r.0@.blocks[0].insts[0].kind == crate::mir_nodes::KindV::Const(MIRConst::Int(1)),
        r.0@.blocks[0].term == (MIRTerm::Branch { cond: 0, then: 1, els: 2 }),
        r.0@.blocks[1] == (BlockV { term: MIRTerm::Goto(3), ..empty_block() }),
        r.0@.blocks[2] == (BlockV { term: MIRTerm::Goto(3), ..empty_block() }),
        r.0@.blocks[3] == (BlockV { term: MIRTerm::Return(None), ..empty_block() }),
{
    let mut f = Fixture::new();
    let entry = f.block();
    let then = f.block();
    let els = f.block();
    let join = f.block();
    let cond = f.integer(entry, 1);
    f.term(entry, MIRTerm::Branch { cond, then, els });
    f.term(then, MIRTerm::Goto(join));
    f.term(els, MIRTerm::Goto(join));
    f.term(join, MIRTerm::Return(None));
    proof {
        assert(f@.regs =~= seq![plain_reg(Class::Int)]);
    }
    let ids: [MIRBlockId; 4] = [entry, then, els, join];
    proof {
        assert(ids@ =~= seq![0usize, 1, 2, 3]);
    }
    (f, ids)
}

/// The machine every listing is tried on, pinned rather than the host's, so
/// that a test says the same thing wherever it runs.
pub fn machine() -> (m: Machine)
    ensures
        is_x86_64(m, Target { name: "x86-64", bytes: 16 }),
{
    x86_64()
}

/// Whether every body of `p` is held to every rule: nothing wrong with it and
/// nothing out of order in it, which is what every runner asks of a body
/// before it hands one back.
pub fn sound(p: &MIRProgram) -> (r: bool)
    ensures
        r == forall|i: int|
            0 <= i < p.bodies@.len() ==> complaints(#[trigger] p.bodies@[i]).len() == 0 && order_complaints(
                p.bodies@[i],
                p.bodies@[i].blocks@.len() as int,
            ).len() == 0,
{
    let mut i: usize = 0;
    while i < p.bodies.len()
        invariant
            i <= p.bodies@.len(),
            forall|j: int|
                0 <= j < i ==> complaints(#[trigger] p.bodies@[j]).len() == 0 && order_complaints(
                    p.bodies@[j],
                    p.bodies@[j].blocks@.len() as int,
                ).len() == 0,
        decreases p.bodies@.len() - i,
    {
        let wrong = verify(&p.bodies[i]);
        if wrong.len() > 0 {
            return false;
        }
        let wrong = verify_order(&p.bodies[i]);
        if wrong.len() > 0 {
            return false;
        }
        proof {
            assert(texts(wrong@).len() == wrong@.len());
        }
        i = i + 1;
    }
    true
}

/// Every instruction of the first `k` blocks that the entry reaches, each with
/// the block it is in. The blocks nothing reaches are still in the arena, so a
/// count over all of them would be a count of what was built rather than of
/// what runs.
pub open spec fn insts_below(body: MIRBody, k: int) -> Seq<(MIRBlockId, InstV)>
    decreases k,
{
    if k <= 0 {
        Seq::empty()
    } else {
        insts_below(body, k - 1) + if body.reaches(k - 1) {
            body.blocks@[k - 1]@.insts.map_values(|i: InstV| ((k - 1) as MIRBlockId, i))
        } else {
            Seq::empty()
        }
    }
}

/// Every instruction the entry reaches, with the block it is in.
pub open spec fn insts_of(body: MIRBody) -> Seq<(MIRBlockId, InstV)> {
    insts_below(body, body.blocks@.len() as int)
}

/// How many of `s` hold.
pub open spec fn trues(s: Seq<bool>) -> nat
    decreases s.len(),
{
    if s.len() == 0 {
        0
    } else {
        trues(s.drop_last()) + if s.last() {
            1nat
        } else {
            0nat
        }
    }
}

/// Every instruction the entry reaches, with the block it is in, block by
/// block.
pub fn insts(body: &MIRBody) -> (r: Vec<(MIRBlockId, MIRInst)>)
    ensures
        r@.map_values(|p: (MIRBlockId, MIRInst)| (p.0, p.1@)) == insts_of(*body),
{
    let live = body.live();
    let mut out: Vec<(MIRBlockId, MIRInst)> = Vec::new();
    let mut at: usize = 0;
    while at < body.blocks.len()
        invariant
            at <= body.blocks@.len(),
            live@.len() == body.blocks@.len(),
            forall|a: int| 0 <= a < live@.len() ==> (#[trigger] live@[a] <==> body.reaches(a)),
            out@.map_values(|p: (MIRBlockId, MIRInst)| (p.0, p.1@)) == insts_below(*body, at as int),
        decreases body.blocks@.len() - at,
    {
        let ghost start = out@.map_values(|p: (MIRBlockId, MIRInst)| (p.0, p.1@));
        if live[at] {
            let blk = &body.blocks[at];
            let mut i: usize = 0;
            while i < blk.insts.len()
                invariant
                    i <= blk.insts@.len(),
                    *blk == body.blocks@[at as int],
                    out@.map_values(|p: (MIRBlockId, MIRInst)| (p.0, p.1@)) == start + blk@.insts.subrange(0, i as int).map_values(
                        |x: InstV| (at, x),
                    ),
                decreases blk.insts@.len() - i,
            {
                let one = blk.insts[i].copy();
                let ghost pre = out@;
                out.push((at, one));
                proof {
                    assert(out@.map_values(|p: (MIRBlockId, MIRInst)| (p.0, p.1@)) =~= pre.map_values(
                        |p: (MIRBlockId, MIRInst)| (p.0, p.1@),
                    ).push((at, one@)));
                    assert(blk@.insts[i as int] == blk.insts@[i as int]@);
                    assert(blk@.insts.subrange(0, i + 1).map_values(|x: InstV| (at, x)) =~= blk@.insts.subrange(
                        0,
                        i as int,
                    ).map_values(|x: InstV| (at, x)).push((at, one@)));
                }
                i = i + 1;
            }
            proof {
                assert(blk@.insts.subrange(0, blk@.insts.len() as int) =~= blk@.insts);
                assert(blk@.insts.map_values(|x: InstV| (at, x)) =~= body.blocks@[at as int]@.insts.map_values(
                    |x: InstV| ((at + 1 - 1) as MIRBlockId, x),
                ));
            }
        } else {
            proof {
                assert(insts_below(*body, at + 1) =~= insts_below(*body, at as int));
            }
        }
        at = at + 1;
    }
    out
}

/// What each instruction the entry reaches does, in the same order.
pub fn kinds(body: &MIRBody) -> (r: Vec<MIRInstKind>)
    ensures
        r@.map_values(|k: MIRInstKind| k@) == insts_of(*body).map_values(|p: (MIRBlockId, InstV)| p.1.kind),
{
    let all = insts(body);
    let ghost want = insts_of(*body).map_values(|p: (MIRBlockId, InstV)| p.1.kind);
    let mut out: Vec<MIRInstKind> = Vec::new();
    let mut i: usize = 0;
    while i < all.len()
        invariant
            i <= all@.len(),
            all@.map_values(|p: (MIRBlockId, MIRInst)| (p.0, p.1@)) == insts_of(*body),
            want == insts_of(*body).map_values(|p: (MIRBlockId, InstV)| p.1.kind),
            out@.map_values(|k: MIRInstKind| k@) == want.subrange(0, i as int),
        decreases all@.len() - i,
    {
        let one = all[i].1.kind.copy();
        let ghost pre = out@;
        out.push(one);
        proof {
            assert(all@.map_values(|p: (MIRBlockId, MIRInst)| (p.0, p.1@))[i as int] == (all@[i as int].0, all@[i as int].1@));
            assert(insts_of(*body)[i as int] == (all@[i as int].0, all@[i as int].1@));
            assert(want[i as int] == one@);
            assert(out@.map_values(|k: MIRInstKind| k@) =~= pre.map_values(|k: MIRInstKind| k@).push(one@));
            assert(out@.map_values(|k: MIRInstKind| k@) =~= want.subrange(0, i + 1));
        }
        i = i + 1;
    }
    proof {
        assert(want.subrange(0, want.len() as int) =~= want);
    }
    out
}

/// Whether `said` is, one for one, an answer `want` may give for each of
/// `kinds`.
pub open spec fn answered<F: Fn(&MIRInstKind) -> bool>(want: F, kinds: Seq<KindV>, said: Seq<bool>) -> bool {
    &&& said.len() == kinds.len()
    &&& forall|i: int|
        0 <= i < said.len() ==> exists|k: MIRInstKind| k@ == kinds[i] && call_ensures(want, (&k,), #[trigger] said[i])
}

/// How many of the instructions the entry reaches `want` picks out: for each
/// one, what `want` answered for it, and the count of those answers that
/// were yes.
pub fn count(body: &MIRBody, want: impl Fn(&MIRInstKind) -> bool) -> (r: usize)
    requires
        forall|k: MIRInstKind| call_requires(want, (&k,)),
    ensures
        exists|said: Seq<bool>| answered(want, insts_of(*body).map_values(|p: (MIRBlockId, InstV)| p.1.kind), said) && r == trues(said),
{
    let all = kinds(body);
    let ghost said: Seq<bool> = Seq::empty();
    let mut n: usize = 0;
    let mut i: usize = 0;
    while i < all.len()
        invariant
            i <= all@.len(),
            all@.map_values(|k: MIRInstKind| k@) == insts_of(*body).map_values(|p: (MIRBlockId, InstV)| p.1.kind),
            forall|k: MIRInstKind| call_requires(want, (&k,)),
            said.len() == i,
            forall|j: int| 0 <= j < i ==> call_ensures(want, (&all@[j],), #[trigger] said[j]),
            n == trues(said),
            n <= i,
        decreases all@.len() - i,
    {
        let yes = want(&all[i]);
        proof {
            let pre = said;
            said = said.push(yes);
            assert(said.drop_last() =~= pre);
        }
        if yes {
            n = n + 1;
        }
        i = i + 1;
    }
    proof {
        assert(all@.len() == insts_of(*body).len()) by {
            assert(all@.map_values(|k: MIRInstKind| k@).len() == all@.len());
        }
        assert forall|j: int| 0 <= j < said.len() implies exists|k: MIRInstKind| k@ == insts_of(*body)[j].1.kind
            && call_ensures(want, (&k,), #[trigger] said[j]) by {
            assert(all@.map_values(|k: MIRInstKind| k@)[j] == all@[j]@);
            assert(all@[j]@ == insts_of(*body)[j].1.kind);
            assert(call_ensures(want, (&all@[j],), said[j]));
        }
        assert(said.len() == insts_of(*body).len());
        assert(answered(want, insts_of(*body).map_values(|p: (MIRBlockId, InstV)| p.1.kind), said));
    }
    n
}

/// The first body whose symbol holds `name`. A symbol has the length of each
/// part in front of it, so `1f` is the fn called `f` and `2id` the one called
/// `id`. There has to be one.
pub fn body_of<'a>(p: &'a MIRProgram, name: &str) -> (r: &'a MIRBody)
    requires
        exists|i: int| 0 <= i < p.bodies@.len() && occurs((#[trigger] p.bodies@[i]).symbol@, name@),
    ensures
        exists|j: int|
            0 <= j < p.bodies@.len() && *r == p.bodies@[j] && occurs(p.bodies@[j].symbol@, name@) && forall|i: int|
                0 <= i < j ==> !occurs((#[trigger] p.bodies@[i]).symbol@, name@),
{
    let mut i: usize = 0;
    while i < p.bodies.len()
        invariant
            i <= p.bodies@.len(),
            exists|k: int| i <= k < p.bodies@.len() && occurs((#[trigger] p.bodies@[k]).symbol@, name@),
            forall|k: int| 0 <= k < i ==> !occurs((#[trigger] p.bodies@[k]).symbol@, name@),
        decreases p.bodies@.len() - i,
    {
        if has_text(p.bodies[i].symbol.as_str(), name) {
            return &p.bodies[i];
        }
        i = i + 1;
    }
    &p.bodies[0]
}

} // verus!
