//! What a body's frame looks like written down: where each slot sits below
//! the frame pointer, and how big the whole frame is.

use vstd::prelude::*;
use crate::machine::Machine;
use crate::mir_nodes::{
    MIRBinOp, MIRCallee, MIRCmpOp, MIRConst, MIRConstBody, MIRConstant, MIRInstKind, MIRRegId, MIRScalar, MIRSlot, MIRTerm,
    MIRUnOp,
};
use crate::linear::{linearise, linearised, phis_read_regs, Line, Linear};
use crate::mir_nodes::{blocks_v, MIRBody, MIRProgram};
use crate::regalloc::{allocate, allocated, scan_of, Allocation, Where};
use crate::spell::{decimal, hex2, push_char, push_decimal, push_hex2, push_signed, push_text, push_wide, signed_decimal};

verus! {

/// The first multiple of `a` at or after `n`.
pub open spec fn round_up(n: int, a: int) -> int {
    (n / a + if n % a == 0 { 0int } else { 1int }) * a
}

/// What `round_up` comes to: a multiple of `a`, no less than `n`, and less
/// than `a` past it.
pub proof fn round_up_bounds(n: int, a: int)
    requires
        n >= 0,
        a > 0,
    ensures
        n <= round_up(n, a) < n + a,
        round_up(n, a) % a == 0,
{
    vstd::arithmetic::div_mod::lemma_fundamental_div_mod(n, a);
    vstd::arithmetic::div_mod::lemma_mod_pos_bound(n, a);
    let q = n / a;
    let r = n % a;
    assert(a * q == q * a) by (nonlinear_arith);
    if r == 0 {
        assert(round_up(n, a) == q * a);
        vstd::arithmetic::div_mod::lemma_mod_multiples_basic(q, a);
    } else {
        assert(round_up(n, a) == (q + 1) * a);
        assert((q + 1) * a == q * a + a) by (nonlinear_arith);
        vstd::arithmetic::div_mod::lemma_mod_multiples_basic(q + 1, a);
    }
}

/// An alignment, where nought means none.
pub open spec fn at_least_one(a: usize) -> int {
    if a == 0 { 1 } else { a as int }
}

/// Where the frame has reached once the first `n` slots are in it: each slot
/// goes directly under what came before, rounded so that its own alignment
/// divides how far below the frame pointer it ends.
pub open spec fn reached(slots: Seq<MIRSlot>, n: int) -> int
    decreases n,
{
    if n <= 0 {
        0
    } else {
        round_up(reached(slots, n - 1) + slots[n - 1].bytes, at_least_one(slots[n - 1].align))
    }
}

proof fn reached_grows(slots: Seq<MIRSlot>, n: int)
    requires
        0 < n <= slots.len(),
    ensures
        reached(slots, n) >= reached(slots, n - 1) + slots[n - 1].bytes,
        reached(slots, n) % at_least_one(slots[n - 1].align) == 0,
        reached(slots, n - 1) >= 0,
    decreases n,
{
    if n > 1 {
        reached_grows(slots, n - 1);
    }
    round_up_bounds(reached(slots, n - 1) + slots[n - 1].bytes, at_least_one(slots[n - 1].align));
}

proof fn reached_ordered(slots: Seq<MIRSlot>, i: int, j: int)
    requires
        0 <= i <= j <= slots.len(),
    ensures
        reached(slots, i) <= reached(slots, j),
    decreases j - i,
{
    if i < j {
        reached_grows(slots, j);
        reached_ordered(slots, i, j - 1);
    }
}

/// Whether the frame of `slots`, rounded to what `m` keeps the stack aligned
/// to, can be counted in a `usize`.
pub open spec fn frame_fits(slots: Seq<MIRSlot>, m: Machine) -> bool {
    round_up(reached(slots, slots.len() as int), at_least_one(m.stack)) <= usize::MAX
}

/// Where each slot begins, written downwards from the frame pointer, and how
/// big the frame is. The frame is written downwards, so slot `i` covers the
/// bytes from `offsets[i] - bytes` up to `offsets[i]` below the frame pointer.
pub fn frame(slots: &[MIRSlot], m: &Machine) -> (r: (Vec<usize>, usize))
    requires
        frame_fits(slots@, *m),
    ensures
        r.0@.len() == slots@.len(),
        forall|i: int| 0 <= i < slots@.len() ==> r.0@[i] == reached(slots@, i + 1),
        r.1 == round_up(reached(slots@, slots@.len() as int), at_least_one(m.stack)),
        // Each slot sits where its own alignment allows.
        forall|i: int| 0 <= i < slots@.len() ==> (#[trigger] r.0@[i]) as int % at_least_one(slots@[i].align) == 0,
        // Nothing in the frame overlaps anything else.
        forall|i: int, j: int| 0 <= i < j < slots@.len() ==> (#[trigger] r.0@[i]) <= (#[trigger] r.0@[j]) - slots@[j].bytes,
        forall|i: int| 0 <= i < slots@.len() ==> (#[trigger] r.0@[i]) >= slots@[i].bytes,
        // The whole is a multiple of what the stack is kept to, and holds
        // every slot.
        r.1 as int % at_least_one(m.stack) == 0,
        forall|i: int| 0 <= i < slots@.len() ==> (#[trigger] r.0@[i]) <= r.1,
{
    let ghost all = slots@.len() as int;
    proof {
        if all > 0 {
            reached_grows(slots@, all);
        }
        round_up_bounds(reached(slots@, all), at_least_one(m.stack));
    }
    let mut at: usize = 0;
    let mut offsets: Vec<usize> = Vec::new();
    let mut i: usize = 0;
    while i < slots.len()
        invariant
            i <= slots@.len(),
            all == slots@.len(),
            at == reached(slots@, i as int),
            offsets@.len() == i,
            forall|j: int| 0 <= j < i ==> offsets@[j] == reached(slots@, j + 1),
            reached(slots@, all) <= usize::MAX,
        decreases slots@.len() - i,
    {
        let slot = &slots[i];
        let align = if slot.align == 0 { 1 } else { slot.align };
        proof {
            reached_grows(slots@, i + 1);
            reached_ordered(slots@, i + 1, all);
        }
        let end = at + slot.bytes;
        let q = end / align;
        let up = if end % align == 0 { q } else { q + 1 };
        proof {
            round_up_bounds(end as int, align as int);
            assert(up * align == round_up(end as int, align as int));
        }
        at = up * align;
        offsets.push(at);
        i = i + 1;
    }
    let stack = if m.stack == 0 { 1 } else { m.stack };
    let q = at / stack;
    let up = if at % stack == 0 { q } else { q + 1 };
    proof {
        round_up_bounds(at as int, stack as int);
        assert(up * stack == round_up(at as int, stack as int));
    }
    let size = up * stack;
    proof {
        assert forall|i: int| 0 <= i < slots@.len() implies (#[trigger] offsets@[i]) as int % at_least_one(slots@[i].align) == 0 by {
            reached_grows(slots@, i + 1);
        }
        assert forall|i: int, j: int| 0 <= i < j < slots@.len() implies (#[trigger] offsets@[i]) <= (#[trigger] offsets@[j]) - slots@[j].bytes by {
            reached_grows(slots@, j + 1);
            reached_ordered(slots@, i + 1, j);
        }
        assert forall|i: int| 0 <= i < slots@.len() implies (#[trigger] offsets@[i]) >= slots@[i].bytes by {
            reached_grows(slots@, i + 1);
        }
        assert forall|i: int| 0 <= i < slots@.len() implies (#[trigger] offsets@[i]) <= size by {
            reached_ordered(slots@, i + 1, all);
        }
    }
    (offsets, size)
}

// ---- Spelling ------------------------------------------------------------------

pub open spec fn un_name(op: MIRUnOp) -> &'static str {
    match op {
        MIRUnOp::Neg => "neg",
        MIRUnOp::FNeg => "fneg",
        MIRUnOp::Not => "not",
    }
}

fn un(op: MIRUnOp) -> (r: &'static str)
    ensures
        r == un_name(op),
{
    match op {
        MIRUnOp::Neg => "neg",
        MIRUnOp::FNeg => "fneg",
        MIRUnOp::Not => "not",
    }
}

pub open spec fn bin_name(op: MIRBinOp) -> &'static str {
    match op {
        MIRBinOp::Add => "add",
        MIRBinOp::Sub => "sub",
        MIRBinOp::Mul => "mul",
        MIRBinOp::SDiv => "sdiv",
        MIRBinOp::UDiv => "udiv",
        MIRBinOp::SRem => "srem",
        MIRBinOp::URem => "urem",
        MIRBinOp::And => "and",
        MIRBinOp::Or => "or",
        MIRBinOp::Xor => "xor",
        MIRBinOp::Shl => "shl",
        MIRBinOp::LShr => "lshr",
        MIRBinOp::AShr => "ashr",
        MIRBinOp::FAdd => "fadd",
        MIRBinOp::FSub => "fsub",
        MIRBinOp::FMul => "fmul",
        MIRBinOp::FDiv => "fdiv",
    }
}

fn bin(op: MIRBinOp) -> (r: &'static str)
    ensures
        r == bin_name(op),
{
    match op {
        MIRBinOp::Add => "add",
        MIRBinOp::Sub => "sub",
        MIRBinOp::Mul => "mul",
        MIRBinOp::SDiv => "sdiv",
        MIRBinOp::UDiv => "udiv",
        MIRBinOp::SRem => "srem",
        MIRBinOp::URem => "urem",
        MIRBinOp::And => "and",
        MIRBinOp::Or => "or",
        MIRBinOp::Xor => "xor",
        MIRBinOp::Shl => "shl",
        MIRBinOp::LShr => "lshr",
        MIRBinOp::AShr => "ashr",
        MIRBinOp::FAdd => "fadd",
        MIRBinOp::FSub => "fsub",
        MIRBinOp::FMul => "fmul",
        MIRBinOp::FDiv => "fdiv",
    }
}

pub open spec fn cmp_name(op: MIRCmpOp) -> &'static str {
    match op {
        MIRCmpOp::Eq => "eq",
        MIRCmpOp::Ne => "ne",
        MIRCmpOp::SLt => "slt",
        MIRCmpOp::SLe => "sle",
        MIRCmpOp::SGt => "sgt",
        MIRCmpOp::SGe => "sge",
        MIRCmpOp::ULt => "ult",
        MIRCmpOp::ULe => "ule",
        MIRCmpOp::UGt => "ugt",
        MIRCmpOp::UGe => "uge",
        MIRCmpOp::FEq => "feq",
        MIRCmpOp::FNe => "fne",
        MIRCmpOp::FLt => "flt",
        MIRCmpOp::FLe => "fle",
        MIRCmpOp::FGt => "fgt",
        MIRCmpOp::FGe => "fge",
    }
}

fn compare(op: MIRCmpOp) -> (r: &'static str)
    ensures
        r == cmp_name(op),
{
    match op {
        MIRCmpOp::Eq => "eq",
        MIRCmpOp::Ne => "ne",
        MIRCmpOp::SLt => "slt",
        MIRCmpOp::SLe => "sle",
        MIRCmpOp::SGt => "sgt",
        MIRCmpOp::SGe => "sge",
        MIRCmpOp::ULt => "ult",
        MIRCmpOp::ULe => "ule",
        MIRCmpOp::UGt => "ugt",
        MIRCmpOp::UGe => "uge",
        MIRCmpOp::FEq => "feq",
        MIRCmpOp::FNe => "fne",
        MIRCmpOp::FLt => "flt",
        MIRCmpOp::FLe => "fle",
        MIRCmpOp::FGt => "fgt",
        MIRCmpOp::FGe => "fge",
    }
}

/// A width and whether the top bit means anything, as `i32`, `u8`, `f64`.
pub open spec fn scalar_text(held: MIRScalar) -> Seq<char> {
    match held {
        MIRScalar::Int { bytes, signed } => seq![if signed { 'i' } else { 'u' }] + decimal((bytes * 8) as nat),
        MIRScalar::Float { bytes } => seq!['f'] + decimal((bytes * 8) as nat),
    }
}

fn scalar(held: MIRScalar, out: &mut String)
    ensures
        final(out)@ == old(out)@ + scalar_text(held),
{
    let (c, bytes) = match held {
        MIRScalar::Int { bytes, signed } => (if signed { 'i' } else { 'u' }, bytes),
        MIRScalar::Float { bytes } => ('f', bytes),
    };
    push_char(out, c);
    push_wide(out, bytes as u128 * 8);
    proof {
        assert(old(out)@.push(c) + decimal((bytes * 8) as nat) =~= old(out)@ + scalar_text(held));
    }
}

/// One byte of a literal as a reader sees it: a quote or a backslash behind
/// a backslash, printable ASCII as itself, anything else as its number.
pub open spec fn quoted_byte(b: u8) -> Seq<char> {
    if b == 34 {
        seq!['\\', '"']
    } else if b == 92 {
        seq!['\\', '\\']
    } else if 0x20 <= b <= 0x7e {
        seq![b as char]
    } else {
        seq!['\\', 'x'] + hex2(b)
    }
}

pub open spec fn quoted_bytes(bytes: Seq<u8>) -> Seq<char>
    decreases bytes.len(),
{
    if bytes.len() == 0 {
        Seq::empty()
    } else {
        quoted_bytes(bytes.drop_last()) + quoted_byte(bytes.last())
    }
}

/// The bytes of a literal between quotes.
pub open spec fn quoted_text(bytes: Seq<u8>) -> Seq<char> {
    seq!['"'] + quoted_bytes(bytes) + seq!['"']
}

fn quoted(bytes: &Vec<u8>, out: &mut String)
    ensures
        final(out)@ == old(out)@ + quoted_text(bytes@),
{
    push_char(out, '"');
    let mut i: usize = 0;
    while i < bytes.len()
        invariant
            i <= bytes@.len(),
            out@ == old(out)@ + seq!['"'] + quoted_bytes(bytes@.subrange(0, i as int)),
        decreases bytes@.len() - i,
    {
        let b = bytes[i];
        let ghost before = out@;
        if b == 34 {
            push_char(out, '\\');
            push_char(out, '"');
        } else if b == 92 {
            push_char(out, '\\');
            push_char(out, '\\');
        } else if 0x20 <= b && b <= 0x7e {
            push_char(out, b as char);
        } else {
            push_char(out, '\\');
            push_char(out, 'x');
            push_hex2(out, b);
        }
        proof {
            let next = bytes@.subrange(0, i + 1);
            assert(next.drop_last() =~= bytes@.subrange(0, i as int));
            assert(out@ =~= before + quoted_byte(b));
        }
        i = i + 1;
    }
    push_char(out, '"');
    proof {
        assert(bytes@.subrange(0, bytes@.len() as int) =~= bytes@);
        assert(out@ =~= old(out)@ + quoted_text(bytes@));
    }
}

// ---- One body ------------------------------------------------------------------

/// Where each slot of `slots` begins, below the frame pointer.
pub open spec fn offsets_of(slots: Seq<MIRSlot>) -> Seq<usize> {
    Seq::new(slots.len(), |i: int| reached(slots, i + 1) as usize)
}

/// How big a frame of `slots` is once rounded to what `m` keeps the stack to.
pub open spec fn frame_size(slots: Seq<MIRSlot>, m: Machine) -> int {
    round_up(reached(slots, slots.len() as int), at_least_one(m.stack))
}

/// Where a register is, as a listing names it: the register it went in, the
/// slot it went to, or `_` for one that went nowhere.
pub open spec fn place_text(at: Seq<Where>, offsets: Seq<usize>, reg: MIRRegId) -> Seq<char> {
    match if reg < at.len() { at[reg as int] } else { Where::Nowhere } {
        Where::In(r) => r.name@,
        Where::Spilled(slot) => "[fp-"@ + decimal((if slot < offsets.len() { offsets[slot as int] } else { 0 }) as nat) + "]"@,
        Where::Nowhere => "_"@,
    }
}

fn place(at: &Allocation, offsets: &Vec<usize>, reg: MIRRegId, out: &mut String)
    ensures
        final(out)@ == old(out)@ + place_text(at.at@, offsets@, reg),
{
    match at.of(reg) {
        Where::In(r) => push_text(out, r.name),
        Where::Spilled(slot) => {
            push_text(out, "[fp-");
            push_decimal(out, if slot < offsets.len() { offsets[slot] } else { 0 });
            push_text(out, "]");
            proof {
                assert(final(out)@ =~= old(out)@ + place_text(at.at@, offsets@, reg));
            }
        },
        Where::Nowhere => push_text(out, "_"),
    }
}

/// Several registers, parted by commas.
pub open spec fn places_text(at: Seq<Where>, offsets: Seq<usize>, regs: Seq<MIRRegId>) -> Seq<char>
    decreases regs.len(),
{
    if regs.len() == 0 {
        Seq::empty()
    } else if regs.len() == 1 {
        place_text(at, offsets, regs[0])
    } else {
        places_text(at, offsets, regs.drop_last()) + ", "@ + place_text(at, offsets, regs.last())
    }
}

fn places(at: &Allocation, offsets: &Vec<usize>, regs: &Vec<MIRRegId>, out: &mut String)
    ensures
        final(out)@ == old(out)@ + places_text(at.at@, offsets@, regs@),
{
    let mut i: usize = 0;
    while i < regs.len()
        invariant
            i <= regs@.len(),
            out@ == old(out)@ + places_text(at.at@, offsets@, regs@.subrange(0, i as int)),
        decreases regs@.len() - i,
    {
        let ghost before = out@;
        if i > 0 {
            push_text(out, ", ");
        }
        place(at, offsets, regs[i], out);
        proof {
            let next = regs@.subrange(0, i + 1);
            assert(next.drop_last() =~= regs@.subrange(0, i as int));
            if i == 0 {
                assert(out@ =~= old(out)@ + places_text(at.at@, offsets@, next));
            } else {
                assert(out@ =~= old(out)@ + places_text(at.at@, offsets@, next));
            }
        }
        i = i + 1;
    }
    proof {
        assert(regs@.subrange(0, regs@.len() as int) =~= regs@);
    }
}

/// A constant as written: a whole number in decimal, a floating one as its
/// IEEE 754 bits in hexadecimal.
pub open spec fn const_text(c: MIRConst) -> Seq<char> {
    match c {
        MIRConst::Int(n) => signed_decimal(n as int),
        MIRConst::Float(bits) => "0x"@ + hex_bits(bits),
    }
}

/// The eight bytes of `bits`, most significant first, in hexadecimal.
pub open spec fn hex_bits(bits: u64) -> Seq<char> {
    hex2((bits / 0x100000000000000) as u8) + hex2((bits / 0x1000000000000 % 256) as u8) + hex2((bits / 0x10000000000 % 256) as u8)
        + hex2((bits / 0x100000000 % 256) as u8) + hex2((bits / 0x1000000 % 256) as u8) + hex2((bits / 0x10000 % 256) as u8)
        + hex2((bits / 0x100 % 256) as u8) + hex2((bits % 256) as u8)
}

fn push_bits(out: &mut String, bits: u64)
    ensures
        final(out)@ == old(out)@ + hex_bits(bits),
{
    push_hex2(out, (bits / 0x100000000000000) as u8);
    push_hex2(out, (bits / 0x1000000000000 % 256) as u8);
    push_hex2(out, (bits / 0x10000000000 % 256) as u8);
    push_hex2(out, (bits / 0x100000000 % 256) as u8);
    push_hex2(out, (bits / 0x1000000 % 256) as u8);
    push_hex2(out, (bits / 0x10000 % 256) as u8);
    push_hex2(out, (bits / 0x100 % 256) as u8);
    push_hex2(out, (bits % 256) as u8);
    proof {
        assert(final(out)@ =~= old(out)@ + hex_bits(bits));
    }
}

/// A count in decimal.
pub open spec fn dec(n: usize) -> Seq<char> {
    decimal(n as nat)
}

/// A number with its sign, in decimal.
pub open spec fn sdec(n: i64) -> Seq<char> {
    signed_decimal(n as int)
}

/// What an instruction does, as a listing writes it.
pub open spec fn inst_spec(kind: MIRInstKind, at: Seq<Where>, offsets: Seq<usize>) -> Seq<char> {
    let p = |r: MIRRegId| place_text(at, offsets, r);
    match kind {
        MIRInstKind::Const(c) => "const "@ + const_text(c),
        MIRInstKind::Move(of) => "mov "@ + p(of),
        MIRInstKind::Un { op, operand } => un_name(op)@ + " "@ + p(operand),
        MIRInstKind::Bin { op, lhs, rhs } => bin_name(op)@ + " "@ + p(lhs) + ", "@ + p(rhs),
        MIRInstKind::Cmp { op, lhs, rhs } => cmp_name(op)@ + " "@ + p(lhs) + ", "@ + p(rhs),
        MIRInstKind::Convert { of, from, to } => "conv."@ + scalar_text(from) + "."@ + scalar_text(to) + " "@ + p(of),
        MIRInstKind::Frame(slot) => "lea $"@ + dec(slot),
        MIRInstKind::Symbol(name) => "lea "@ + name@,
        MIRInstKind::Offset { base, bytes } => "lea ["@ + p(base) + " + "@ + sdec(bytes) + "]"@,
        MIRInstKind::Scaled { base, index, scale } => "lea ["@ + p(base) + " + "@ + p(index) + "*"@ + dec(scale) + "]"@,
        MIRInstKind::Load { from, bytes } => "load."@ + dec(bytes) + " ["@ + p(from) + "]"@,
        MIRInstKind::Store { to, value, bytes } => "store."@ + dec(bytes) + " ["@ + p(to) + "], "@ + p(value),
        MIRInstKind::Copy { to, from, bytes } => "copy."@ + dec(bytes) + " ["@ + p(to) + "], ["@ + p(from) + "]"@,
        MIRInstKind::Call { to, args } => "call "@ + match to {
            MIRCallee::Symbol(name) => name@,
            MIRCallee::Reg(r) => p(r),
        } + "("@ + places_text(at, offsets, args@) + ")"@,
        MIRInstKind::Pack(of) => "pack "@ + places_text(at, offsets, of@),
        MIRInstKind::Lane { of, at: lane } => "lane "@ + p(of) + "["@ + dec(lane) + "]"@,
        MIRInstKind::VecLoad { from, bytes, lanes } => "vload."@ + dec(bytes) + "x"@ + dec(lanes) + " ["@ + p(from)
            + "]"@,
        MIRInstKind::VecStore { to, value } => "vstore ["@ + p(to) + "], "@ + p(value),
        MIRInstKind::Undef => "undef"@,
    }
}

#[verifier::rlimit(40)]
fn inst_text(kind: &MIRInstKind, at: &Allocation, offsets: &Vec<usize>, out: &mut String)
    ensures
        final(out)@ == old(out)@ + inst_spec(*kind, at.at@, offsets@),
{
    let ghost o = old(out)@;
    match kind {
        MIRInstKind::Const(c) => {
            push_text(out, "const ");
            match c {
                MIRConst::Int(n) => push_signed(out, *n),
                MIRConst::Float(bits) => {
                    push_text(out, "0x");
                    push_bits(out, *bits);
                },
            }
        },
        MIRInstKind::Move(of) => {
            push_text(out, "mov ");
            place(at, offsets, *of, out);
        },
        MIRInstKind::Un { op, operand } => {
            push_text(out, un(*op));
            push_text(out, " ");
            place(at, offsets, *operand, out);
        },
        MIRInstKind::Bin { op, lhs, rhs } => {
            push_text(out, bin(*op));
            push_text(out, " ");
            place(at, offsets, *lhs, out);
            push_text(out, ", ");
            place(at, offsets, *rhs, out);
        },
        MIRInstKind::Cmp { op, lhs, rhs } => {
            push_text(out, compare(*op));
            push_text(out, " ");
            place(at, offsets, *lhs, out);
            push_text(out, ", ");
            place(at, offsets, *rhs, out);
        },
        MIRInstKind::Convert { of, from, to } => {
            push_text(out, "conv.");
            scalar(*from, out);
            push_text(out, ".");
            scalar(*to, out);
            push_text(out, " ");
            place(at, offsets, *of, out);
        },
        MIRInstKind::Frame(slot) => {
            push_text(out, "lea $");
            push_decimal(out, *slot);
        },
        MIRInstKind::Symbol(name) => {
            push_text(out, "lea ");
            push_text(out, name.as_str());
        },
        MIRInstKind::Offset { base, bytes } => {
            push_text(out, "lea [");
            place(at, offsets, *base, out);
            push_text(out, " + ");
            push_signed(out, *bytes);
            push_text(out, "]");
        },
        MIRInstKind::Scaled { base, index, scale } => {
            push_text(out, "lea [");
            place(at, offsets, *base, out);
            push_text(out, " + ");
            place(at, offsets, *index, out);
            push_text(out, "*");
            push_decimal(out, *scale);
            push_text(out, "]");
        },
        MIRInstKind::Load { from, bytes } => {
            push_text(out, "load.");
            push_decimal(out, *bytes);
            push_text(out, " [");
            place(at, offsets, *from, out);
            push_text(out, "]");
        },
        MIRInstKind::Store { to, value, bytes } => {
            push_text(out, "store.");
            push_decimal(out, *bytes);
            push_text(out, " [");
            place(at, offsets, *to, out);
            push_text(out, "], ");
            place(at, offsets, *value, out);
        },
        MIRInstKind::Copy { to, from, bytes } => {
            push_text(out, "copy.");
            push_decimal(out, *bytes);
            push_text(out, " [");
            place(at, offsets, *to, out);
            push_text(out, "], [");
            place(at, offsets, *from, out);
            push_text(out, "]");
        },
        MIRInstKind::Call { to, args } => {
            push_text(out, "call ");
            match to {
                MIRCallee::Symbol(name) => push_text(out, name.as_str()),
                MIRCallee::Reg(r) => place(at, offsets, *r, out),
            }
            push_text(out, "(");
            places(at, offsets, args, out);
            push_text(out, ")");
        },
        MIRInstKind::Pack(of) => {
            push_text(out, "pack ");
            places(at, offsets, of, out);
        },
        MIRInstKind::Lane { of, at: lane } => {
            push_text(out, "lane ");
            place(at, offsets, *of, out);
            push_text(out, "[");
            push_decimal(out, *lane);
            push_text(out, "]");
        },
        MIRInstKind::VecLoad { from, bytes, lanes } => {
            push_text(out, "vload.");
            push_decimal(out, *bytes);
            push_text(out, "x");
            push_decimal(out, *lanes);
            push_text(out, " [");
            place(at, offsets, *from, out);
            push_text(out, "]");
        },
        MIRInstKind::VecStore { to, value } => {
            push_text(out, "vstore [");
            place(at, offsets, *to, out);
            push_text(out, "], ");
            place(at, offsets, *value, out);
        },
        MIRInstKind::Undef => push_text(out, "undef"),
    }
    proof {
        assert(out@ =~= o + inst_spec(*kind, at.at@, offsets@));
    }
}

/// How a block ends, as a listing writes it.
pub open spec fn term_spec(term: MIRTerm, at: Seq<Where>, offsets: Seq<usize>) -> Seq<char> {
    match term {
        MIRTerm::Goto(to) => "jmp .L"@ + decimal(to as nat),
        MIRTerm::Branch { cond, then, els } => "br "@ + place_text(at, offsets, cond) + ", .L"@ + decimal(then as nat) + ", .L"@ + decimal(
            els as nat,
        ),
        MIRTerm::Return(Some(reg)) => "ret "@ + place_text(at, offsets, reg),
        MIRTerm::Return(None) => "ret"@,
        MIRTerm::Unreachable => "unreachable"@,
    }
}

fn term_text(term: &MIRTerm, at: &Allocation, offsets: &Vec<usize>, out: &mut String)
    ensures
        final(out)@ == old(out)@ + term_spec(*term, at.at@, offsets@),
{
    let ghost o = old(out)@;
    match term {
        MIRTerm::Goto(to) => {
            push_text(out, "jmp .L");
            push_decimal(out, *to);
        },
        MIRTerm::Branch { cond, then, els } => {
            push_text(out, "br ");
            place(at, offsets, *cond, out);
            push_text(out, ", .L");
            push_decimal(out, *then);
            push_text(out, ", .L");
            push_decimal(out, *els);
        },
        MIRTerm::Return(Some(reg)) => {
            push_text(out, "ret ");
            place(at, offsets, *reg, out);
        },
        MIRTerm::Return(None) => push_text(out, "ret"),
        MIRTerm::Unreachable => push_text(out, "unreachable"),
    }
    proof {
        assert(out@ =~= o + term_spec(*term, at.at@, offsets@));
    }
}

/// One slot of the frame: where it sits, what it is called, how wide it is,
/// and whether the allocator made it.
pub open spec fn slot_line(slot: MIRSlot, offset: usize) -> Seq<char> {
    "        [fp-"@ + dec(offset) + "] "@ + slot.name@ + " "@ + dec(slot.bytes) + " bytes"@ + (if slot.spill {
        " (spill)"@
    } else {
        Seq::empty()
    }) + "\n"@
}

/// The first `n` slots, a line each.
pub open spec fn slots_text(slots: Seq<MIRSlot>, offsets: Seq<usize>, n: int) -> Seq<char>
    decreases n,
{
    if n <= 0 {
        Seq::empty()
    } else {
        slots_text(slots, offsets, n - 1) + slot_line(slots[n - 1], offsets[n - 1])
    }
}

/// One line of the body: a label, an instruction with where its answer
/// goes, or how the block ends.
pub open spec fn line_text(l: Line, at: Seq<Where>, offsets: Seq<usize>) -> Seq<char> {
    match l {
        Line::Label(b) => "  .L"@ + dec(b) + ":\n"@,
        Line::Inst(i) => "      "@ + match i.def {
            Some(d) => place_text(at, offsets, d) + " = "@,
            None => Seq::empty(),
        } + inst_spec(i.kind, at, offsets) + "\n"@,
        Line::Term(t) => "      "@ + term_spec(t, at, offsets) + "\n"@,
    }
}

/// The first `n` lines of the body.
pub open spec fn lines_text(lines: Seq<Line>, at: Seq<Where>, offsets: Seq<usize>, n: int) -> Seq<char>
    decreases n,
{
    if n <= 0 {
        Seq::empty()
    } else {
        lines_text(lines, at, offsets, n - 1) + line_text(lines[n - 1], at, offsets)
    }
}

/// A body as a listing shows it: its symbol, its frame and every slot in it,
/// then every line, with each register named where the allocation put it.
pub open spec fn body_listing(held: Linear, a: Allocation, m: Machine) -> Seq<char> {
    let offsets = offsets_of(held.frame@);
    held.symbol@ + ":\n"@ + "    frame "@ + decimal(frame_size(held.frame@, m) as nat) + " bytes\n"@ + slots_text(
        held.frame@,
        offsets,
        held.frame@.len() as int,
    ) + lines_text(held.lines@, a.at@, offsets, held.lines@.len() as int)
}

fn slot_text(slot: &MIRSlot, offset: usize, out: &mut String)
    ensures
        final(out)@ == old(out)@ + slot_line(*slot, offset),
{
    let ghost o = old(out)@;
    push_text(out, "        [fp-");
    push_decimal(out, offset);
    push_text(out, "] ");
    push_text(out, slot.name.as_str());
    push_text(out, " ");
    push_decimal(out, slot.bytes);
    push_text(out, " bytes");
    if slot.spill {
        push_text(out, " (spill)");
    }
    push_text(out, "\n");
    proof {
        assert(out@ =~= o + slot_line(*slot, offset));
    }
}

fn line(l: &Line, at: &Allocation, offsets: &Vec<usize>, out: &mut String)
    ensures
        final(out)@ == old(out)@ + line_text(*l, at.at@, offsets@),
{
    let ghost o = old(out)@;
    match l {
        Line::Label(b) => {
            push_text(out, "  .L");
            push_decimal(out, *b);
            push_text(out, ":\n");
        },
        Line::Inst(inst) => {
            push_text(out, "      ");
            match inst.def {
                Some(d) => {
                    place(at, offsets, d, out);
                    push_text(out, " = ");
                },
                None => {},
            }
            inst_text(&inst.kind, at, offsets, out);
            push_text(out, "\n");
        },
        Line::Term(t) => {
            push_text(out, "      ");
            term_text(t, at, offsets, out);
            push_text(out, "\n");
        },
    }
    proof {
        assert(out@ =~= o + line_text(*l, at.at@, offsets@));
    }
}

/// One body, with its frame written above it so that every `[fp-N]` below
/// has something to be read against.
pub fn body_text(held: &Linear, at: &Allocation, m: &Machine) -> (r: String)
    requires
        frame_fits(held.frame@, *m),
    ensures
        r@ == body_listing(*held, *at, *m),
{
    let (offsets, size) = frame(held.frame.as_slice(), m);
    let ghost offs = offsets_of(held.frame@);
    proof {
        assert(offsets@ =~= offs);
    }
    let mut out = String::new();
    push_text(&mut out, held.symbol.as_str());
    push_text(&mut out, ":\n");
    push_text(&mut out, "    frame ");
    push_decimal(&mut out, size);
    push_text(&mut out, " bytes\n");
    let ghost head = out@;
    let mut i: usize = 0;
    while i < held.frame.len()
        invariant
            i <= held.frame@.len(),
            offsets@ == offs,
            offs.len() == held.frame@.len(),
            out@ == head + slots_text(held.frame@, offs, i as int),
        decreases held.frame@.len() - i,
    {
        slot_text(&held.frame[i], offsets[i], &mut out);
        i = i + 1;
    }
    let ghost mid = out@;
    let mut j: usize = 0;
    while j < held.lines.len()
        invariant
            j <= held.lines@.len(),
            offsets@ == offs,
            out@ == mid + lines_text(held.lines@, at.at@, offs, j as int),
        decreases held.lines@.len() - j,
    {
        line(&held.lines[j], at, &offsets, &mut out);
        j = j + 1;
    }
    proof {
        assert(out@ =~= body_listing(*held, *at, *m));
    }
    out
}

// ---- The whole program ---------------------------------------------------------

/// Whether a body can be written out: its phis read registers it has, and
/// whatever linear form and allocation it is given can be counted -- its
/// registers and slots, and the size of the frame it is left with.
pub open spec fn writable(b: MIRBody, m: Machine) -> bool {
    &&& phis_read_regs(blocks_v(b.blocks@), b.regs@.len())
    &&& forall|l: Linear| #[trigger] linearised(b, l) ==> l.frame@.len() + l.regs@.len() <= usize::MAX
    &&& forall|l: Linear, h: Linear, a: Allocation| linearised(b, l) && #[trigger] allocated(l, h, a, m) ==> frame_fits(h.frame@, m)
}

/// Whether `h` and `a` are what writing `b` out and allocating it by linear
/// scan gave.
pub open spec fn laid(b: MIRBody, h: Linear, a: Allocation, m: Machine) -> bool {
    exists|l: Linear|
        linearised(b, l) && #[trigger] allocated(l, h, a, m) && a.at@ == scan_of(l, m).at && a.most == scan_of(l, m).most
}

/// The first `n` bodies, each followed by an empty line.
pub open spec fn bodies_listing(helds: Seq<Linear>, allocs: Seq<Allocation>, m: Machine, n: int) -> Seq<char>
    decreases n,
{
    if n <= 0 {
        Seq::empty()
    } else {
        bodies_listing(helds, allocs, m, n - 1) + body_listing(helds[n - 1], allocs[n - 1], m) + "\n"@
    }
}

/// Names, parted by commas.
pub open spec fn names_text(names: Seq<String>) -> Seq<char>
    decreases names.len(),
{
    if names.len() == 0 {
        Seq::empty()
    } else if names.len() == 1 {
        names[0]@
    } else {
        names_text(names.drop_last()) + ", "@ + names.last()@
    }
}

/// One literal of the pool: its name, and its bytes between quotes or the
/// names it holds between brackets.
pub open spec fn pool_line(c: MIRConstant) -> Seq<char> {
    "    "@ + c.symbol@ + " = "@ + match c.held {
        MIRConstBody::Bytes(bytes) => quoted_text(bytes@),
        MIRConstBody::Words(names) => "["@ + names_text(names@) + "]"@,
    } + "\n"@
}

pub open spec fn pool_lines(pool: Seq<MIRConstant>, n: int) -> Seq<char>
    decreases n,
{
    if n <= 0 {
        Seq::empty()
    } else {
        pool_lines(pool, n - 1) + pool_line(pool[n - 1])
    }
}

/// The pool under its heading, or nothing where it is empty.
pub open spec fn pool_listing(pool: Seq<MIRConstant>) -> Seq<char> {
    if pool.len() == 0 {
        Seq::empty()
    } else {
        "pool:\n"@ + pool_lines(pool, pool.len() as int)
    }
}

fn names(held: &Vec<String>, out: &mut String)
    ensures
        final(out)@ == old(out)@ + names_text(held@),
{
    let mut i: usize = 0;
    while i < held.len()
        invariant
            i <= held@.len(),
            out@ == old(out)@ + names_text(held@.subrange(0, i as int)),
        decreases held@.len() - i,
    {
        let ghost before = out@;
        if i > 0 {
            push_text(out, ", ");
        }
        push_text(out, held[i].as_str());
        proof {
            let next = held@.subrange(0, i + 1);
            assert(next.drop_last() =~= held@.subrange(0, i as int));
            assert(out@ =~= old(out)@ + names_text(next));
        }
        i = i + 1;
    }
    proof {
        assert(held@.subrange(0, held@.len() as int) =~= held@);
    }
}

fn pool_entry(c: &MIRConstant, out: &mut String)
    ensures
        final(out)@ == old(out)@ + pool_line(*c),
{
    let ghost o = old(out)@;
    push_text(out, "    ");
    push_text(out, c.symbol.as_str());
    push_text(out, " = ");
    match &c.held {
        MIRConstBody::Bytes(bytes) => quoted(bytes, out),
        MIRConstBody::Words(held) => {
            push_text(out, "[");
            names(held, out);
            push_text(out, "]");
        },
    }
    push_text(out, "\n");
    proof {
        assert(out@ =~= o + pool_line(*c));
    }
}

/// The whole program: every body written out, allocated and listed, each
/// followed by an empty line, then the pool underneath.
pub fn render(p: &MIRProgram, m: &Machine) -> (out: String)
    requires
        forall|i: int| 0 <= i < p.bodies@.len() ==> writable(#[trigger] p.bodies@[i], *m),
    ensures
        exists|helds: Seq<Linear>, allocs: Seq<Allocation>|
            {
                &&& helds.len() == p.bodies@.len()
                &&& allocs.len() == p.bodies@.len()
                &&& forall|i: int| 0 <= i < helds.len() ==> #[trigger] laid(p.bodies@[i], helds[i], allocs[i], *m)
                &&& out@ == bodies_listing(helds, allocs, *m, helds.len() as int) + pool_listing(p.pool@)
            },
{
    let mut out = String::new();
    let ghost mut helds: Seq<Linear> = Seq::empty();
    let ghost mut allocs: Seq<Allocation> = Seq::empty();
    let mut i: usize = 0;
    while i < p.bodies.len()
        invariant
            i <= p.bodies@.len(),
            forall|j: int| 0 <= j < p.bodies@.len() ==> writable(#[trigger] p.bodies@[j], *m),
            helds.len() == i,
            allocs.len() == i,
            forall|j: int| 0 <= j < i ==> #[trigger] laid(p.bodies@[j], helds[j], allocs[j], *m),
            out@ == bodies_listing(helds, allocs, *m, i as int),
        decreases p.bodies@.len() - i,
    {
        let body = &p.bodies[i];
        proof {
            assert(writable(*body, *m));
        }
        let mut held = linearise(body);
        let ghost before = held;
        let at = allocate(&mut held, m);
        proof {
            assert(laid(*body, held, at, *m));
        }
        let text = body_text(&held, &at, m);
        push_text(&mut out, text.as_str());
        push_text(&mut out, "\n");
        proof {
            let h2 = helds.push(held);
            let a2 = allocs.push(at);
            assert forall|j: int| 0 <= j < i + 1 implies #[trigger] laid(p.bodies@[j], h2[j], a2[j], *m) by {
                if j < i {
                    assert(h2[j] == helds[j] && a2[j] == allocs[j]);
                }
            }
            assert(bodies_listing(h2, a2, *m, i as int) == bodies_listing(helds, allocs, *m, i as int)) by {
                bodies_prefix(h2, a2, helds, allocs, *m, i as int);
            }
            helds = h2;
            allocs = a2;
        }
        i = i + 1;
    }
    if p.pool.len() > 0 {
        push_text(&mut out, "pool:\n");
        let ghost head = out@;
        let mut k: usize = 0;
        while k < p.pool.len()
            invariant
                k <= p.pool@.len(),
                out@ == head + pool_lines(p.pool@, k as int),
            decreases p.pool@.len() - k,
        {
            pool_entry(&p.pool[k], &mut out);
            k = k + 1;
        }
    }
    proof {
        assert(out@ =~= bodies_listing(helds, allocs, *m, helds.len() as int) + pool_listing(p.pool@));
    }
    out
}

/// Listing more bodies leaves the listing of the first ones as it was.
proof fn bodies_prefix(h2: Seq<Linear>, a2: Seq<Allocation>, h: Seq<Linear>, a: Seq<Allocation>, m: Machine, n: int)
    requires
        0 <= n <= h.len(),
        n <= a.len(),
        n <= h2.len(),
        n <= a2.len(),
        forall|j: int| 0 <= j < n ==> h2[j] == h[j] && a2[j] == a[j],
    ensures
        bodies_listing(h2, a2, m, n) == bodies_listing(h, a, m, n),
    decreases n,
{
    if n > 0 {
        bodies_prefix(h2, a2, h, a, m, n - 1);
    }
}

} // verus!
