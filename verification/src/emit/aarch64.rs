//! aarch64, in the syntax both GNU `as` and LLVM's assembler take.
//!
//! The destination comes first, and every arithmetic instruction takes three
//! registers, or two and a small immediate, and none of them touches memory:
//! a spilled operand is a load here, not an addressing mode, which is why this
//! machine keeps three scratch registers where x86-64 keeps two.
//!
//! A register's width is a different letter, not a different name: `w0` is
//! the bottom half of `x0`. An immediate is twelve bits, and a constant that
//! does not fit is built sixteen bits at a time with `movz` and `movk`, with
//! no literal pool. A remainder is a division and a multiply-subtract, with
//! no fixed registers.

use vstd::prelude::*;
use crate::emit::body::{label, label_text, refusals, refuses, reg_bytes, reg_class, reg_site, Body};
use crate::emit::line::{
    around, hash, hashed, label_line, op0, op1, op2, op3, op4, put0, put1, put2, put3, put4, put_label, then_number,
};
use crate::emit::{order_of, ordered, passed_in, passing, pool_text, pool_with, symbol, symbol_chars, Site, Step};
use crate::linear::Line;
use crate::machine::{same_text, Class, Machine, Reg};
use crate::mir_nodes::{
    MIRBinOp, MIRCallee, MIRCmpOp, MIRConst, MIRConstant, MIRInst, MIRInstKind, MIRRegId, MIRScalar, MIRTerm, MIRUnOp, compares_integers, comparison_holds, compares_signed, signed_of, signed_of_one_to_one,
};
use crate::spell::{alphabetic, decimal, is_letter, owned, push_char, push_text};

verus! {

// ---- Numbers, as text ------------------------------------------------------

/// A count in decimal.
pub open spec fn dec(n: usize) -> Seq<char> {
    decimal(n as nat)
}

/// A count as an immediate.
pub open spec fn imm(n: usize) -> Seq<char> {
    hash(n as nat)
}

/// The same bits as a signed word.
pub open spec fn signed_word(n: usize) -> i64 {
    n as i64
}

fn imm_text(n: usize) -> (r: String)
    ensures
        r@ == imm(n),
{
    hashed(n as u128)
}

fn dec_after(front: &str, n: usize) -> (r: String)
    ensures
        r@ == front@ + dec(n),
{
    then_number(front, n as u128)
}

fn as_signed(n: usize) -> (r: i64)
    ensures
        r == signed_word(n),
{
    n as i64
}

// ---- Naming ----------------------------------------------------------------

/// Where the run of letters at the front of `s`, from `i` on, ends.
pub open spec fn skip_letters(s: Seq<char>, i: int) -> int
    decreases s.len() - i,
{
    if i < 0 || i >= s.len() || !alphabetic(s[i]) {
        i
    } else {
        skip_letters(s, i + 1)
    }
}

/// Where the run of `x`s at the front of `s`, from `i` on, ends.
pub open spec fn skip_xs(s: Seq<char>, i: int) -> int
    decreases s.len() - i,
{
    if i < 0 || i >= s.len() || s[i] != 'x' {
        i
    } else {
        skip_xs(s, i + 1)
    }
}

proof fn skips_in_range(s: Seq<char>, i: int)
    requires
        0 <= i <= s.len(),
    ensures
        i <= skip_letters(s, i) <= s.len(),
        i <= skip_xs(s, i) <= s.len(),
    decreases s.len() - i,
{
    if i < s.len() {
        skips_in_range(s, i + 1);
    }
}

/// A register at a width. Four bytes and under is the `w` view and wider the
/// `x` one; a float is `s` for four bytes and `d` for eight, with the number
/// that follows the letters of its name.
#[verifier::opaque]
pub open spec fn named_s(reg: Reg, bytes: usize) -> Seq<char> {
    let s = reg.name@;
    if reg.class == Class::Float {
        (if bytes <= 4 { seq!['s'] } else { seq!['d'] }) + s.subrange(skip_letters(s, 0), s.len() as int)
    } else if s == "sp"@ {
        "sp"@
    } else {
        (if bytes <= 4 { seq!['w'] } else { seq!['x'] }) + s.subrange(skip_xs(s, 0), s.len() as int)
    }
}

fn letters_end(s: &str, i: usize) -> (r: usize)
    requires
        i <= s@.len(),
    ensures
        r == skip_letters(s@, i as int),
    decreases s@.len() - i,
{
    if i >= s.unicode_len() {
        i
    } else if !is_letter(s.get_char(i)) {
        i
    } else {
        letters_end(s, i + 1)
    }
}

fn xs_end(s: &str, i: usize) -> (r: usize)
    requires
        i <= s@.len(),
    ensures
        r == skip_xs(s@, i as int),
    decreases s@.len() - i,
{
    if i >= s.unicode_len() {
        i
    } else if s.get_char(i) != 'x' {
        i
    } else {
        xs_end(s, i + 1)
    }
}

fn named(reg: Reg, bytes: usize) -> (r: String)
    ensures
        r@ == named_s(reg, bytes),
{
    reveal(named_s);
    let n = reg.name.unicode_len();
    proof {
        skips_in_range(reg.name@, 0);
    }
    if reg.class == Class::Float {
        let k = letters_end(reg.name, 0);
        let mut out = String::new();
        push_char(&mut out, if bytes <= 4 { 's' } else { 'd' });
        push_text(&mut out, reg.name.substring_char(k, n));
        proof {
            assert(out@ =~= named_s(reg, bytes));
        }
        out
    } else if same_text(reg.name, "sp") {
        owned("sp")
    } else {
        let k = xs_end(reg.name, 0);
        let mut out = String::new();
        push_char(&mut out, if bytes <= 4 { 'w' } else { 'x' });
        push_text(&mut out, reg.name.substring_char(k, n));
        proof {
            assert(out@ =~= named_s(reg, bytes));
        }
        out
    }
}

/// The `x` view of a register named as the `w` one.
#[verifier::opaque]
pub open spec fn wide_name_s(held: Seq<char>) -> Seq<char> {
    if held.len() > 0 && held[0] == 'w' {
        seq!['x'] + held.subrange(1, held.len() as int)
    } else {
        held
    }
}

/// The `w` view of a register named as the `x` one.
#[verifier::opaque]
pub open spec fn narrow_s(held: Seq<char>) -> Seq<char> {
    if held.len() > 0 && held[0] == 'x' {
        seq!['w'] + held.subrange(1, held.len() as int)
    } else {
        held
    }
}

/// The name with its first letter swapped for another, where it is `from`.
fn swapped(held: &str, from: char, to: char) -> (r: String)
    ensures
        r@ == (if held@.len() > 0 && held@[0] == from {
            seq![to] + held@.subrange(1, held@.len() as int)
        } else {
            held@
        }),
{
    let n = held.unicode_len();
    if n > 0 {
        if held.get_char(0) == from {
            let mut out = String::new();
            push_char(&mut out, to);
            push_text(&mut out, held.substring_char(1, n));
            proof {
                assert(out@ =~= seq![to] + held@.subrange(1, held@.len() as int));
            }
            return out;
        }
    }
    owned(held)
}

fn wide_name(held: &str) -> (r: String)
    ensures
        r@ == wide_name_s(held@),
{
    reveal(wide_name_s);
    swapped(held, 'w', 'x')
}

fn narrow(held: &str) -> (r: String)
    ensures
        r@ == narrow_s(held@),
{
    reveal(narrow_s);
    swapped(held, 'x', 'w')
}

/// Whether a machine has the scratch registers this file works through.
pub open spec fn has_scratch(m: Machine) -> bool {
    m.scratch@.len() >= 1 && m.fscratch@.len() >= 1
}

/// The `which`th scratch register of a file, or its last where it has fewer.
pub open spec fn scratch_s(m: Machine, which: usize, class: Class) -> Reg {
    let held = match class {
        Class::Int => m.scratch@,
        Class::Float => m.fscratch@,
    };
    held[if which < held.len() - 1 { which as int } else { held.len() - 1 }]
}

pub(crate) fn scratch(m: &Machine, which: usize, class: Class) -> (r: Reg)
    requires
        has_scratch(*m),
    ensures
        r == scratch_s(*m, which, class),
{
    let held = match class {
        Class::Int => &m.scratch,
        Class::Float => &m.fscratch,
    };
    let last = held.len() - 1;
    held[if which < last { which } else { last }]
}

/// How far the offsets of a block copy may run before the two addresses have
/// to step instead: under the reach of the byte form of a load, with room for
/// a step.
pub const WINDOW: usize = 4032;

// ---- Building an address ---------------------------------------------------

/// One sixteen-bit piece of a constant.
pub open spec fn piece_of(h: u64, at: u64) -> u64 {
    (h >> (at * 16)) & 0xffffu64
}

/// The pieces of a constant from `at` on: nought pieces are skipped,
/// `movz` writes the first piece that is not nought and clears the rest, and
/// `movk` each one after it; a constant of nothing but noughts is one `movz`.
pub open spec fn pieces_from(w: Seq<char>, h: u64, at: u64, first: bool) -> Seq<char>
    decreases 4 - at,
{
    if at >= 4 {
        if first {
            op2("movz"@, w, "#0"@)
        } else {
            Seq::empty()
        }
    } else {
        let piece = piece_of(h, at);
        if piece == 0 {
            pieces_from(w, h, (at + 1) as u64, first)
        } else {
            op3(if first { "movz"@ } else { "movk"@ }, w, hash(piece as nat), "lsl #"@ + decimal((at * 16) as nat))
                + pieces_from(w, h, (at + 1) as u64, false)
        }
    }
}

/// What the lines `pieces_from` writes leave in a register that held `v`,
/// run in order: a `movz` puts its piece down and clears every other bit, a
/// `movk` writes its piece and leaves the others, and a nought piece writes
/// nothing.
pub open spec fn pieces_value(h: u64, at: u64, first: bool, v: u64) -> u64
    decreases 4 - at,
{
    if at >= 4 {
        if first { 0 } else { v }
    } else {
        let piece = piece_of(h, at);
        let shift = (at * 16) as u64;
        if piece == 0 {
            pieces_value(h, (at + 1) as u64, first, v)
        } else if first {
            pieces_value(h, (at + 1) as u64, false, piece << shift)
        } else {
            pieces_value(h, (at + 1) as u64, false, (v & !(0xffffu64 << shift)) | (piece << shift))
        }
    }
}

/// The lines of `pieces_from`, run in order from any register, set it to the
/// constant: the first piece that is not nought is written with `movz`, which
/// leaves the noughts below it, and each later one with `movk`.
pub proof fn pieces_build_the_constant(h: u64, v: u64)
    ensures
        pieces_value(h, 0, true, v) == h,
{
    reveal_with_fuel(pieces_value, 5);
    let p0 = piece_of(h, 0);
    let p1 = piece_of(h, 1);
    let p2 = piece_of(h, 2);
    let p3 = piece_of(h, 3);
    assert(p0 == h & 0xffff && p1 == (h >> 16) & 0xffff && p2 == (h >> 32) & 0xffff && p3 == (h >> 48) & 0xffff) by (bit_vector)
        requires
            p0 == (h >> 0u64) & 0xffffu64,
            p1 == (h >> 16u64) & 0xffffu64,
            p2 == (h >> 32u64) & 0xffffu64,
            p3 == (h >> 48u64) & 0xffffu64,
    ;
    assert(pieces_value(h, 0, true, v) == h) by (bit_vector)
        requires
            pieces_value(h, 0, true, v) == (if p0 == 0 {
                if p1 == 0 {
                    if p2 == 0 {
                        if p3 == 0 { 0u64 } else { p3 << 48u64 }
                    } else {
                        if p3 == 0 { p2 << 32u64 } else { ((p2 << 32u64) & !(0xffffu64 << 48u64)) | (p3 << 48u64) }
                    }
                } else {
                    let a = p1 << 16u64;
                    let b = if p2 == 0 { a } else { (a & !(0xffffu64 << 32u64)) | (p2 << 32u64) };
                    if p3 == 0 { b } else { (b & !(0xffffu64 << 48u64)) | (p3 << 48u64) }
                }
            } else {
                let a = p0 << 0u64;
                let b = if p1 == 0 { a } else { (a & !(0xffffu64 << 16u64)) | (p1 << 16u64) };
                let c = if p2 == 0 { b } else { (b & !(0xffffu64 << 32u64)) | (p2 << 32u64) };
                if p3 == 0 { c } else { (c & !(0xffffu64 << 48u64)) | (p3 << 48u64) }
            }),
            p0 == h & 0xffff,
            p1 == (h >> 16) & 0xffff,
            p2 == (h >> 32) & 0xffff,
            p3 == (h >> 48) & 0xffff,
    ;
}

/// A constant into a register, sixteen bits at a time, always into the `x`
/// view: `movk` on a `w` one takes no shift past sixteen.
#[verifier::opaque]
pub open spec fn immediate_s(held: Seq<char>, n: i64) -> Seq<char> {
    pieces_from(wide_name_s(held), #[verifier::truncate] (n as u64), 0, true)
}

fn immediate(out: &mut String, held: &str, n: i64)
    ensures
        final(out)@ == old(out)@ + immediate_s(held@, n),
{
    reveal(immediate_s);
    let w = wide_name(held);
    let h = #[verifier::truncate] (n as u64);
    let ghost start = old(out)@;
    let mut first = true;
    let mut at: u64 = 0;
    while at < 4
        invariant
            at <= 4,
            out@ + pieces_from(w@, h, at, first) == start + pieces_from(w@, h, 0, true),
        decreases 4 - at,
    {
        let piece = (h >> (at * 16)) & 0xffff;
        let ghost before = out@;
        let ghost was_first = first;
        if piece == 0 {
        } else {
            let what = if first { "movz" } else { "movk" };
            let p = hashed(piece as u128);
            let s = then_number("lsl #", (at * 16) as u128);
            put3(out, what, w.as_str(), p.as_str(), s.as_str());
            first = false;
            proof {
                assert(out@ + pieces_from(w@, h, (at + 1) as u64, false) =~= before + pieces_from(w@, h, at, was_first));
            }
        }
        proof {
            assert(out@ + pieces_from(w@, h, (at + 1) as u64, first) == start + pieces_from(w@, h, 0, true));
        }
        at = at + 1;
    }
    if first {
        put2(out, "movz", w.as_str(), "#0");
    }
    proof {
        assert(final(out)@ =~= start + immediate_s(held@, n));
    }
}

/// `x29` less an offset. A load or a store goes down only as far as its
/// unscaled form reaches, so past 256 the address is worked out first: a
/// `sub` where twelve bits reach, and otherwise the constant built a piece at
/// a time. The text written first, and the operand.
#[verifier::opaque]
pub open spec fn frame_op_s(off: usize, sc: Reg) -> (Seq<char>, Seq<char>) {
    if off <= 256 {
        (Seq::empty(), "[x29, #-"@ + dec(off) + "]"@)
    } else {
        let held = named_s(sc, 8);
        if off < 4096 {
            (op3("sub"@, held, "x29"@, imm(off)), "["@ + held + "]"@)
        } else {
            (immediate_s(held, signed_word(off)) + op3("sub"@, held, "x29"@, held), "["@ + held + "]"@)
        }
    }
}

fn frame_op(out: &mut String, off: usize, sc: Reg) -> (r: String)
    ensures
        final(out)@ == old(out)@ + frame_op_s(off, sc).0,
        r@ == frame_op_s(off, sc).1,
{
    reveal(frame_op_s);
    if off <= 256 {
        let mut at = dec_after("[x29, #-", off);
        push_text(&mut at, "]");
        return at;
    }
    let held = named(sc, 8);
    if off < 4096 {
        let n = imm_text(off);
        put3(out, "sub", held.as_str(), "x29", n.as_str());
    } else {
        let ghost before = out@;
        immediate(out, held.as_str(), as_signed(off));
        put3(out, "sub", held.as_str(), "x29", held.as_str());
        proof {
            assert(out@ =~= before + frame_op_s(off, sc).0);
        }
    }
    around("[", held.as_str(), "]")
}

/// The extension that widens a value of `bytes` with or without its sign.
pub open spec fn ext_s(signed: bool, bytes: usize) -> &'static str {
    if signed {
        if bytes == 1 { "sxtb" } else if bytes == 2 { "sxth" } else { "sxtw" }
    } else {
        if bytes == 1 { "uxtb" } else if bytes == 2 { "uxth" } else { "mov" }
    }
}

fn ext(signed: bool, bytes: usize) -> (r: &'static str)
    ensures
        r == ext_s(signed, bytes),
{
    if signed {
        if bytes == 1 { "sxtb" } else if bytes == 2 { "sxth" } else { "sxtw" }
    } else {
        if bytes == 1 { "uxtb" } else if bytes == 2 { "uxth" } else { "mov" }
    }
}

/// Whether widening a value of `bytes` is a plain write of the `w` view,
/// which clears the top half on its own.
pub open spec fn plain_widen(signed: bool, bytes: usize) -> bool {
    !signed && bytes != 1 && bytes != 2
}

/// An operand at a width the caller names, extended where the value is
/// narrower: the MIR does not promise an instruction's operands are all one
/// width, and `add w0, x1, x2` is not an instruction.
#[verifier::opaque]
pub open spec fn unify_s(b: &Body, reg: MIRRegId, held: Seq<char>, wide: usize, signed: bool, into: Reg) -> (
    Seq<char>,
    Seq<char>,
) {
    let bytes = reg_bytes(b, reg);
    if bytes >= wide || reg_class(b, reg) == Class::Float {
        (Seq::empty(), if wide <= 4 { narrow_s(held) } else { wide_name_s(held) })
    } else {
        let one = named_s(into, wide);
        if plain_widen(signed, bytes) {
            (op2("mov"@, narrow_s(one), narrow_s(held)), one)
        } else {
            (op2(ext_s(signed, bytes)@, one, narrow_s(held)), one)
        }
    }
}

fn unify(out: &mut String, b: &Body, reg: MIRRegId, held: &str, wide: usize, signed: bool, into: Reg) -> (r: String)
    requires
        b.m.word >= 1,
    ensures
        final(out)@ == old(out)@ + unify_s(b, reg, held@, wide, signed, into).0,
        r@ == unify_s(b, reg, held@, wide, signed, into).1,
{
    reveal(unify_s);
    let bytes = b.bytes(reg);
    if bytes >= wide || b.class(reg) == Class::Float {
        return if wide <= 4 { narrow(held) } else { wide_name(held) };
    }
    let one = named(into, wide);
    if !signed && bytes != 1 && bytes != 2 {
        let a = narrow(one.as_str());
        let c = narrow(held);
        put2(out, "mov", a.as_str(), c.as_str());
    } else {
        let c = narrow(held);
        put2(out, ext(signed, bytes), one.as_str(), c.as_str());
    }
    one
}

// ---- Reading and writing ---------------------------------------------------

/// The move that carries a value of a file.
pub open spec fn mov_of_s(class: Class) -> &'static str {
    match class {
        Class::Float => "fmov",
        Class::Int => "mov",
    }
}

fn mov_of(class: Class) -> (r: &'static str)
    ensures
        r == mov_of_s(class),
{
    match class {
        Class::Float => "fmov",
        Class::Int => "mov",
    }
}

/// The load for a value of a file and a width.
pub open spec fn load_of_s(class: Class, bytes: usize) -> &'static str {
    match class {
        Class::Float => "ldr",
        Class::Int => if bytes == 1 { "ldrb" } else if bytes == 2 { "ldrh" } else { "ldr" },
    }
}

fn load_of(class: Class, bytes: usize) -> (r: &'static str)
    ensures
        r == load_of_s(class, bytes),
{
    match class {
        Class::Float => "ldr",
        Class::Int => if bytes == 1 { "ldrb" } else if bytes == 2 { "ldrh" } else { "ldr" },
    }
}

/// The store for a value of a file and a width.
pub open spec fn store_of_s(class: Class, bytes: usize) -> &'static str {
    match class {
        Class::Float => "str",
        Class::Int => if bytes == 1 { "strb" } else if bytes == 2 { "strh" } else { "str" },
    }
}

fn store_of(class: Class, bytes: usize) -> (r: &'static str)
    ensures
        r == store_of_s(class, bytes),
{
    match class {
        Class::Float => "str",
        Class::Int => if bytes == 1 { "strb" } else if bytes == 2 { "strh" } else { "str" },
    }
}

/// Whether an emitter can work in this body: a word of at least a byte, the
/// scratch registers, and room to count the saved registers' places.
pub open spec fn workable(b: &Body) -> bool {
    &&& b.m.word >= 1
    &&& has_scratch(*b.m)
    &&& b.saved@.len() * b.m.word <= usize::MAX
}

/// A value in a register, loaded out of the frame where that is where it is:
/// there is no instruction here that would have taken it where it lay. A
/// one- or two-byte load writes the `w` view whatever the value is called.
#[verifier::opaque]
pub open spec fn read_s(b: &Body, reg: MIRRegId, sc: Reg) -> (Seq<char>, Seq<char>) {
    let bytes = reg_bytes(b, reg);
    match reg_site(b, reg) {
        Site::In(held) => (Seq::empty(), named_s(held, bytes)),
        Site::Nowhere => (Seq::empty(), named_s(sc, bytes)),
        Site::At(off) => {
            let held = named_s(sc, bytes);
            let name = if bytes <= 4 && reg_class(b, reg) == Class::Int { named_s(sc, 4) } else { held };
            let at = frame_op_s(off, scratch_s(*b.m, 2, Class::Int));
            (at.0 + op2(load_of_s(reg_class(b, reg), bytes)@, name, at.1), held)
        },
    }
}

fn read(out: &mut String, b: &Body, reg: MIRRegId, sc: Reg) -> (r: String)
    requires
        workable(b),
    ensures
        final(out)@ == old(out)@ + read_s(b, reg, sc).0,
        r@ == read_s(b, reg, sc).1,
{
    reveal(read_s);
    let bytes = b.bytes(reg);
    match b.site(reg) {
        Site::In(held) => named(held, bytes),
        Site::Nowhere => named(sc, bytes),
        Site::At(off) => {
            let held = named(sc, bytes);
            let name = if bytes <= 4 && b.class(reg) == Class::Int { named(sc, 4) } else { named(sc, bytes) };
            let ghost before = out@;
            let at = frame_op(out, off, scratch(b.m, 2, Class::Int));
            put2(out, load_of(b.class(reg), bytes), name.as_str(), at.as_str());
            proof {
                assert(out@ =~= before + read_s(b, reg, sc).0);
            }
            held
        },
    }
}

/// Where to compute an answer -- its own register, or the scratch one -- and
/// the offset to store it at afterwards where it lives in the frame.
#[verifier::opaque]
pub open spec fn writing_s(b: &Body, def: MIRRegId, sc: Reg) -> (Seq<char>, Option<usize>) {
    match reg_site(b, def) {
        Site::In(held) => (named_s(held, reg_bytes(b, def)), None),
        Site::At(off) => (named_s(sc, reg_bytes(b, def)), Some(off)),
        Site::Nowhere => (named_s(sc, reg_bytes(b, def)), None),
    }
}

fn writing(b: &Body, def: MIRRegId, sc: Reg) -> (r: (String, Option<usize>))
    requires
        workable(b),
    ensures
        r.0@ == writing_s(b, def, sc).0,
        r.1 == writing_s(b, def, sc).1,
{
    reveal(writing_s);
    match b.site(def) {
        Site::In(held) => (named(held, b.bytes(def)), None),
        Site::At(off) => (named(sc, b.bytes(def)), Some(off)),
        Site::Nowhere => (named(sc, b.bytes(def)), None),
    }
}

/// The store back into the frame, where the answer lives there.
#[verifier::opaque]
pub open spec fn stored_s(b: &Body, def: MIRRegId, held: Seq<char>, back: Option<usize>) -> Seq<char> {
    match back {
        None => Seq::empty(),
        Some(off) => {
            let at = frame_op_s(off, scratch_s(*b.m, 2, Class::Int));
            at.0 + op2(store_of_s(reg_class(b, def), reg_bytes(b, def))@, held, at.1)
        },
    }
}

fn stored(out: &mut String, b: &Body, def: MIRRegId, held: &str, back: Option<usize>)
    requires
        workable(b),
    ensures
        final(out)@ == old(out)@ + stored_s(b, def, held@, back),
{
    reveal(stored_s);
    match back {
        None => {},
        Some(off) => {
            let bytes = b.bytes(def);
            let ghost before = out@;
            let at = frame_op(out, off, scratch(b.m, 2, Class::Int));
            put2(out, store_of(b.class(def), bytes), held, at.as_str());
            proof {
                assert(out@ =~= before + stored_s(b, def, held@, back));
            }
        },
    }
}


// ---- The frame -------------------------------------------------------------

/// One move of a shuffle, at the whole width of the registers; the scratch
/// register of the file is the one a cycle is broken through.
pub open spec fn step_text(m: Machine, step: Step) -> Seq<char> {
    match step {
        Step::Move { to, from } => op2(mov_of_s(to.class)@, named_s(to, 8), named_s(from, 8)),
        Step::Save(from) => op2(mov_of_s(from.class)@, named_s(scratch_s(m, 1, from.class), 8), named_s(from, 8)),
        Step::Restore(to) => op2(mov_of_s(to.class)@, named_s(to, 8), named_s(scratch_s(m, 1, to.class), 8)),
    }
}

/// The moves of a shuffle, one after another.
pub open spec fn steps_text(m: Machine, steps: Seq<Step>) -> Seq<char>
    decreases steps.len(),
{
    if steps.len() == 0 {
        Seq::empty()
    } else {
        steps_text(m, steps.drop_last()) + step_text(m, steps.last())
    }
}

/// Several registers moved at once, in the order `ordered` gives.
pub open spec fn shuffle_s(m: Machine, moves: Seq<(Reg, Reg)>) -> Seq<char> {
    steps_text(m, order_of(moves))
}

fn shuffle(out: &mut String, b: &Body, moves: &[(Reg, Reg)])
    requires
        workable(b),
    ensures
        final(out)@ == old(out)@ + shuffle_s(*b.m, moves@),
{
    let steps = ordered(moves);
    let ghost start = old(out)@;
    let mut i: usize = 0;
    while i < steps.len()
        invariant
            workable(b),
            i <= steps@.len(),
            out@ == start + steps_text(*b.m, steps@.subrange(0, i as int)),
        decreases steps@.len() - i,
    {
        let ghost before = out@;
        match steps[i] {
            Step::Move { to, from } => {
                let a = named(to, 8);
                let c = named(from, 8);
                put2(out, mov_of(to.class), a.as_str(), c.as_str());
            },
            Step::Save(from) => {
                let a = named(scratch(b.m, 1, from.class), 8);
                let c = named(from, 8);
                put2(out, mov_of(from.class), a.as_str(), c.as_str());
            },
            Step::Restore(to) => {
                let a = named(to, 8);
                let c = named(scratch(b.m, 1, to.class), 8);
                put2(out, mov_of(to.class), a.as_str(), c.as_str());
            },
        }
        proof {
            assert(steps@.subrange(0, i + 1).drop_last() =~= steps@.subrange(0, i as int));
            assert(out@ =~= start + steps_text(*b.m, steps@.subrange(0, i + 1)));
        }
        i = i + 1;
    }
    proof {
        assert(steps@.subrange(0, steps@.len() as int) =~= steps@);
    }
}

/// How far below the frame pointer the `which`th saved register goes.
pub open spec fn saved_off(b: &Body, which: int) -> usize {
    ((which + 1) * b.m.word) as usize
}

/// The saved registers from the first on, each stored, or each loaded back.
pub open spec fn saves_upto(b: &Body, k: int, what: Seq<char>) -> Seq<char>
    decreases k,
{
    if k <= 0 {
        Seq::empty()
    } else {
        let at = frame_op_s(saved_off(b, k - 1), scratch_s(*b.m, 2, Class::Int));
        saves_upto(b, k - 1, what) + at.0 + op2(what, named_s(b.saved@[k - 1], 8), at.1)
    }
}

pub(crate) proof fn saved_off_fits(b: &Body, which: int)
    requires
        workable(b),
        0 <= which < b.saved@.len(),
    ensures
        (which + 1) * b.m.word <= usize::MAX,
        which < usize::MAX,
{
    assert((which + 1) * b.m.word <= b.saved@.len() * b.m.word && which + 1 <= (which + 1) * b.m.word) by (nonlinear_arith)
        requires
            0 <= which < b.saved@.len(),
            b.m.word >= 1,
    ;
}

fn saves(out: &mut String, b: &Body, what: &'static str)
    requires
        workable(b),
    ensures
        final(out)@ == old(out)@ + saves_upto(b, b.saved@.len() as int, what@),
{
    let ghost start = old(out)@;
    let mut which: usize = 0;
    while which < b.saved.len()
        invariant
            workable(b),
            which <= b.saved@.len(),
            out@ == start + saves_upto(b, which as int, what@),
        decreases b.saved@.len() - which,
    {
        proof {
            saved_off_fits(b, which as int);
        }
        let ghost before = out@;
        let at = b.saved_at(which);
        let one = frame_op(out, at, scratch(b.m, 2, Class::Int));
        let name = named(b.saved[which], 8);
        put2(out, what, name.as_str(), one.as_str());
        proof {
            assert(out@ =~= start + saves_upto(b, which + 1, what@));
        }
        which = which + 1;
    }
}

/// The frame pointer and the link register go down together, then the
/// frame, then each saved register into its place, then the parameters out
/// of the registers they arrived in.
pub open spec fn prologue_s(b: &Body) -> Seq<char> {
    op3("stp"@, "x29"@, "x30"@, "[sp, #-16]!"@) + op2("mov"@, "x29"@, "sp"@) + (if b.frame > 0 {
        if b.frame < 4096 {
            op3("sub"@, "sp"@, "sp"@, imm(b.frame))
        } else {
            immediate_s("x16"@, signed_word(b.frame)) + op3("sub"@, "sp"@, "sp"@, "x16"@)
        }
    } else {
        Seq::empty()
    }) + saves_upto(b, b.saved@.len() as int, "str"@) + params_s(b)
}

/// The file of each parameter.
pub open spec fn param_classes(b: &Body) -> Seq<Class> {
    b.held.params@.map_values(|reg: MIRRegId| reg_class(b, reg))
}

/// The first `k` parameters: each stored into the frame where it lives
/// there, and the moves into registers for the ones that live in one.
pub open spec fn params_upto(b: &Body, k: int) -> (Seq<char>, Seq<(Reg, Reg)>)
    decreases k,
{
    if k <= 0 {
        (Seq::empty(), Seq::empty())
    } else {
        let prev = params_upto(b, k - 1);
        let reg = b.held.params@[k - 1];
        match passed_in(*b.m, param_classes(b), k - 1) {
            None => prev,
            Some(from) => match reg_site(b, reg) {
                Site::At(off) => {
                    let bytes = reg_bytes(b, reg);
                    let at = frame_op_s(off, scratch_s(*b.m, 2, Class::Int));
                    (prev.0 + at.0 + op2(store_of_s(reg_class(b, reg), bytes)@, named_s(from, bytes), at.1), prev.1)
                },
                Site::In(to) => (prev.0, prev.1.push((to, from))),
                Site::Nowhere => prev,
            },
        }
    }
}

/// The parameters out of the registers they arrived in.
pub open spec fn params_s(b: &Body) -> Seq<char> {
    let done = params_upto(b, b.held.params@.len() as int);
    done.0 + shuffle_s(*b.m, done.1)
}

fn params(out: &mut String, b: &Body)
    requires
        workable(b),
    ensures
        final(out)@ == old(out)@ + params_s(b),
{
    let mut classes: Vec<Class> = Vec::new();
    let mut i: usize = 0;
    while i < b.held.params.len()
        invariant
            i <= b.held.params@.len(),
            classes@ == param_classes(b).subrange(0, i as int),
        decreases b.held.params@.len() - i,
    {
        classes.push(b.class(b.held.params[i]));
        proof {
            assert(classes@ =~= param_classes(b).subrange(0, i + 1));
        }
        i = i + 1;
    }
    proof {
        assert(classes@ =~= param_classes(b));
    }
    let held = passing(b.m, classes.as_slice());
    let ghost start = old(out)@;
    let mut moves: Vec<(Reg, Reg)> = Vec::new();
    let mut at: usize = 0;
    while at < b.held.params.len()
        invariant
            workable(b),
            at <= b.held.params@.len(),
            held@.len() == b.held.params@.len(),
            forall|j: int| 0 <= j < held@.len() ==> held@[j] == passed_in(*b.m, param_classes(b), j),
            out@ == start + params_upto(b, at as int).0,
            moves@ == params_upto(b, at as int).1,
        decreases b.held.params@.len() - at,
    {
        let reg = b.held.params[at];
        let ghost before = out@;
        match held[at] {
            None => {},
            Some(from) => match b.site(reg) {
                Site::At(off) => {
                    let bytes = b.bytes(reg);
                    let one = frame_op(out, off, scratch(b.m, 2, Class::Int));
                    let name = named(from, bytes);
                    put2(out, store_of(b.class(reg), bytes), name.as_str(), one.as_str());
                },
                Site::In(to) => moves.push((to, from)),
                Site::Nowhere => {},
            },
        }
        proof {
            assert(out@ =~= start + params_upto(b, at + 1).0);
        }
        at = at + 1;
    }
    shuffle(out, b, moves.as_slice());
    proof {
        assert(final(out)@ =~= start + params_s(b));
    }
}

fn prologue(out: &mut String, b: &Body)
    requires
        workable(b),
    ensures
        final(out)@ == old(out)@ + prologue_s(b),
{
    let ghost start = old(out)@;
    put3(out, "stp", "x29", "x30", "[sp, #-16]!");
    put2(out, "mov", "x29", "sp");
    let ghost mid = out@;
    if b.frame > 0 {
        if b.frame < 4096 {
            let n = imm_text(b.frame);
            put3(out, "sub", "sp", "sp", n.as_str());
        } else {
            immediate(out, "x16", as_signed(b.frame));
            put3(out, "sub", "sp", "sp", "x16");
        }
    }
    saves(out, b, "str");
    params(out, b);
    proof {
        assert(final(out)@ =~= start + prologue_s(b));
    }
}

/// Each saved register back, the stack back to where the frame pointer
/// says, and the pair out of it.
pub open spec fn epilogue_s(b: &Body) -> Seq<char> {
    saves_upto(b, b.saved@.len() as int, "ldr"@) + op2("mov"@, "sp"@, "x29"@) + op4("ldp"@, "x29"@, "x30"@, "[sp]"@, "#16"@)
        + op0("ret"@)
}

fn epilogue(out: &mut String, b: &Body)
    requires
        workable(b),
    ensures
        final(out)@ == old(out)@ + epilogue_s(b),
{
    let ghost start = old(out)@;
    saves(out, b, "ldr");
    put2(out, "mov", "sp", "x29");
    put4(out, "ldp", "x29", "x30", "[sp]", "#16");
    put0(out, "ret");
    proof {
        assert(final(out)@ =~= start + epilogue_s(b));
    }
}

/// A block's way out. A branch is a compare-and-branch on the condition and a
/// jump for the other way; an answer goes where the caller reads it before
/// the epilogue; the one that cannot be reached is the instruction that is
/// guaranteed to fault.
pub open spec fn term_s(b: &Body, held: MIRTerm) -> Seq<char> {
    match held {
        MIRTerm::Goto(to) => op1("b"@, label_text(b.index, to)),
        MIRTerm::Branch { cond, then, els } => {
            let r = read_s(b, cond, scratch_s(*b.m, 0, Class::Int));
            r.0 + op2("cbnz"@, r.1, label_text(b.index, then)) + op1("b"@, label_text(b.index, els))
        },
        MIRTerm::Return(value) => (match value {
            None => Seq::empty(),
            Some(reg) => {
                let class = reg_class(b, reg);
                let want = match class {
                    Class::Int => b.m.ret,
                    Class::Float => b.m.fret,
                };
                let held = named_s(want, reg_bytes(b, reg));
                let r = read_s(b, reg, scratch_s(*b.m, 0, class));
                r.0 + if r.1 != held { op2(mov_of_s(class)@, held, r.1) } else { Seq::empty() }
            },
        }) + epilogue_s(b),
        MIRTerm::Unreachable => op1("udf"@, "#0"@),
    }
}

fn term(out: &mut String, b: &Body, held: &MIRTerm)
    requires
        workable(b),
    ensures
        final(out)@ == old(out)@ + term_s(b, *held),
{
    let ghost start = old(out)@;
    match held {
        MIRTerm::Goto(to) => {
            let l = label(b, *to);
            put1(out, "b", l.as_str());
        },
        MIRTerm::Branch { cond, then, els } => {
            let one = read(out, b, *cond, scratch(b.m, 0, Class::Int));
            let l = label(b, *then);
            put2(out, "cbnz", one.as_str(), l.as_str());
            let l2 = label(b, *els);
            put1(out, "b", l2.as_str());
        },
        MIRTerm::Return(value) => {
            match value {
                None => {},
                Some(reg) => {
                    let class = b.class(*reg);
                    let want = b.m.answering(class);
                    let name = named(want, b.bytes(*reg));
                    let one = read(out, b, *reg, scratch(b.m, 0, class));
                    if !same_text(one.as_str(), name.as_str()) {
                        put2(out, mov_of(class), name.as_str(), one.as_str());
                    }
                },
            }
            epilogue(out, b);
        },
        MIRTerm::Unreachable => {
            put1(out, "udf", "#0");
        },
    }
    proof {
        assert(final(out)@ =~= start + term_s(b, *held));
    }
}


// ---- The instructions ------------------------------------------------------

/// The bits a float constant is built from: the low four bytes of what it
/// holds for a four-byte value, all eight otherwise.
pub open spec fn float_word(bits: u64, narrow: bool) -> i64 {
    if narrow {
        (#[verifier::truncate] (bits as u32)) as i64
    } else {
        #[verifier::truncate] (bits as i64)
    }
}

fn float_bits(bits: u64, narrow: bool) -> (r: i64)
    ensures
        r == float_word(bits, narrow),
{
    if narrow {
        (#[verifier::truncate] (bits as u32)) as i64
    } else {
        #[verifier::truncate] (bits as i64)
    }
}

/// A constant into its register, written after `pre`. A float goes in
/// through an integer register: this machine has no instruction that puts a
/// constant in a float one, and `fmov` between the two files is a move of
/// the bits.
pub open spec fn const_s(pre: Seq<char>, b: &Body, def: MIRRegId, held: MIRConst) -> Seq<char> {
    let w = writing_s(b, def, scratch_s(*b.m, 0, reg_class(b, def)));
    let made = match held {
        MIRConst::Int(n) => pre + immediate_s(w.0, n),
        MIRConst::Float(bits) => {
            let narrow = reg_bytes(b, def) <= 4;
            let via = named_s(scratch_s(*b.m, 0, Class::Int), 8);
            pre + immediate_s(via, float_word(bits, narrow)) + op2(
                "fmov"@,
                w.0,
                if narrow { named_s(scratch_s(*b.m, 0, Class::Int), 4) } else { via },
            )
        },
    };
    made + stored_s(b, def, w.0, w.1)
}

fn const_of(out: &mut String, b: &Body, def: MIRRegId, held: MIRConst)
    requires
        workable(b),
    ensures
        final(out)@ == const_s(old(out)@, b, def, held),
{
    let w = writing(b, def, scratch(b.m, 0, b.class(def)));
    match held {
        MIRConst::Int(n) => immediate(out, w.0.as_str(), n),
        MIRConst::Float(bits) => {
            let narrow = b.bytes(def) <= 4;
            let via = named(scratch(b.m, 0, Class::Int), 8);
            immediate(out, via.as_str(), float_bits(bits, narrow));
            let at = if narrow { named(scratch(b.m, 0, Class::Int), 4) } else { named(scratch(b.m, 0, Class::Int), 8) };
            put2(out, "fmov", w.0.as_str(), at.as_str());
        },
    }
    stored(out, b, def, w.0.as_str(), w.1);
}

/// One register into another, at the destination's width.
pub open spec fn move_s(pre: Seq<char>, b: &Body, def: MIRRegId, of: MIRRegId) -> Seq<char> {
    let r = read_s(b, of, scratch_s(*b.m, 1, reg_class(b, of)));
    let u = unify_s(b, of, r.1, reg_bytes(b, def), false, scratch_s(*b.m, 1, Class::Int));
    let w = writing_s(b, def, scratch_s(*b.m, 0, reg_class(b, def)));
    let moved = if u.1 != w.0 {
        pre + r.0 + u.0 + op2(mov_of_s(reg_class(b, def))@, w.0, u.1)
    } else {
        pre + r.0 + u.0
    };
    moved + stored_s(b, def, w.0, w.1)
}

fn move_of(out: &mut String, b: &Body, def: MIRRegId, of: MIRRegId)
    requires
        workable(b),
    ensures
        final(out)@ == move_s(old(out)@, b, def, of),
{
    let a = read(out, b, of, scratch(b.m, 1, b.class(of)));
    let a = unify(out, b, of, a.as_str(), b.bytes(def), false, scratch(b.m, 1, Class::Int));
    let w = writing(b, def, scratch(b.m, 0, b.class(def)));
    if !same_text(a.as_str(), w.0.as_str()) {
        put2(out, mov_of(b.class(def)), w.0.as_str(), a.as_str());
    }
    stored(out, b, def, w.0.as_str(), w.1);
}

/// The mnemonic of a one-operand operation.
pub open spec fn un_name(op: MIRUnOp) -> &'static str {
    match op {
        MIRUnOp::Neg => "neg",
        MIRUnOp::Not => "mvn",
        MIRUnOp::FNeg => "fneg",
    }
}

/// A one-operand operation.
pub open spec fn un_s(pre: Seq<char>, b: &Body, def: MIRRegId, op: MIRUnOp, operand: MIRRegId) -> Seq<char> {
    let r = read_s(b, operand, scratch_s(*b.m, 1, reg_class(b, operand)));
    let w = writing_s(b, def, scratch_s(*b.m, 0, reg_class(b, def)));
    pre + r.0 + op2(un_name(op)@, w.0, r.1) + stored_s(b, def, w.0, w.1)
}

fn un_of(out: &mut String, b: &Body, def: MIRRegId, op: MIRUnOp, operand: MIRRegId)
    requires
        workable(b),
    ensures
        final(out)@ == un_s(old(out)@, b, def, op, operand),
{
    let a = read(out, b, operand, scratch(b.m, 1, b.class(operand)));
    let w = writing(b, def, scratch(b.m, 0, b.class(def)));
    let what = match op {
        MIRUnOp::Neg => "neg",
        MIRUnOp::Not => "mvn",
        MIRUnOp::FNeg => "fneg",
    };
    put2(out, what, w.0.as_str(), a.as_str());
    stored(out, b, def, w.0.as_str(), w.1);
}

/// The mnemonic of a two-operand operation; the remainders are written out
/// where they are met.
pub open spec fn mnemonic_s(op: MIRBinOp) -> &'static str {
    match op {
        MIRBinOp::Add => "add",
        MIRBinOp::Sub => "sub",
        MIRBinOp::Mul => "mul",
        MIRBinOp::SDiv => "sdiv",
        MIRBinOp::UDiv => "udiv",
        MIRBinOp::And => "and",
        MIRBinOp::Or => "orr",
        MIRBinOp::Xor => "eor",
        MIRBinOp::Shl => "lsl",
        MIRBinOp::LShr => "lsr",
        MIRBinOp::AShr => "asr",
        MIRBinOp::FAdd => "fadd",
        MIRBinOp::FSub => "fsub",
        MIRBinOp::FMul => "fmul",
        MIRBinOp::FDiv => "fdiv",
        MIRBinOp::SRem => "sdiv",
        MIRBinOp::URem => "sdiv",
    }
}

fn mnemonic(op: MIRBinOp) -> (r: &'static str)
    ensures
        r == mnemonic_s(op),
{
    match op {
        MIRBinOp::Add => "add",
        MIRBinOp::Sub => "sub",
        MIRBinOp::Mul => "mul",
        MIRBinOp::SDiv => "sdiv",
        MIRBinOp::UDiv => "udiv",
        MIRBinOp::And => "and",
        MIRBinOp::Or => "orr",
        MIRBinOp::Xor => "eor",
        MIRBinOp::Shl => "lsl",
        MIRBinOp::LShr => "lsr",
        MIRBinOp::AShr => "asr",
        MIRBinOp::FAdd => "fadd",
        MIRBinOp::FSub => "fsub",
        MIRBinOp::FMul => "fmul",
        MIRBinOp::FDiv => "fdiv",
        MIRBinOp::SRem => "sdiv",
        MIRBinOp::URem => "sdiv",
    }
}

/// `n` held between one and eight.
pub open spec fn clamp8(n: usize) -> usize {
    if n < 1 { 1 } else if n > 8 { 8 } else { n }
}

/// The larger of two.
pub open spec fn most(a: usize, c: usize) -> usize {
    if a >= c { a } else { c }
}

/// Which register an answer is in, or the scratch it is computed in.
pub open spec fn reg_of_s(b: &Body, def: MIRRegId, sc: Reg) -> Reg {
    match reg_site(b, def) {
        Site::In(held) => held,
        _ => sc,
    }
}

fn reg_of(b: &Body, def: MIRRegId, sc: Reg) -> (r: Reg)
    ensures
        r == reg_of_s(b, def, sc),
{
    match b.site(def) {
        Site::In(held) => held,
        _ => sc,
    }
}

/// The width a two-operand operation works at: its answer's for a float,
/// and otherwise the widest of its operands and its answer, kept to a word.
pub open spec fn bin_wide(b: &Body, def: MIRRegId, lhs: MIRRegId, rhs: MIRRegId) -> usize {
    if reg_class(b, def) == Class::Float {
        reg_bytes(b, def)
    } else {
        clamp8(most(most(reg_bytes(b, def), reg_bytes(b, lhs)), reg_bytes(b, rhs)))
    }
}

/// A two-operand operation, at the widest of its operands and its answer. A
/// remainder is the quotient and then the dividend less the quotient times
/// the divisor.
pub open spec fn bin_s(pre: Seq<char>, b: &Body, def: MIRRegId, op: MIRBinOp, lhs: MIRRegId, rhs: MIRRegId) -> Seq<char> {
    let float = reg_class(b, def) == Class::Float;
    let wide = bin_wide(b, def, lhs, rhs);
    let signed = op == MIRBinOp::SDiv || op == MIRBinOp::SRem || op == MIRBinOp::AShr;
    let a = read_s(b, lhs, scratch_s(*b.m, 0, reg_class(b, lhs)));
    let a2 = unify_s(b, lhs, a.1, wide, signed, scratch_s(*b.m, 0, Class::Int));
    let c = read_s(b, rhs, scratch_s(*b.m, 1, reg_class(b, rhs)));
    let c2 = unify_s(b, rhs, c.1, wide, signed, scratch_s(*b.m, 1, Class::Int));
    let sc = scratch_s(*b.m, 2, reg_class(b, def));
    let back = match reg_site(b, def) {
        Site::At(off) => Some(off),
        _ => None,
    };
    let into = reg_of_s(b, def, sc);
    let one = if float { named_s(into, reg_bytes(b, def)) } else { named_s(into, wide) };
    let read_in = pre + a.0 + a2.0 + c.0 + c2.0;
    let done = if op == MIRBinOp::SRem || op == MIRBinOp::URem {
        let held = named_s(scratch_s(*b.m, 2, Class::Int), reg_bytes(b, def));
        read_in + op3(if op == MIRBinOp::SRem { "sdiv"@ } else { "udiv"@ }, held, a2.1, c2.1) + op4("msub"@, one, held, c2.1, a2.1)
    } else {
        read_in + op3(mnemonic_s(op)@, one, a2.1, c2.1)
    };
    done + stored_s(b, def, named_s(into, reg_bytes(b, def)), back)
}

fn bin_of(out: &mut String, b: &Body, def: MIRRegId, op: MIRBinOp, lhs: MIRRegId, rhs: MIRRegId)
    requires
        workable(b),
    ensures
        final(out)@ == bin_s(old(out)@, b, def, op, lhs, rhs),
{
    let float = b.class(def) == Class::Float;
    let wide = if float {
        b.bytes(def)
    } else {
        let x = b.bytes(def);
        let y = b.bytes(lhs);
        let z = b.bytes(rhs);
        let xy = if x >= y { x } else { y };
        let n = if xy >= z { xy } else { z };
        if n < 1 { 1 } else if n > 8 { 8 } else { n }
    };
    proof {
        assert(wide == bin_wide(b, def, lhs, rhs));
    }
    let signed = op == MIRBinOp::SDiv || op == MIRBinOp::SRem || op == MIRBinOp::AShr;
    let a = read(out, b, lhs, scratch(b.m, 0, b.class(lhs)));
    let a = unify(out, b, lhs, a.as_str(), wide, signed, scratch(b.m, 0, Class::Int));
    let c = read(out, b, rhs, scratch(b.m, 1, b.class(rhs)));
    let c = unify(out, b, rhs, c.as_str(), wide, signed, scratch(b.m, 1, Class::Int));
    let sc = scratch(b.m, 2, b.class(def));
    let back = match b.site(def) {
        Site::At(off) => Some(off),
        _ => None,
    };
    let into = reg_of(b, def, sc);
    let one = if float { named(into, b.bytes(def)) } else { named(into, wide) };
    if op == MIRBinOp::SRem || op == MIRBinOp::URem {
        let held = named(scratch(b.m, 2, Class::Int), b.bytes(def));
        let what = if op == MIRBinOp::SRem { "sdiv" } else { "udiv" };
        put3(out, what, held.as_str(), a.as_str(), c.as_str());
        put4(out, "msub", one.as_str(), held.as_str(), c.as_str(), a.as_str());
    } else {
        put3(out, mnemonic(op), one.as_str(), a.as_str(), c.as_str());
    }
    let name = named(into, b.bytes(def));
    stored(out, b, def, name.as_str(), back);
}

/// What `cset` is given. The float cases are the ones where an unordered
/// comparison has to come out false: `mi` and `ls` say no to it where `lt`
/// and `le` would say yes.
pub open spec fn condition_s(op: MIRCmpOp) -> &'static str {
    match op {
        MIRCmpOp::Eq => "eq",
        MIRCmpOp::FEq => "eq",
        MIRCmpOp::Ne => "ne",
        MIRCmpOp::FNe => "ne",
        MIRCmpOp::SLt => "lt",
        MIRCmpOp::SLe => "le",
        MIRCmpOp::SGt => "gt",
        MIRCmpOp::SGe => "ge",
        MIRCmpOp::ULt => "lo",
        MIRCmpOp::ULe => "ls",
        MIRCmpOp::UGt => "hi",
        MIRCmpOp::UGe => "hs",
        MIRCmpOp::FLt => "mi",
        MIRCmpOp::FLe => "ls",
        MIRCmpOp::FGt => "gt",
        MIRCmpOp::FGe => "ge",
    }
}

fn condition(op: MIRCmpOp) -> (r: &'static str)
    ensures
        r == condition_s(op),
{
    match op {
        MIRCmpOp::Eq => "eq",
        MIRCmpOp::FEq => "eq",
        MIRCmpOp::Ne => "ne",
        MIRCmpOp::FNe => "ne",
        MIRCmpOp::SLt => "lt",
        MIRCmpOp::SLe => "le",
        MIRCmpOp::SGt => "gt",
        MIRCmpOp::SGe => "ge",
        MIRCmpOp::ULt => "lo",
        MIRCmpOp::ULe => "ls",
        MIRCmpOp::UGt => "hi",
        MIRCmpOp::UGe => "hs",
        MIRCmpOp::FLt => "mi",
        MIRCmpOp::FLe => "ls",
        MIRCmpOp::FGt => "gt",
        MIRCmpOp::FGe => "ge",
    }
}

/// No two of the condition codes are spelled alike.
proof fn condition_names_apart()
    ensures
        "eq"@ != "ne"@,
        "eq"@ != "lt"@,
        "eq"@ != "le"@,
        "eq"@ != "gt"@,
        "eq"@ != "ge"@,
        "eq"@ != "lo"@,
        "eq"@ != "ls"@,
        "eq"@ != "hi"@,
        "eq"@ != "hs"@,
        "ne"@ != "lt"@,
        "ne"@ != "le"@,
        "ne"@ != "gt"@,
        "ne"@ != "ge"@,
        "ne"@ != "lo"@,
        "ne"@ != "ls"@,
        "ne"@ != "hi"@,
        "ne"@ != "hs"@,
        "lt"@ != "le"@,
        "lt"@ != "gt"@,
        "lt"@ != "ge"@,
        "lt"@ != "lo"@,
        "lt"@ != "ls"@,
        "lt"@ != "hi"@,
        "lt"@ != "hs"@,
        "le"@ != "gt"@,
        "le"@ != "ge"@,
        "le"@ != "lo"@,
        "le"@ != "ls"@,
        "le"@ != "hi"@,
        "le"@ != "hs"@,
        "gt"@ != "ge"@,
        "gt"@ != "lo"@,
        "gt"@ != "ls"@,
        "gt"@ != "hi"@,
        "gt"@ != "hs"@,
        "ge"@ != "lo"@,
        "ge"@ != "ls"@,
        "ge"@ != "hi"@,
        "ge"@ != "hs"@,
        "lo"@ != "ls"@,
        "lo"@ != "hi"@,
        "lo"@ != "hs"@,
        "ls"@ != "hi"@,
        "ls"@ != "hs"@,
        "hi"@ != "hs"@,
{
    reveal_strlit("eq");
    reveal_strlit("ne");
    reveal_strlit("lt");
    reveal_strlit("le");
    reveal_strlit("gt");
    reveal_strlit("ge");
    reveal_strlit("lo");
    reveal_strlit("ls");
    reveal_strlit("hi");
    reveal_strlit("hs");
    assert("eq"@[0] != "ne"@[0]);
    assert("eq"@[0] != "lt"@[0]);
    assert("eq"@[0] != "le"@[0]);
    assert("eq"@[0] != "gt"@[0]);
    assert("eq"@[0] != "ge"@[0]);
    assert("eq"@[0] != "lo"@[0]);
    assert("eq"@[0] != "ls"@[0]);
    assert("eq"@[0] != "hi"@[0]);
    assert("eq"@[0] != "hs"@[0]);
    assert("ne"@[0] != "lt"@[0]);
    assert("ne"@[0] != "le"@[0]);
    assert("ne"@[0] != "gt"@[0]);
    assert("ne"@[0] != "ge"@[0]);
    assert("ne"@[0] != "lo"@[0]);
    assert("ne"@[0] != "ls"@[0]);
    assert("ne"@[0] != "hi"@[0]);
    assert("ne"@[0] != "hs"@[0]);
    assert("lt"@[1] != "le"@[1]);
    assert("lt"@[0] != "gt"@[0]);
    assert("lt"@[0] != "ge"@[0]);
    assert("lt"@[1] != "lo"@[1]);
    assert("lt"@[1] != "ls"@[1]);
    assert("lt"@[0] != "hi"@[0]);
    assert("lt"@[0] != "hs"@[0]);
    assert("le"@[0] != "gt"@[0]);
    assert("le"@[0] != "ge"@[0]);
    assert("le"@[1] != "lo"@[1]);
    assert("le"@[1] != "ls"@[1]);
    assert("le"@[0] != "hi"@[0]);
    assert("le"@[0] != "hs"@[0]);
    assert("gt"@[1] != "ge"@[1]);
    assert("gt"@[0] != "lo"@[0]);
    assert("gt"@[0] != "ls"@[0]);
    assert("gt"@[0] != "hi"@[0]);
    assert("gt"@[0] != "hs"@[0]);
    assert("ge"@[0] != "lo"@[0]);
    assert("ge"@[0] != "ls"@[0]);
    assert("ge"@[0] != "hi"@[0]);
    assert("ge"@[0] != "hs"@[0]);
    assert("lo"@[1] != "ls"@[1]);
    assert("lo"@[0] != "hi"@[0]);
    assert("lo"@[0] != "hs"@[0]);
    assert("ls"@[0] != "hi"@[0]);
    assert("ls"@[0] != "hs"@[0]);
    assert("hi"@[1] != "hs"@[1]);
}

/// Whether `cset` with condition `cond` writes one, after a `cmp` of the left
/// operand with the right, both `bits` wide: the carry flag is set when the
/// unsigned subtraction borrows nothing, so the left is not below the right;
/// the zero flag says the two are the same; and the negative flag differing
/// from the overflow flag says the left is less than the right read as two's
/// complement. `hs`/`lo`/`hi`/`ls` read the carry, `ge`/`lt`/`gt`/`le` the
/// negative flag against the overflow.
pub open spec fn arm_cset_holds(cond: Seq<char>, x: int, y: int, bits: nat) -> bool {
    let carry = x >= y;
    let zero = x == y;
    let less = signed_of(x, bits) < signed_of(y, bits);
    if cond == "eq"@ {
        zero
    } else if cond == "ne"@ {
        !zero
    } else if cond == "hs"@ {
        carry
    } else if cond == "lo"@ {
        !carry
    } else if cond == "hi"@ {
        carry && !zero
    } else if cond == "ls"@ {
        !carry || zero
    } else if cond == "ge"@ {
        !less
    } else if cond == "lt"@ {
        less
    } else if cond == "gt"@ {
        !zero && !less
    } else if cond == "le"@ {
        zero || less
    } else {
        false
    }
}

/// The condition an integer comparison is read back with answers that
/// comparison: after the compare, `cset` with the condition chosen for `op`
/// writes one exactly when `op` holds of the two values -- an unsigned
/// comparison reads the carry, a signed one the negative flag against the
/// overflow.
pub proof fn conditions_answer_comparisons(op: MIRCmpOp, x: int, y: int, bits: nat)
    requires
        compares_integers(op),
        bits > 0,
        0 <= x < vstd::arithmetic::power2::pow2(bits),
        0 <= y < vstd::arithmetic::power2::pow2(bits),
    ensures
        arm_cset_holds(condition_s(op)@, x, y, bits) == comparison_holds(op, x, y, bits),
{
    condition_names_apart();
    signed_of_one_to_one(x, y, bits);
    let goal = arm_cset_holds(condition_s(op)@, x, y, bits) == comparison_holds(op, x, y, bits);
    match op {
        MIRCmpOp::Eq => {
            assert(condition_s(op)@ == "eq"@);
            assert(goal);
        },
        MIRCmpOp::Ne => {
            assert(condition_s(op)@ == "ne"@);
            assert(goal);
        },
        MIRCmpOp::SLt => {
            assert(condition_s(op)@ == "lt"@);
            assert(goal);
        },
        MIRCmpOp::SLe => {
            assert(condition_s(op)@ == "le"@);
            assert(goal);
        },
        MIRCmpOp::SGt => {
            assert(condition_s(op)@ == "gt"@);
            assert(goal);
        },
        MIRCmpOp::SGe => {
            assert(condition_s(op)@ == "ge"@);
            assert(goal);
        },
        MIRCmpOp::ULt => {
            assert(condition_s(op)@ == "lo"@);
            assert(goal);
        },
        MIRCmpOp::ULe => {
            assert(condition_s(op)@ == "ls"@);
            assert(goal);
        },
        MIRCmpOp::UGt => {
            assert(condition_s(op)@ == "hi"@);
            assert(goal);
        },
        MIRCmpOp::UGe => {
            assert(condition_s(op)@ == "hs"@);
            assert(goal);
        },
        _ => assert(false),
    }
}

/// A comparison, and its answer as a one or a nought: `cset` writes a whole
/// register whatever the answer is called.
pub open spec fn compare_s(pre: Seq<char>, b: &Body, def: MIRRegId, op: MIRCmpOp, lhs: MIRRegId, rhs: MIRRegId) -> Seq<char> {
    let signed = compares_signed(op);
    let float = reg_class(b, lhs) == Class::Float;
    let wide = clamp8(most(reg_bytes(b, lhs), reg_bytes(b, rhs)));
    let a = read_s(b, lhs, scratch_s(*b.m, 0, reg_class(b, lhs)));
    let c = read_s(b, rhs, scratch_s(*b.m, 1, reg_class(b, rhs)));
    let a2 = unify_s(b, lhs, a.1, wide, signed, scratch_s(*b.m, 0, Class::Int));
    let c2 = unify_s(b, rhs, c.1, wide, signed, scratch_s(*b.m, 1, Class::Int));
    let w = writing_s(b, def, scratch_s(*b.m, 2, Class::Int));
    let tested = if float {
        pre + a.0 + c.0 + op2("fcmp"@, a.1, c.1)
    } else {
        pre + a.0 + c.0 + a2.0 + c2.0 + op2("cmp"@, a2.1, c2.1)
    };
    tested + op2("cset"@, narrow_s(wide_name_s(w.0)), condition_s(op)@) + stored_s(b, def, w.0, w.1)
}

fn compare(out: &mut String, b: &Body, def: MIRRegId, op: MIRCmpOp, lhs: MIRRegId, rhs: MIRRegId)
    requires
        workable(b),
    ensures
        final(out)@ == compare_s(old(out)@, b, def, op, lhs, rhs),
{
    let signed = op == MIRCmpOp::SLt || op == MIRCmpOp::SLe || op == MIRCmpOp::SGt || op == MIRCmpOp::SGe;
    let float = b.class(lhs) == Class::Float;
    let x = b.bytes(lhs);
    let y = b.bytes(rhs);
    let n = if x >= y { x } else { y };
    let wide = if n < 1 { 1 } else if n > 8 { 8 } else { n };
    let a = read(out, b, lhs, scratch(b.m, 0, b.class(lhs)));
    let c = read(out, b, rhs, scratch(b.m, 1, b.class(rhs)));
    if float {
        put2(out, "fcmp", a.as_str(), c.as_str());
    } else {
        let a2 = unify(out, b, lhs, a.as_str(), wide, signed, scratch(b.m, 0, Class::Int));
        let c2 = unify(out, b, rhs, c.as_str(), wide, signed, scratch(b.m, 1, Class::Int));
        put2(out, "cmp", a2.as_str(), c2.as_str());
    }
    let w = writing(b, def, scratch(b.m, 2, Class::Int));
    let wn = wide_name(w.0.as_str());
    let nn = narrow(wn.as_str());
    put2(out, "cset", nn.as_str(), condition(op));
    stored(out, b, def, w.0.as_str(), w.1);
}

/// A value from one scalar to another. Widening without a sign, and
/// narrowing, are writes of the `w` view, which clears the top half on its
/// own; the two are named at one width, since `mov w3, x2` is not an
/// instruction.
pub open spec fn convert_s(pre: Seq<char>, b: &Body, def: MIRRegId, of: MIRRegId, from: MIRScalar, to: MIRScalar) -> Seq<char> {
    let r = read_s(b, of, scratch_s(*b.m, 1, reg_class(b, of)));
    let w = writing_s(b, def, scratch_s(*b.m, 0, reg_class(b, def)));
    let a = r.1;
    let one = w.0;
    let line = match from {
        MIRScalar::Int { bytes: fb, signed } => match to {
            MIRScalar::Int { bytes: tb, .. } => if tb > fb && fb < 8 {
                if plain_widen(signed, fb) {
                    op2("mov"@, narrow_s(one), narrow_s(a))
                } else {
                    op2(ext_s(signed, fb)@, one, narrow_s(a))
                }
            } else if tb < fb {
                op2("mov"@, narrow_s(one), narrow_s(a))
            } else {
                op2("mov"@, one, a)
            },
            MIRScalar::Float { .. } => op2(if signed { "scvtf"@ } else { "ucvtf"@ }, one, if fb <= 4 { narrow_s(a) } else { a }),
        },
        MIRScalar::Float { bytes: fb } => match to {
            MIRScalar::Int { bytes: tb, signed } => op2(
                if signed { "fcvtzs"@ } else { "fcvtzu"@ },
                if tb <= 4 { narrow_s(one) } else { one },
                a,
            ),
            MIRScalar::Float { bytes: tb } => if fb == tb { op2("fmov"@, one, a) } else { op2("fcvt"@, one, a) },
        },
    };
    pre + r.0 + line + stored_s(b, def, w.0, w.1)
}

fn convert(out: &mut String, b: &Body, def: MIRRegId, of: MIRRegId, from: MIRScalar, to: MIRScalar)
    requires
        workable(b),
    ensures
        final(out)@ == convert_s(old(out)@, b, def, of, from, to),
{
    let a = read(out, b, of, scratch(b.m, 1, b.class(of)));
    let w = writing(b, def, scratch(b.m, 0, b.class(def)));
    let one = &w.0;
    match from {
        MIRScalar::Int { bytes: fb, signed } => match to {
            MIRScalar::Int { bytes: tb, .. } => {
                if tb > fb && fb < 8 {
                    if !signed && fb != 1 && fb != 2 {
                        let x = narrow(one.as_str());
                        let y = narrow(a.as_str());
                        put2(out, "mov", x.as_str(), y.as_str());
                    } else {
                        let y = narrow(a.as_str());
                        put2(out, ext(signed, fb), one.as_str(), y.as_str());
                    }
                } else if tb < fb {
                    let x = narrow(one.as_str());
                    let y = narrow(a.as_str());
                    put2(out, "mov", x.as_str(), y.as_str());
                } else {
                    put2(out, "mov", one.as_str(), a.as_str());
                }
            },
            MIRScalar::Float { .. } => {
                let y = if fb <= 4 { narrow(a.as_str()) } else { owned(a.as_str()) };
                put2(out, if signed { "scvtf" } else { "ucvtf" }, one.as_str(), y.as_str());
            },
        },
        MIRScalar::Float { bytes: fb } => match to {
            MIRScalar::Int { bytes: tb, signed } => {
                let x = if tb <= 4 { narrow(one.as_str()) } else { owned(one.as_str()) };
                put2(out, if signed { "fcvtzs" } else { "fcvtzu" }, x.as_str(), a.as_str());
            },
            MIRScalar::Float { bytes: tb } => {
                put2(out, if fb == tb { "fmov" } else { "fcvt" }, one.as_str(), a.as_str());
            },
        },
    }
    stored(out, b, def, w.0.as_str(), w.1);
}

/// How far below the frame pointer a slot begins, or a word down for a slot
/// the frame does not have.
pub open spec fn slot_off(b: &Body, slot: usize) -> usize {
    if slot < b.offsets@.len() { b.offsets@[slot as int] } else { b.m.word }
}

/// The address of a slot: the frame pointer less its offset.
pub open spec fn frame_s(pre: Seq<char>, b: &Body, def: MIRRegId, slot: usize) -> Seq<char> {
    let off = slot_off(b, slot);
    let w = writing_s(b, def, scratch_s(*b.m, 0, Class::Int));
    (if off < 4096 {
        pre + op3("sub"@, w.0, "x29"@, imm(off))
    } else {
        pre + immediate_s(w.0, signed_word(off)) + op3("sub"@, w.0, "x29"@, w.0)
    }) + stored_s(b, def, w.0, w.1)
}

fn frame_of(out: &mut String, b: &Body, def: MIRRegId, slot: usize)
    requires
        workable(b),
    ensures
        final(out)@ == frame_s(old(out)@, b, def, slot),
{
    let off = if slot < b.offsets.len() { b.offsets[slot] } else { b.m.word };
    let w = writing(b, def, scratch(b.m, 0, Class::Int));
    if off < 4096 {
        let n = imm_text(off);
        put3(out, "sub", w.0.as_str(), "x29", n.as_str());
    } else {
        immediate(out, w.0.as_str(), as_signed(off));
        put3(out, "sub", w.0.as_str(), "x29", w.0.as_str());
    }
    stored(out, b, def, w.0.as_str(), w.1);
}

/// The address of a symbol: its page, and then the rest of it within the
/// page. This machine cannot reach an arbitrary symbol in one instruction.
pub open spec fn symbol_at_s(pre: Seq<char>, b: &Body, def: MIRRegId, name: Seq<char>) -> Seq<char> {
    let w = writing_s(b, def, scratch_s(*b.m, 0, Class::Int));
    let held = symbol_chars(name);
    pre + op2("adrp"@, w.0, held) + op3("add"@, w.0, w.0, ":lo12:"@ + held) + stored_s(b, def, w.0, w.1)
}

fn symbol_at(out: &mut String, b: &Body, def: MIRRegId, name: &String)
    requires
        workable(b),
    ensures
        final(out)@ == symbol_at_s(old(out)@, b, def, name@),
{
    let w = writing(b, def, scratch(b.m, 0, Class::Int));
    let held = symbol(name.as_str());
    put2(out, "adrp", w.0.as_str(), held.as_str());
    let mut lo = owned(":lo12:");
    push_text(&mut lo, held.as_str());
    put3(out, "add", w.0.as_str(), w.0.as_str(), lo.as_str());
    stored(out, b, def, w.0.as_str(), w.1);
}

/// How far an offset moves, without its sign.
pub open spec fn magnitude(n: i64) -> u64 {
    if n < 0 { (-n) as u64 } else { n as u64 }
}

/// The same bits as a signed word.
pub open spec fn word_bits(n: u64) -> i64 {
    #[verifier::truncate] (n as i64)
}

fn magnitude_of(n: i64) -> (r: u64)
    ensures
        r == magnitude(n),
{
    if n < 0 {
        let wide: i128 = n as i128;
        (0i128 - wide) as u64
    } else {
        n as u64
    }
}

fn bits_of(n: u64) -> (r: i64)
    ensures
        r == word_bits(n),
{
    #[verifier::truncate] (n as i64)
}

fn hash_of(n: u64) -> (r: String)
    ensures
        r@ == hash(n as nat),
{
    hashed(n as u128)
}

/// An address moved along by a constant: in the instruction where twelve bits
/// reach, and through a scratch register built a piece at a time otherwise.
pub open spec fn offset_s(pre: Seq<char>, b: &Body, def: MIRRegId, base: MIRRegId, bytes: i64) -> Seq<char> {
    let r = read_s(b, base, scratch_s(*b.m, 1, Class::Int));
    let a = wide_name_s(r.1);
    let w = writing_s(b, def, scratch_s(*b.m, 0, Class::Int));
    let one = wide_name_s(w.0);
    let held = if bytes < 0 { "sub"@ } else { "add"@ };
    let by = magnitude(bytes);
    (if by < 4096 {
        pre + r.0 + op3(held, one, a, hash(by as nat))
    } else {
        let step = named_s(scratch_s(*b.m, 2, Class::Int), 8);
        pre + r.0 + immediate_s(step, word_bits(by)) + op3(held, one, a, step)
    }) + stored_s(b, def, one, w.1)
}

fn offset_of(out: &mut String, b: &Body, def: MIRRegId, base: MIRRegId, bytes: i64)
    requires
        workable(b),
    ensures
        final(out)@ == offset_s(old(out)@, b, def, base, bytes),
{
    let r = read(out, b, base, scratch(b.m, 1, Class::Int));
    let a = wide_name(r.as_str());
    let w = writing(b, def, scratch(b.m, 0, Class::Int));
    let one = wide_name(w.0.as_str());
    let held = if bytes < 0 { "sub" } else { "add" };
    let by = magnitude_of(bytes);
    if by < 4096 {
        let n = hash_of(by);
        put3(out, held, one.as_str(), a.as_str(), n.as_str());
    } else {
        let step = named(scratch(b.m, 2, Class::Int), 8);
        immediate(out, step.as_str(), bits_of(by));
        put3(out, held, one.as_str(), a.as_str(), step.as_str());
    }
    stored(out, b, def, one.as_str(), w.1);
}

/// Where the run of `w`s and `x`s at the front of `s`, from `i` on, ends.
pub open spec fn skip_wx(s: Seq<char>, i: int) -> int
    decreases s.len() - i,
{
    if i < 0 || i >= s.len() || (s[i] != 'w' && s[i] != 'x') {
        i
    } else {
        skip_wx(s, i + 1)
    }
}

proof fn skip_wx_in_range(s: Seq<char>, i: int)
    requires
        0 <= i <= s.len(),
    ensures
        i <= skip_wx(s, i) <= s.len(),
    decreases s.len() - i,
{
    if i < s.len() {
        skip_wx_in_range(s, i + 1);
    }
}

fn wx_end(s: &str, i: usize) -> (r: usize)
    requires
        i <= s@.len(),
    ensures
        r == skip_wx(s@, i as int),
    decreases s@.len() - i,
{
    if i >= s.unicode_len() {
        i
    } else {
        let c = s.get_char(i);
        if c != 'w' && c != 'x' {
            i
        } else {
            wx_end(s, i + 1)
        }
    }
}

/// An index widened to a whole register: an address is eight bytes and an
/// index often four, and this machine does not add a `w` to an `x` without
/// being told which extension to use.
pub open spec fn widen_s(b: &Body, reg: MIRRegId, held: Seq<char>) -> (Seq<char>, Seq<char>) {
    if reg_bytes(b, reg) >= 8 {
        (Seq::empty(), held)
    } else {
        let one = seq!['x'] + held.subrange(skip_wx(held, 0), held.len() as int);
        (op2("sxtw"@, one, held), one)
    }
}

fn widen(out: &mut String, b: &Body, reg: MIRRegId, held: &str) -> (r: String)
    requires
        workable(b),
    ensures
        final(out)@ == old(out)@ + widen_s(b, reg, held@).0,
        r@ == widen_s(b, reg, held@).1,
{
    if b.bytes(reg) >= 8 {
        return owned(held);
    }
    proof {
        skip_wx_in_range(held@, 0);
    }
    let k = wx_end(held, 0);
    let mut one = String::new();
    push_char(&mut one, 'x');
    push_text(&mut one, held.substring_char(k, held.unicode_len()));
    put2(out, "sxtw", one.as_str(), held);
    proof {
        assert(one@ =~= widen_s(b, reg, held@).1);
    }
    one
}

/// The power of two a stride is, where it is one.
pub open spec fn power_of(n: usize) -> Option<nat>
    decreases n,
{
    if n == 1 {
        Some(0)
    } else if n >= 2 && n % 2 == 0 {
        match power_of(n / 2) {
            Some(k) => Some(k + 1),
            None => None,
        }
    } else {
        None
    }
}

pub(crate) fn shift_of(n: usize) -> (r: Option<usize>)
    ensures
        match power_of(n) {
            Some(k) => r == Some(k as usize),
            None => r is None,
        },
    decreases n,
{
    if n == 1 {
        Some(0)
    } else if n >= 2 && n % 2 == 0 {
        match shift_of(n / 2) {
            Some(k) => {
                proof {
                    power_below(n / 2);
                }
                Some(k + 1)
            },
            None => None,
        }
    } else {
        None
    }
}

pub(crate) proof fn power_below(n: usize)
    ensures
        power_of(n) matches Some(k) ==> k < n,
    decreases n,
{
    if n >= 2 && n % 2 == 0 {
        power_below(n / 2);
    }
}

/// An address and an index times a stride: a shift where the stride is a
/// power of two, which the addressing forms understand, and a multiply and an
/// add where it is not.
pub open spec fn scaled_s(pre: Seq<char>, b: &Body, def: MIRRegId, base: MIRRegId, index: MIRRegId, scale: usize) -> Seq<char> {
    let r1 = read_s(b, base, scratch_s(*b.m, 0, Class::Int));
    let a = wide_name_s(r1.1);
    let r2 = read_s(b, index, scratch_s(*b.m, 1, Class::Int));
    let wd = widen_s(b, index, r2.1);
    let w = writing_s(b, def, scratch_s(*b.m, 2, Class::Int));
    let one = wide_name_s(w.0);
    let head = pre + r1.0 + r2.0 + wd.0;
    (match power_of(scale) {
        Some(k) => if k == 0 {
            head + op3("add"@, one, a, wd.1)
        } else {
            head + op4("add"@, one, a, wd.1, "lsl #"@ + decimal(k))
        },
        None => {
            let step = named_s(scratch_s(*b.m, 2, Class::Int), 8);
            head + immediate_s(step, signed_word(scale)) + op4("madd"@, one, wd.1, step, a)
        },
    }) + stored_s(b, def, one, w.1)
}

fn scaled_of(out: &mut String, b: &Body, def: MIRRegId, base: MIRRegId, index: MIRRegId, scale: usize)
    requires
        workable(b),
    ensures
        final(out)@ == scaled_s(old(out)@, b, def, base, index, scale),
{
    let r1 = read(out, b, base, scratch(b.m, 0, Class::Int));
    let a = wide_name(r1.as_str());
    let r2 = read(out, b, index, scratch(b.m, 1, Class::Int));
    let c = widen(out, b, index, r2.as_str());
    let w = writing(b, def, scratch(b.m, 2, Class::Int));
    let one = wide_name(w.0.as_str());
    proof {
        power_below(scale);
    }
    match shift_of(scale) {
        Some(by) => {
            if by == 0 {
                put3(out, "add", one.as_str(), a.as_str(), c.as_str());
            } else {
                let s = then_number("lsl #", by as u128);
                put4(out, "add", one.as_str(), a.as_str(), c.as_str(), s.as_str());
            }
        },
        None => {
            let step = named(scratch(b.m, 2, Class::Int), 8);
            immediate(out, step.as_str(), as_signed(scale));
            put4(out, "madd", one.as_str(), c.as_str(), step.as_str(), a.as_str());
        },
    }
    stored(out, b, def, one.as_str(), w.1);
}

/// A load through an address: the `w` view for an integer of four bytes or
/// fewer.
pub open spec fn load_s(pre: Seq<char>, b: &Body, def: MIRRegId, from: MIRRegId, bytes: usize) -> Seq<char> {
    let r = read_s(b, from, scratch_s(*b.m, 1, Class::Int));
    let a = wide_name_s(r.1);
    let w = writing_s(b, def, scratch_s(*b.m, 0, reg_class(b, def)));
    let name = if bytes <= 4 && reg_class(b, def) == Class::Int { narrow_s(w.0) } else { w.0 };
    pre + r.0 + op2(load_of_s(reg_class(b, def), bytes)@, name, "["@ + a + "]"@) + stored_s(b, def, w.0, w.1)
}

fn load_into(out: &mut String, b: &Body, def: MIRRegId, from: MIRRegId, bytes: usize)
    requires
        workable(b),
    ensures
        final(out)@ == load_s(old(out)@, b, def, from, bytes),
{
    let r = read(out, b, from, scratch(b.m, 1, Class::Int));
    let a = wide_name(r.as_str());
    let w = writing(b, def, scratch(b.m, 0, b.class(def)));
    let name = if bytes <= 4 && b.class(def) == Class::Int { narrow(w.0.as_str()) } else { owned(w.0.as_str()) };
    let at = around("[", a.as_str(), "]");
    put2(out, load_of(b.class(def), bytes), name.as_str(), at.as_str());
    stored(out, b, def, w.0.as_str(), w.1);
}

/// A store through an address.
pub open spec fn store_s(pre: Seq<char>, b: &Body, to: MIRRegId, value: MIRRegId, bytes: usize) -> Seq<char> {
    let r1 = read_s(b, to, scratch_s(*b.m, 1, Class::Int));
    let a = wide_name_s(r1.1);
    let r2 = read_s(b, value, scratch_s(*b.m, 0, reg_class(b, value)));
    let name = if bytes <= 4 && reg_class(b, value) == Class::Int { narrow_s(r2.1) } else { r2.1 };
    pre + r1.0 + r2.0 + op2(store_of_s(reg_class(b, value), bytes)@, name, "["@ + a + "]"@)
}

fn store_into(out: &mut String, b: &Body, to: MIRRegId, value: MIRRegId, bytes: usize)
    requires
        workable(b),
    ensures
        final(out)@ == store_s(old(out)@, b, to, value, bytes),
{
    let r1 = read(out, b, to, scratch(b.m, 1, Class::Int));
    let a = wide_name(r1.as_str());
    let r2 = read(out, b, value, scratch(b.m, 0, b.class(value)));
    let name = if bytes <= 4 && b.class(value) == Class::Int { narrow(r2.as_str()) } else { owned(r2.as_str()) };
    let at = around("[", a.as_str(), "]");
    put2(out, store_of(b.class(value), bytes), name.as_str(), at.as_str());
}

/// The width of the `si`th run of a block copy: words, then four, two and
/// one byte for the tail.
pub open spec fn step_size(si: nat) -> usize {
    if si == 0 { 8 } else if si == 1 { 4 } else if si == 2 { 2 } else { 1 }
}

/// The load and the store that move a run of a width.
pub open spec fn copy_ops(step: usize) -> (&'static str, &'static str) {
    if step == 2 { ("ldrh", "strh") } else if step == 1 { ("ldrb", "strb") } else { ("ldr", "str") }
}

/// An operand of a block copy: an address and how far past it.
pub open spec fn past(a: Seq<char>, n: usize) -> Seq<char> {
    "["@ + a + ", #"@ + dec(n) + "]"@
}

/// The rest of a block copy written after `pre`, from the `si`th width on,
/// `at` bytes in, the two addresses moved along by `base`. Past the window
/// the addresses step rather than the offsets growing.
pub open spec fn copy_from(pre: Seq<char>, a: Seq<char>, c: Seq<char>, held: Seq<char>, bytes: usize, si: nat, at: usize, base: usize) -> Seq<char>
    decreases 4 - si, bytes - at,
{
    if si >= 4 || at > bytes {
        pre
    } else {
        let step = step_size(si);
        if bytes - at >= step {
            let moved = at - base >= WINDOW;
            let pre2 = if moved {
                pre + op3("add"@, a, a, imm((at - base) as usize)) + op3("add"@, c, c, imm((at - base) as usize))
            } else {
                pre
            };
            let base2 = if moved { at } else { base };
            let name = if step >= 8 { held } else { narrow_s(held) };
            let ops = copy_ops(step);
            copy_from(
                pre2 + op2(ops.0@, name, past(a, (at - base2) as usize)) + op2(ops.1@, name, past(c, (at - base2) as usize)),
                a,
                c,
                held,
                bytes,
                si,
                (at + step) as usize,
                base2,
            )
        } else {
            copy_from(pre, a, c, held, bytes, si + 1, at, base)
        }
    }
}

fn past_text(a: &str, n: usize) -> (r: String)
    ensures
        r@ == past(a@, n),
{
    let mut out = around("[", a, ", #");
    let ghost front = out@;
    let m = dec_after("", n);
    push_text(&mut out, m.as_str());
    push_text(&mut out, "]");
    proof {
        reveal_strlit("");
        assert(m@ =~= dec(n));
        assert(out@ =~= past(a@, n));
    }
    out
}

fn copy_run(out: &mut String, a: &str, c: &str, held: &str, bytes: usize)
    ensures
        final(out)@ == copy_from(old(out)@, a@, c@, held@, bytes, 0, 0, 0),
{
    let ghost target = copy_from(old(out)@, a@, c@, held@, bytes, 0, 0, 0);
    let narrow_held = narrow(held);
    let mut si: usize = 0;
    let mut at: usize = 0;
    let mut base: usize = 0;
    while si < 4
        invariant
            si <= 4,
            base <= at <= bytes,
            narrow_held@ == narrow_s(held@),
            copy_from(out@, a@, c@, held@, bytes, si as nat, at, base) == target,
        decreases 4 - si,
    {
        let step: usize = if si == 0 { 8 } else if si == 1 { 4 } else if si == 2 { 2 } else { 1 };
        proof {
            assert(step == step_size(si as nat));
        }
        while bytes - at >= step
            invariant
                si < 4,
                step == step_size(si as nat),
                base <= at <= bytes,
                narrow_held@ == narrow_s(held@),
                copy_from(out@, a@, c@, held@, bytes, si as nat, at, base) == target,
            decreases bytes - at,
        {
            if at - base >= WINDOW {
                let n = imm_text(at - base);
                put3(out, "add", a, a, n.as_str());
                put3(out, "add", c, c, n.as_str());
                base = at;
            }
            let (one, keep) = if step == 2 { ("ldrh", "strh") } else if step == 1 { ("ldrb", "strb") } else { ("ldr", "str") };
            let name = if step >= 8 { owned(held) } else { owned(narrow_held.as_str()) };
            let x = past_text(a, at - base);
            let y = past_text(c, at - base);
            put2(out, one, name.as_str(), x.as_str());
            put2(out, keep, name.as_str(), y.as_str());
            at = at + step;
        }
        si = si + 1;
    }
}

/// A block copy, unrolled, a word at a time and then the tail: there is no
/// string instruction here, and a loop would want a fourth register to count
/// in. Past the window the addresses are first moved into the scratch
/// registers, where they can step.
pub open spec fn copy_s(pre: Seq<char>, b: &Body, to: MIRRegId, from: MIRRegId, bytes: usize) -> Seq<char> {
    let r1 = read_s(b, from, scratch_s(*b.m, 1, Class::Int));
    let a = wide_name_s(r1.1);
    let r2 = read_s(b, to, scratch_s(*b.m, 0, Class::Int));
    let c = wide_name_s(r2.1);
    let held = named_s(scratch_s(*b.m, 2, Class::Int), 8);
    let head = pre + r1.0 + r2.0;
    if bytes > WINDOW {
        let one = named_s(scratch_s(*b.m, 1, Class::Int), 8);
        let two = named_s(scratch_s(*b.m, 0, Class::Int), 8);
        let h1 = if a != one { head + op2("mov"@, one, a) } else { head };
        let h2 = if c != two { h1 + op2("mov"@, two, c) } else { h1 };
        copy_from(h2, one, two, held, bytes, 0, 0, 0)
    } else {
        copy_from(head, a, c, held, bytes, 0, 0, 0)
    }
}

fn copy_of(out: &mut String, b: &Body, to: MIRRegId, from: MIRRegId, bytes: usize)
    requires
        workable(b),
    ensures
        final(out)@ == copy_s(old(out)@, b, to, from, bytes),
{
    let r1 = read(out, b, from, scratch(b.m, 1, Class::Int));
    let a = wide_name(r1.as_str());
    let r2 = read(out, b, to, scratch(b.m, 0, Class::Int));
    let c = wide_name(r2.as_str());
    let held = named(scratch(b.m, 2, Class::Int), 8);
    if bytes > WINDOW {
        let one = named(scratch(b.m, 1, Class::Int), 8);
        let two = named(scratch(b.m, 0, Class::Int), 8);
        if !same_text(a.as_str(), one.as_str()) {
            put2(out, "mov", one.as_str(), a.as_str());
        }
        if !same_text(c.as_str(), two.as_str()) {
            put2(out, "mov", two.as_str(), c.as_str());
        }
        copy_run(out, one.as_str(), two.as_str(), held.as_str(), bytes);
    } else {
        copy_run(out, a.as_str(), c.as_str(), held.as_str(), bytes);
    }
}


/// The file of each argument of a call.
pub open spec fn arg_classes(b: &Body, args: Seq<MIRRegId>) -> Seq<Class> {
    args.map_values(|reg: MIRRegId| reg_class(b, reg))
}

/// The moves of the first `k` arguments that live in registers into the
/// registers they are passed in.
pub open spec fn call_moves(b: &Body, args: Seq<MIRRegId>, k: int) -> Seq<(Reg, Reg)>
    decreases k,
{
    if k <= 0 {
        Seq::empty()
    } else {
        let prev = call_moves(b, args, k - 1);
        match passed_in(*b.m, arg_classes(b, args), k - 1) {
            Some(into) => match reg_site(b, args[k - 1]) {
                Site::In(from) => prev.push((into, from)),
                _ => prev,
            },
            None => prev,
        }
    }
}

/// After `pre`, the loads of the first `k` arguments that live in the frame
/// into the registers they are passed in.
pub open spec fn call_loads(pre: Seq<char>, b: &Body, args: Seq<MIRRegId>, k: int) -> Seq<char>
    decreases k,
{
    if k <= 0 {
        pre
    } else {
        let prev = call_loads(pre, b, args, k - 1);
        let arg = args[k - 1];
        match passed_in(*b.m, arg_classes(b, args), k - 1) {
            Some(into) => match reg_site(b, arg) {
                Site::At(off) => {
                    let bytes = reg_bytes(b, arg);
                    let at = frame_op_s(off, scratch_s(*b.m, 2, Class::Int));
                    let name = if bytes <= 4 && reg_class(b, arg) == Class::Int { named_s(into, 4) } else { named_s(into, bytes) };
                    prev + at.0 + op2(load_of_s(reg_class(b, arg), bytes)@, name, at.1)
                },
                _ => prev,
            },
            None => prev,
        }
    }
}

/// Whether some argument of a call has no register to go in.
pub open spec fn overflows(b: &Body, args: Seq<MIRRegId>) -> bool {
    exists|i: int| 0 <= i < args.len() && (#[trigger] passed_in(*b.m, arg_classes(b, args), i)) is None
}

/// What is said of a call with an argument that has no register to go in.
pub open spec fn too_many(b: &Body, n: usize) -> Seq<char> {
    b.held.symbol@ + ": a call with "@ + dec(n) + " arguments is not emitted -- nothing here puts one on the stack"@
}

/// A call: the arguments into their registers, the jump, and the answer out
/// of the register it comes back in. Nothing here puts an argument on the
/// stack, so a call with more than there are registers for is not written,
/// and is said.
pub open spec fn call_s(pre: Seq<char>, b: &Body, def: Option<MIRRegId>, to: MIRCallee, args: Seq<MIRRegId>) -> (
    Seq<char>,
    Option<Seq<char>>,
) {
    if overflows(b, args) {
        (pre, Some(too_many(b, args.len() as usize)))
    } else {
        let loaded = call_loads(pre + shuffle_s(*b.m, call_moves(b, args, args.len() as int)), b, args, args.len() as int);
        let called = match to {
            MIRCallee::Symbol(name) => loaded + op1("bl"@, symbol_chars(name@)),
            MIRCallee::Reg(reg) => {
                let r = read_s(b, reg, scratch_s(*b.m, 0, Class::Int));
                loaded + r.0 + op1("blr"@, r.1)
            },
        };
        let answered = match def {
            None => called,
            Some(d) => {
                let class = reg_class(b, d);
                let from = match class {
                    Class::Int => b.m.ret,
                    Class::Float => b.m.fret,
                };
                let held = named_s(from, reg_bytes(b, d));
                let w = writing_s(b, d, scratch_s(*b.m, 0, class));
                (if w.0 != held { called + op2(mov_of_s(class)@, w.0, held) } else { called }) + stored_s(b, d, w.0, w.1)
            },
        };
        (answered, None)
    }
}

pub(crate) fn too_many_text(b: &Body, n: usize) -> (r: String)
    ensures
        r@ == too_many(b, n),
{
    let mut out = owned(b.held.symbol.as_str());
    push_text(&mut out, ": a call with ");
    let m = dec_after("", n);
    push_text(&mut out, m.as_str());
    push_text(&mut out, " arguments is not emitted -- nothing here puts one on the stack");
    proof {
        reveal_strlit("");
        assert(m@ =~= dec(n));
        assert(out@ =~= too_many(b, n));
    }
    out
}

fn call(out: &mut String, b: &Body, def: Option<MIRRegId>, to: &MIRCallee, args: &Vec<MIRRegId>) -> (r: Option<String>)
    requires
        workable(b),
    ensures
        final(out)@ == call_s(old(out)@, b, def, *to, args@).0,
        match r {
            Some(x) => call_s(old(out)@, b, def, *to, args@).1 == Some(x@),
            None => call_s(old(out)@, b, def, *to, args@).1 is None,
        },
{
    let ghost start = old(out)@;
    let mut classes: Vec<Class> = Vec::new();
    let mut i: usize = 0;
    while i < args.len()
        invariant
            i <= args@.len(),
            classes@ == arg_classes(b, args@).subrange(0, i as int),
        decreases args@.len() - i,
    {
        classes.push(b.class(args[i]));
        proof {
            assert(classes@ =~= arg_classes(b, args@).subrange(0, i + 1));
        }
        i = i + 1;
    }
    proof {
        assert(classes@ =~= arg_classes(b, args@));
    }
    let want = passing(b.m, classes.as_slice());
    let mut missing = false;
    let mut j: usize = 0;
    while j < want.len()
        invariant
            j <= want@.len(),
            want@.len() == args@.len(),
            forall|k: int| 0 <= k < want@.len() ==> want@[k] == passed_in(*b.m, arg_classes(b, args@), k),
            missing == exists|k: int| 0 <= k < j && (#[trigger] passed_in(*b.m, arg_classes(b, args@), k)) is None,
        decreases want@.len() - j,
    {
        if want[j].is_none() {
            missing = true;
        }
        proof {
            if missing {
                if want@[j as int] is None {
                    assert(passed_in(*b.m, arg_classes(b, args@), j as int) is None);
                }
            }
        }
        j = j + 1;
    }
    if missing {
        return Some(too_many_text(b, args.len()));
    }
    let mut moves: Vec<(Reg, Reg)> = Vec::new();
    let mut at: usize = 0;
    while at < args.len()
        invariant
            at <= args@.len(),
            want@.len() == args@.len(),
            forall|k: int| 0 <= k < want@.len() ==> want@[k] == passed_in(*b.m, arg_classes(b, args@), k),
            moves@ == call_moves(b, args@, at as int),
        decreases args@.len() - at,
    {
        match want[at] {
            Some(into) => match b.site(args[at]) {
                Site::In(from) => moves.push((into, from)),
                _ => {},
            },
            None => {},
        }
        at = at + 1;
    }
    shuffle(out, b, moves.as_slice());
    let ghost shuffled = out@;
    let mut at: usize = 0;
    while at < args.len()
        invariant
            workable(b),
            at <= args@.len(),
            want@.len() == args@.len(),
            forall|k: int| 0 <= k < want@.len() ==> want@[k] == passed_in(*b.m, arg_classes(b, args@), k),
            out@ == call_loads(shuffled, b, args@, at as int),
        decreases args@.len() - at,
    {
        let arg = args[at];
        match want[at] {
            Some(into) => match b.site(arg) {
                Site::At(off) => {
                    let bytes = b.bytes(arg);
                    let one = frame_op(out, off, scratch(b.m, 2, Class::Int));
                    let name = if bytes <= 4 && b.class(arg) == Class::Int { named(into, 4) } else { named(into, bytes) };
                    put2(out, load_of(b.class(arg), bytes), name.as_str(), one.as_str());
                },
                _ => {},
            },
            None => {},
        }
        at = at + 1;
    }
    match to {
        MIRCallee::Symbol(name) => {
            let s = symbol(name.as_str());
            put1(out, "bl", s.as_str());
        },
        MIRCallee::Reg(reg) => {
            let held = read(out, b, *reg, scratch(b.m, 0, Class::Int));
            put1(out, "blr", held.as_str());
        },
    }
    match def {
        None => {},
        Some(d) => {
            let class = b.class(d);
            let from = b.m.answering(class);
            let held = named(from, b.bytes(d));
            let w = writing(b, d, scratch(b.m, 0, class));
            if !same_text(w.0.as_str(), held.as_str()) {
                put2(out, mov_of(class), w.0.as_str(), held.as_str());
            }
            stored(out, b, d, w.0.as_str(), w.1);
        },
    }
    None
}

/// One instruction, written after `pre`, and what is said of it where it
/// cannot be written. An instruction with no answer that needs one writes
/// nothing, and so do the vector instructions, which are refused by name.
pub open spec fn inst_s(pre: Seq<char>, b: &Body, inst: MIRInst) -> (Seq<char>, Option<Seq<char>>) {
    match inst.kind {
        MIRInstKind::Const(held) => match inst.def {
            Some(def) => (const_s(pre, b, def, held), None),
            None => (pre, None),
        },
        MIRInstKind::Move(of) => match inst.def {
            Some(def) => (move_s(pre, b, def, of), None),
            None => (pre, None),
        },
        MIRInstKind::Un { op, operand } => match inst.def {
            Some(def) => (un_s(pre, b, def, op, operand), None),
            None => (pre, None),
        },
        MIRInstKind::Bin { op, lhs, rhs } => match inst.def {
            Some(def) => (bin_s(pre, b, def, op, lhs, rhs), None),
            None => (pre, None),
        },
        MIRInstKind::Cmp { op, lhs, rhs } => match inst.def {
            Some(def) => (compare_s(pre, b, def, op, lhs, rhs), None),
            None => (pre, None),
        },
        MIRInstKind::Convert { of, from, to } => match inst.def {
            Some(def) => (convert_s(pre, b, def, of, from, to), None),
            None => (pre, None),
        },
        MIRInstKind::Frame(slot) => match inst.def {
            Some(def) => (frame_s(pre, b, def, slot), None),
            None => (pre, None),
        },
        MIRInstKind::Symbol(name) => match inst.def {
            Some(def) => (symbol_at_s(pre, b, def, name@), None),
            None => (pre, None),
        },
        MIRInstKind::Offset { base, bytes } => match inst.def {
            Some(def) => (offset_s(pre, b, def, base, bytes), None),
            None => (pre, None),
        },
        MIRInstKind::Scaled { base, index, scale } => match inst.def {
            Some(def) => (scaled_s(pre, b, def, base, index, scale), None),
            None => (pre, None),
        },
        MIRInstKind::Load { from, bytes } => match inst.def {
            Some(def) => (load_s(pre, b, def, from, bytes), None),
            None => (pre, None),
        },
        MIRInstKind::Store { to, value, bytes } => (store_s(pre, b, to, value, bytes), None),
        MIRInstKind::Copy { to, from, bytes } => (copy_s(pre, b, to, from, bytes), None),
        MIRInstKind::Call { to, args } => call_s(pre, b, inst.def, to, args@),
        _ => (pre, None),
    }
}

fn inst_of(out: &mut String, b: &Body, inst: &MIRInst) -> (r: Option<String>)
    requires
        workable(b),
    ensures
        final(out)@ == inst_s(old(out)@, b, *inst).0,
        match r {
            Some(x) => inst_s(old(out)@, b, *inst).1 == Some(x@),
            None => inst_s(old(out)@, b, *inst).1 is None,
        },
{
    match &inst.kind {
        MIRInstKind::Const(held) => match inst.def {
            Some(def) => const_of(out, b, def, *held),
            None => {},
        },
        MIRInstKind::Move(of) => match inst.def {
            Some(def) => move_of(out, b, def, *of),
            None => {},
        },
        MIRInstKind::Un { op, operand } => match inst.def {
            Some(def) => un_of(out, b, def, *op, *operand),
            None => {},
        },
        MIRInstKind::Bin { op, lhs, rhs } => match inst.def {
            Some(def) => bin_of(out, b, def, *op, *lhs, *rhs),
            None => {},
        },
        MIRInstKind::Cmp { op, lhs, rhs } => match inst.def {
            Some(def) => compare(out, b, def, *op, *lhs, *rhs),
            None => {},
        },
        MIRInstKind::Convert { of, from, to } => match inst.def {
            Some(def) => convert(out, b, def, *of, *from, *to),
            None => {},
        },
        MIRInstKind::Frame(slot) => match inst.def {
            Some(def) => frame_of(out, b, def, *slot),
            None => {},
        },
        MIRInstKind::Symbol(name) => match inst.def {
            Some(def) => symbol_at(out, b, def, name),
            None => {},
        },
        MIRInstKind::Offset { base, bytes } => match inst.def {
            Some(def) => offset_of(out, b, def, *base, *bytes),
            None => {},
        },
        MIRInstKind::Scaled { base, index, scale } => match inst.def {
            Some(def) => scaled_of(out, b, def, *base, *index, *scale),
            None => {},
        },
        MIRInstKind::Load { from, bytes } => match inst.def {
            Some(def) => load_into(out, b, def, *from, *bytes),
            None => {},
        },
        MIRInstKind::Store { to, value, bytes } => store_into(out, b, *to, *value, *bytes),
        MIRInstKind::Copy { to, from, bytes } => copy_of(out, b, *to, *from, *bytes),
        MIRInstKind::Call { to, args } => return call(out, b, inst.def, to, args),
        _ => {},
    }
    None
}

/// After `pre`, the first `k` lines of the body, and what was said of them.
pub open spec fn lines_s(pre: Seq<char>, b: &Body, k: int) -> (Seq<char>, Seq<Seq<char>>)
    decreases k,
{
    if k <= 0 {
        (pre, Seq::empty())
    } else {
        let p = lines_s(pre, b, k - 1);
        match b.held.lines@[k - 1] {
            Line::Label(at) => (p.0 + label_line(label_text(b.index, at)), p.1),
            Line::Inst(inst) => {
                let r = inst_s(p.0, b, inst);
                (
                    r.0,
                    match r.1 {
                        Some(x) => p.1.push(x),
                        None => p.1,
                    },
                )
            },
            Line::Term(held) => (p.0 + term_s(b, held), p.1),
        }
    }
}

/// What comes before the first line of a body: the section, its symbol made
/// visible to the linker and typed a function, its label, and the prologue.
pub open spec fn head_s(b: &Body) -> Seq<char> {
    let name = symbol_chars(b.held.symbol@);
    op0(".text"@) + op1(".globl"@, name) + op2(".type"@, name, "@function"@) + label_line(name) + prologue_s(b)
}

/// One body as aarch64 assembly, and everything said about what could not be
/// written: the vector instructions it holds, each named once, then each call
/// with too many arguments, in order.
pub open spec fn body_s(b: &Body) -> (Seq<char>, Seq<Seq<char>>) {
    let name = symbol_chars(b.held.symbol@);
    let l = lines_s(head_s(b), b, b.held.lines@.len() as int);
    (l.0 + op2(".size"@, name, ".-"@ + name), refusals(*b.held, b.held.lines@.len() as int) + l.1)
}

/// One body as aarch64 assembly, and everything said about what could not be
/// written. A body with a complaint against it is still written, minus the
/// instruction that could not be.
pub fn body(b: &Body) -> (r: (String, Vec<String>))
    requires
        workable(b),
    ensures
        r.0@ == body_s(b).0,
        r.1@.map_values(|x: String| x@) == body_s(b).1,
{
    let mut said = refuses(b.held);
    let ghost first = said@.map_values(|x: String| x@);
    let mut out = String::new();
    let name = symbol(b.held.symbol.as_str());
    put0(&mut out, ".text");
    put1(&mut out, ".globl", name.as_str());
    put2(&mut out, ".type", name.as_str(), "@function");
    put_label(&mut out, name.as_str());
    prologue(&mut out, b);
    proof {
        assert(out@ =~= head_s(b));
    }
    let ghost head = out@;
    let mut k: usize = 0;
    while k < b.held.lines.len()
        invariant
            workable(b),
            k <= b.held.lines@.len(),
            first == refusals(*b.held, b.held.lines@.len() as int),
            out@ == lines_s(head, b, k as int).0,
            said@.map_values(|x: String| x@) == first + lines_s(head, b, k as int).1,
        decreases b.held.lines@.len() - k,
    {
        let ghost before = said@.map_values(|x: String| x@);
        match &b.held.lines[k] {
            Line::Label(at) => {
                let l = label(b, *at);
                put_label(&mut out, l.as_str());
            },
            Line::Inst(inst) => {
                match inst_of(&mut out, b, inst) {
                    Some(complaint) => {
                        said.push(complaint);
                        proof {
                            assert(said@.map_values(|x: String| x@) =~= before.push(said@[said@.len() - 1]@));
                        }
                    },
                    None => {},
                }
            },
            Line::Term(held) => term(&mut out, b, held),
        }
        proof {
            assert(said@.map_values(|x: String| x@) =~= first + lines_s(head, b, k + 1).1);
        }
        k = k + 1;
    }
    let mut size = owned(".-");
    push_text(&mut size, name.as_str());
    put2(&mut out, ".size", name.as_str(), size.as_str());
    (out, said)
}


// ---- The pool --------------------------------------------------------------

/// The constant pool, in `.rodata`, every entry aligned to eight bytes: aarch64 counts an alignment as a power of two.
pub fn pool(held: &[MIRConstant]) -> (r: String)
    ensures
        r@ == pool_text(held@, "\t.align\t3\n"@),
{
    pool_with(held, "\t.align\t3\n")
}

} // verus!
