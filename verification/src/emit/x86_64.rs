//! x86-64, in the AT&T syntax GNU `as` takes: the destination comes last, a
//! letter on the mnemonic says how wide the operation is, and almost every
//! instruction takes one operand from memory, so a spilled value mostly needs
//! no instruction of its own.
//!
//! Two instructions name registers of their own: a division reads and writes
//! `%rdx:%rax`, and a shift counts in `%cl`. Neither is a register the
//! allocator keeps clear, so whatever is in them is pushed first and put back
//! after.

use vstd::prelude::*;
use crate::emit::aarch64::{
    arg_classes, call_moves, dec, overflows, param_classes, saved_off, saved_off_fits, scratch, scratch_s, too_many,
    too_many_text, workable,
};
use crate::emit::body::{label, label_text, refusals, refuses, reg_bytes, reg_class, reg_site, Body};
use crate::emit::line::{label_line, op0, op1, op2, op3, put0, put1, put2, put3, put_label, then_number};
use crate::emit::{order_of, ordered, passed_in, passing, pool_text, pool_with, symbol, symbol_chars, Site, Step};
use crate::linear::Line;
use crate::machine::{same_text, Class, Reg};
use crate::mir_nodes::{
    MIRBinOp, MIRCallee, MIRCmpOp, MIRConst, MIRConstant, MIRInst, MIRInstKind, MIRRegId, MIRScalar, MIRTerm, MIRUnOp, compares_integers, comparison_holds, compares_signed, extended, signed_of, signed_of_one_to_one,
    widening_keeps_comparisons,
};
use crate::spell::{decimal, owned, push_char, push_decimal, push_signed, push_text, push_wide, signed_decimal};

verus! {

// ---- Naming ----------------------------------------------------------------

/// The letter on a mnemonic for a width.
pub open spec fn suffix_s(bytes: usize) -> char {
    if bytes == 1 {
        'b'
    } else if bytes == 2 {
        'w'
    } else if bytes == 4 {
        'l'
    } else {
        'q'
    }
}

fn suffix(bytes: usize) -> (r: char)
    ensures
        r == suffix_s(bytes),
{
    if bytes == 1 {
        'b'
    } else if bytes == 2 {
        'w'
    } else if bytes == 4 {
        'l'
    } else {
        'q'
    }
}

/// One of four names by width: eight bytes, four, two, one.
pub open spec fn pick(bytes: usize, q: &'static str, l: &'static str, w: &'static str, b: &'static str) -> &'static str {
    if bytes == 1 {
        b
    } else if bytes == 2 {
        w
    } else if bytes == 4 {
        l
    } else {
        q
    }
}

fn pick_of(bytes: usize, q: &'static str, l: &'static str, w: &'static str, b: &'static str) -> (r: &'static str)
    ensures
        r == pick(bytes, q, l, w, b),
{
    if bytes == 1 {
        b
    } else if bytes == 2 {
        w
    } else if bytes == 4 {
        l
    } else {
        q
    }
}

/// The eight registers the machine started with have a name of their own at
/// each width.
pub open spec fn legacy(name: Seq<char>, bytes: usize) -> Option<&'static str> {
    if name == "rax"@ {
        Some(pick(bytes, "rax", "eax", "ax", "al"))
    } else if name == "rbx"@ {
        Some(pick(bytes, "rbx", "ebx", "bx", "bl"))
    } else if name == "rcx"@ {
        Some(pick(bytes, "rcx", "ecx", "cx", "cl"))
    } else if name == "rdx"@ {
        Some(pick(bytes, "rdx", "edx", "dx", "dl"))
    } else if name == "rsi"@ {
        Some(pick(bytes, "rsi", "esi", "si", "sil"))
    } else if name == "rdi"@ {
        Some(pick(bytes, "rdi", "edi", "di", "dil"))
    } else if name == "rbp"@ {
        Some(pick(bytes, "rbp", "ebp", "bp", "bpl"))
    } else if name == "rsp"@ {
        Some(pick(bytes, "rsp", "esp", "sp", "spl"))
    } else {
        None
    }
}

fn legacy_of(name: &str, bytes: usize) -> (r: Option<&'static str>)
    ensures
        r == legacy(name@, bytes),
{
    if same_text(name, "rax") {
        Some(pick_of(bytes, "rax", "eax", "ax", "al"))
    } else if same_text(name, "rbx") {
        Some(pick_of(bytes, "rbx", "ebx", "bx", "bl"))
    } else if same_text(name, "rcx") {
        Some(pick_of(bytes, "rcx", "ecx", "cx", "cl"))
    } else if same_text(name, "rdx") {
        Some(pick_of(bytes, "rdx", "edx", "dx", "dl"))
    } else if same_text(name, "rsi") {
        Some(pick_of(bytes, "rsi", "esi", "si", "sil"))
    } else if same_text(name, "rdi") {
        Some(pick_of(bytes, "rdi", "edi", "di", "dil"))
    } else if same_text(name, "rbp") {
        Some(pick_of(bytes, "rbp", "ebp", "bp", "bpl"))
    } else if same_text(name, "rsp") {
        Some(pick_of(bytes, "rsp", "esp", "sp", "spl"))
    } else {
        None
    }
}

/// The letter the eight that came with the sixty-four-bit mode take for a
/// width under eight bytes.
pub open spec fn low_s(bytes: usize) -> Seq<char> {
    if bytes == 1 {
        seq!['b']
    } else if bytes == 2 {
        seq!['w']
    } else if bytes == 4 {
        seq!['d']
    } else {
        Seq::empty()
    }
}

/// A register at a width, with its `%`: a float by its own name, one of the
/// first eight by its name at that width, and any other by its name and a
/// letter for the width.
#[verifier::opaque]
pub open spec fn named_s(reg: Reg, bytes: usize) -> Seq<char> {
    if reg.class == Class::Float {
        seq!['%'] + reg.name@
    } else {
        match legacy(reg.name@, bytes) {
            Some(t) => seq!['%'] + t@,
            None => seq!['%'] + reg.name@ + low_s(bytes),
        }
    }
}

fn named(reg: Reg, bytes: usize) -> (r: String)
    ensures
        r@ == named_s(reg, bytes),
{
    reveal(named_s);
    let mut out = String::new();
    push_char(&mut out, '%');
    if reg.class == Class::Float {
        push_text(&mut out, reg.name);
    } else {
        match legacy_of(reg.name, bytes) {
            Some(t) => push_text(&mut out, t),
            None => {
                push_text(&mut out, reg.name);
                if bytes == 1 {
                    push_char(&mut out, 'b');
                } else if bytes == 2 {
                    push_char(&mut out, 'w');
                } else if bytes == 4 {
                    push_char(&mut out, 'd');
                }
            },
        }
    }
    proof {
        assert(out@ =~= named_s(reg, bytes));
    }
    out
}

/// An integer register of the machine's own, by name.
pub open spec fn fixed(name: &'static str) -> Reg {
    Reg { name, class: Class::Int }
}

/// A slot, as an operand: that far below the frame pointer.
pub open spec fn frame_at_s(off: usize) -> Seq<char> {
    seq!['-'] + dec(off) + "(%rbp)"@
}

fn frame_at(off: usize) -> (r: String)
    ensures
        r@ == frame_at_s(off),
{
    let mut out = then_number("-", off as u128);
    push_text(&mut out, "(%rbp)");
    proof {
        reveal_strlit("-");
        assert(out@ =~= frame_at_s(off));
    }
    out
}

/// A mnemonic with the letter for a width on the end.
pub open spec fn sized(base: Seq<char>, bytes: usize) -> Seq<char> {
    base.push(suffix_s(bytes))
}

fn sized_text(base: &str, bytes: usize) -> (r: String)
    ensures
        r@ == sized(base@, bytes),
{
    let mut out = owned(base);
    push_char(&mut out, suffix(bytes));
    out
}

/// The move that carries a value of a file and a width.
pub open spec fn move_of_s(class: Class, bytes: usize) -> Seq<char> {
    match class {
        Class::Float => if bytes <= 4 { "movss"@ } else { "movsd"@ },
        Class::Int => sized("mov"@, bytes),
    }
}

fn move_of(class: Class, bytes: usize) -> (r: String)
    ensures
        r@ == move_of_s(class, bytes),
{
    match class {
        Class::Float => if bytes <= 4 { owned("movss") } else { owned("movsd") },
        Class::Int => sized_text("mov", bytes),
    }
}

/// The move for a register of the body, at its own width.
pub open spec fn mov_s(b: &Body, reg: MIRRegId) -> Seq<char> {
    move_of_s(reg_class(b, reg), reg_bytes(b, reg))
}

fn mov(b: &Body, reg: MIRRegId) -> (r: String)
    requires
        workable(b),
    ensures
        r@ == mov_s(b, reg),
{
    move_of(b.class(reg), b.bytes(reg))
}

// ---- Reading and writing ---------------------------------------------------

/// Where a value is, as an operand: its register, its slot, or for one that
/// lives nowhere the first scratch register of its file.
pub open spec fn place_s(b: &Body, reg: MIRRegId) -> Seq<char> {
    match reg_site(b, reg) {
        Site::In(held) => named_s(held, reg_bytes(b, reg)),
        Site::At(off) => frame_at_s(off),
        Site::Nowhere => named_s(scratch_s(*b.m, 0, reg_class(b, reg)), reg_bytes(b, reg)),
    }
}

fn place(b: &Body, reg: MIRRegId) -> (r: String)
    requires
        workable(b),
    ensures
        r@ == place_s(b, reg),
{
    match b.site(reg) {
        Site::In(held) => named(held, b.bytes(reg)),
        Site::At(off) => frame_at(off),
        Site::Nowhere => named(scratch(b.m, 0, b.class(reg)), b.bytes(reg)),
    }
}

/// A value in a register at `bytes`, whatever it took to get it there: the
/// lines written, and the register.
pub open spec fn read_at_s(b: &Body, reg: MIRRegId, sc: Reg, bytes: usize) -> (Seq<char>, Seq<char>) {
    match reg_site(b, reg) {
        Site::In(held) => (Seq::empty(), named_s(held, bytes)),
        _ => (op2(move_of_s(reg_class(b, reg), bytes), place_s(b, reg), named_s(sc, bytes)), named_s(sc, bytes)),
    }
}

fn read_at(out: &mut String, b: &Body, reg: MIRRegId, sc: Reg, bytes: usize) -> (r: String)
    requires
        workable(b),
    ensures
        final(out)@ == old(out)@ + read_at_s(b, reg, sc, bytes).0,
        r@ == read_at_s(b, reg, sc, bytes).1,
{
    match b.site(reg) {
        Site::In(held) => {
            proof {
                assert(out@ =~= out@ + Seq::<char>::empty());
            }
            named(held, bytes)
        },
        _ => {
            let what = move_of(b.class(reg), bytes);
            let held = named(sc, bytes);
            let from = place(b, reg);
            put2(out, what.as_str(), from.as_str(), held.as_str());
            held
        },
    }
}

/// The same at the value's own width.
pub open spec fn into_s(b: &Body, reg: MIRRegId, sc: Reg) -> (Seq<char>, Seq<char>) {
    read_at_s(b, reg, sc, reg_bytes(b, reg))
}

fn into(out: &mut String, b: &Body, reg: MIRRegId, sc: Reg) -> (r: String)
    requires
        workable(b),
    ensures
        final(out)@ == old(out)@ + into_s(b, reg, sc).0,
        r@ == into_s(b, reg, sc).1,
{
    let bytes = b.bytes(reg);
    read_at(out, b, reg, sc, bytes)
}

/// Where to compute an answer -- its own register, or the scratch one -- and
/// the offset to store it at afterwards where it lives in the frame.
pub open spec fn writing_s(b: &Body, def: MIRRegId, sc: Reg) -> (Seq<char>, Option<usize>) {
    match reg_site(b, def) {
        Site::In(held) => (named_s(held, reg_bytes(b, def)), None),
        Site::At(off) => (named_s(sc, reg_bytes(b, def)), Some(off)),
        Site::Nowhere => (named_s(sc, reg_bytes(b, def)), None),
    }
}

fn writing(b: &Body, def: MIRRegId, sc: Reg) -> (r: (String, Option<usize>))
    requires
        workable(b),
    ensures
        r.0@ == writing_s(b, def, sc).0,
        r.1 == writing_s(b, def, sc).1,
{
    match b.site(def) {
        Site::In(held) => (named(held, b.bytes(def)), None),
        Site::At(off) => (named(sc, b.bytes(def)), Some(off)),
        Site::Nowhere => (named(sc, b.bytes(def)), None),
    }
}

/// The store of an answer computed in a scratch register, where its home is
/// the frame.
pub open spec fn stored_s(b: &Body, def: MIRRegId, held: Seq<char>, back: Option<usize>) -> Seq<char> {
    match back {
        Some(off) => op2(mov_s(b, def), held, frame_at_s(off)),
        None => Seq::empty(),
    }
}

fn stored(out: &mut String, b: &Body, def: MIRRegId, held: &str, back: Option<usize>)
    requires
        workable(b),
    ensures
        final(out)@ == old(out)@ + stored_s(b, def, held@, back),
{
    match back {
        Some(off) => {
            let what = mov(b, def);
            let at = frame_at(off);
            put2(out, what.as_str(), held, at.as_str());
        },
        None => {
            proof {
                assert(out@ =~= out@ + Seq::<char>::empty());
            }
        },
    }
}

/// Which register a destination is in, or the scratch it is computed in.
pub open spec fn reg_of_s(b: &Body, def: MIRRegId, sc: Reg) -> Reg {
    match reg_site(b, def) {
        Site::In(held) => held,
        _ => sc,
    }
}

fn reg_of(b: &Body, def: MIRRegId, sc: Reg) -> (r: Reg)
    ensures
        r == reg_of_s(b, def, sc),
{
    match b.site(def) {
        Site::In(held) => held,
        _ => sc,
    }
}

/// A value read at `wide` bytes, extended from its own width where it is
/// narrower, with a sign or with noughts.
pub open spec fn widened_s(b: &Body, reg: MIRRegId, sc: Reg, wide: usize, signed: bool) -> (Seq<char>, Seq<char>) {
    let bytes = reg_bytes(b, reg);
    if bytes >= wide {
        read_at_s(b, reg, sc, wide)
    } else {
        let what = (if signed { "movs"@ } else { "movz"@ }).push(suffix_s(bytes)).push(suffix_s(wide));
        (op2(what, place_s(b, reg), named_s(sc, wide)), named_s(sc, wide))
    }
}

fn widened(out: &mut String, b: &Body, reg: MIRRegId, sc: Reg, wide: usize, signed: bool) -> (r: String)
    requires
        workable(b),
    ensures
        final(out)@ == old(out)@ + widened_s(b, reg, sc, wide, signed).0,
        r@ == widened_s(b, reg, sc, wide, signed).1,
{
    let bytes = b.bytes(reg);
    if bytes >= wide {
        return read_at(out, b, reg, sc, wide);
    }
    let held = named(sc, wide);
    let mut what = if signed { owned("movs") } else { owned("movz") };
    push_char(&mut what, suffix(bytes));
    push_char(&mut what, suffix(wide));
    let from = place(b, reg);
    put2(out, what.as_str(), from.as_str(), held.as_str());
    held
}

/// The first scratch register of a file.
pub open spec fn sc0(b: &Body, class: Class) -> Reg {
    scratch_s(*b.m, 0, class)
}

/// The second scratch register of a file, or the first where there is one.
pub open spec fn sc1(b: &Body, class: Class) -> Reg {
    scratch_s(*b.m, 1, class)
}

// ---- Comparisons -----------------------------------------------------------

/// The letters after `set`: above and below for the unsigned pair and for a
/// float, greater and less for the signed one.
pub open spec fn condition_s(op: MIRCmpOp) -> &'static str {
    match op {
        MIRCmpOp::Eq | MIRCmpOp::FEq => "sete",
        MIRCmpOp::Ne | MIRCmpOp::FNe => "setne",
        MIRCmpOp::SLt => "setl",
        MIRCmpOp::SLe => "setle",
        MIRCmpOp::SGt => "setg",
        MIRCmpOp::SGe => "setge",
        MIRCmpOp::ULt | MIRCmpOp::FLt => "setb",
        MIRCmpOp::ULe | MIRCmpOp::FLe => "setbe",
        MIRCmpOp::UGt | MIRCmpOp::FGt => "seta",
        MIRCmpOp::UGe | MIRCmpOp::FGe => "setae",
    }
}

fn condition(op: MIRCmpOp) -> (r: &'static str)
    ensures
        r == condition_s(op),
{
    match op {
        MIRCmpOp::Eq | MIRCmpOp::FEq => "sete",
        MIRCmpOp::Ne | MIRCmpOp::FNe => "setne",
        MIRCmpOp::SLt => "setl",
        MIRCmpOp::SLe => "setle",
        MIRCmpOp::SGt => "setg",
        MIRCmpOp::SGe => "setge",
        MIRCmpOp::ULt | MIRCmpOp::FLt => "setb",
        MIRCmpOp::ULe | MIRCmpOp::FLe => "setbe",
        MIRCmpOp::UGt | MIRCmpOp::FGt => "seta",
        MIRCmpOp::UGe | MIRCmpOp::FGe => "setae",
    }
}

/// At least four bytes.
pub open spec fn four(bytes: usize) -> usize {
    if bytes > 4 { bytes } else { 4 }
}

/// A one-byte answer in `sc`, put where the destination is at its own width:
/// filled with noughts above the byte first where it is wider.
pub open spec fn widen_flag_s(b: &Body, def: MIRRegId, sc: Reg) -> Seq<char> {
    let want = reg_bytes(b, def);
    (if want > 1 {
        op2(sized("movzb"@, four(want)), named_s(sc, 1), named_s(sc, four(want)))
    } else {
        Seq::empty()
    }) + op2(sized("mov"@, want), named_s(sc, want), place_s(b, def))
}

fn widen_flag(out: &mut String, b: &Body, def: MIRRegId, sc: Reg)
    requires
        workable(b),
    ensures
        final(out)@ == old(out)@ + widen_flag_s(b, def, sc),
{
    let ghost before = out@;
    let want = b.bytes(def);
    let w4 = if want > 4 { want } else { 4 };
    if want > 1 {
        let what = sized_text("movzb", w4);
        let a = named(sc, 1);
        let c = named(sc, w4);
        put2(out, what.as_str(), a.as_str(), c.as_str());
    }
    let what = sized_text("mov", want);
    let a = named(sc, want);
    let c = place(b, def);
    put2(out, what.as_str(), a.as_str(), c.as_str());
    proof {
        assert(out@ =~= before + widen_flag_s(b, def, sc));
    }
}

/// `set` writes one byte and only one, so a destination wider than that is
/// filled the rest of the way, in its own register or in the scratch one and
/// then its slot.
pub open spec fn set_flag_s(b: &Body, def: MIRRegId, what: Seq<char>) -> Seq<char> {
    let want = reg_bytes(b, def);
    let sc = sc0(b, Class::Int);
    if want == 1 {
        op1(what, place_s(b, def))
    } else {
        op1(what, named_s(sc, 1)) + op2(sized("movzb"@, four(want)), named_s(sc, 1), named_s(reg_of_s(b, def, sc), four(want)))
            + match reg_site(b, def) {
            Site::At(off) => op2(sized("mov"@, want), named_s(sc, want), frame_at_s(off)),
            _ => Seq::empty(),
        }
    }
}

fn set_flag(out: &mut String, b: &Body, def: MIRRegId, what: &str)
    requires
        workable(b),
    ensures
        final(out)@ == old(out)@ + set_flag_s(b, def, what@),
{
    let ghost before = out@;
    let want = b.bytes(def);
    if want == 1 {
        let at = place(b, def);
        put1(out, what, at.as_str());
        return;
    }
    let sc = scratch(b.m, 0, Class::Int);
    let w4 = if want > 4 { want } else { 4 };
    let low = named(sc, 1);
    put1(out, what, low.as_str());
    let how = sized_text("movzb", w4);
    let to = named(reg_of(b, def, sc), w4);
    put2(out, how.as_str(), low.as_str(), to.as_str());
    match b.site(def) {
        Site::At(off) => {
            let how = sized_text("mov", want);
            let held = named(sc, want);
            let at = frame_at(off);
            put2(out, how.as_str(), held.as_str(), at.as_str());
        },
        _ => {},
    }
    proof {
        assert(out@ =~= before + set_flag_s(b, def, what@));
    }
}

/// No two of the `set` mnemonics are spelled alike.
proof fn set_names_apart()
    ensures
        "sete"@ != "setne"@,
        "sete"@ != "setb"@,
        "sete"@ != "setbe"@,
        "sete"@ != "seta"@,
        "sete"@ != "setae"@,
        "sete"@ != "setl"@,
        "sete"@ != "setle"@,
        "sete"@ != "setg"@,
        "sete"@ != "setge"@,
        "setne"@ != "setb"@,
        "setne"@ != "setbe"@,
        "setne"@ != "seta"@,
        "setne"@ != "setae"@,
        "setne"@ != "setl"@,
        "setne"@ != "setle"@,
        "setne"@ != "setg"@,
        "setne"@ != "setge"@,
        "setb"@ != "setbe"@,
        "setb"@ != "seta"@,
        "setb"@ != "setae"@,
        "setb"@ != "setl"@,
        "setb"@ != "setle"@,
        "setb"@ != "setg"@,
        "setb"@ != "setge"@,
        "setbe"@ != "seta"@,
        "setbe"@ != "setae"@,
        "setbe"@ != "setl"@,
        "setbe"@ != "setle"@,
        "setbe"@ != "setg"@,
        "setbe"@ != "setge"@,
        "seta"@ != "setae"@,
        "seta"@ != "setl"@,
        "seta"@ != "setle"@,
        "seta"@ != "setg"@,
        "seta"@ != "setge"@,
        "setae"@ != "setl"@,
        "setae"@ != "setle"@,
        "setae"@ != "setg"@,
        "setae"@ != "setge"@,
        "setl"@ != "setle"@,
        "setl"@ != "setg"@,
        "setl"@ != "setge"@,
        "setle"@ != "setg"@,
        "setle"@ != "setge"@,
        "setg"@ != "setge"@,
{
    reveal_strlit("sete");
    reveal_strlit("setne");
    reveal_strlit("setb");
    reveal_strlit("setbe");
    reveal_strlit("seta");
    reveal_strlit("setae");
    reveal_strlit("setl");
    reveal_strlit("setle");
    reveal_strlit("setg");
    reveal_strlit("setge");
    assert("sete"@.len() != "setne"@.len());
    assert("sete"@.len() != "setbe"@.len());
    assert("sete"@.len() != "setae"@.len());
    assert("sete"@.len() != "setle"@.len());
    assert("sete"@.len() != "setge"@.len());
    assert("setne"@.len() != "setb"@.len());
    assert("setne"@.len() != "seta"@.len());
    assert("setne"@.len() != "setl"@.len());
    assert("setne"@.len() != "setg"@.len());
    assert("setb"@.len() != "setbe"@.len());
    assert("setb"@.len() != "setae"@.len());
    assert("setb"@.len() != "setle"@.len());
    assert("setb"@.len() != "setge"@.len());
    assert("setbe"@.len() != "seta"@.len());
    assert("setbe"@.len() != "setl"@.len());
    assert("setbe"@.len() != "setg"@.len());
    assert("seta"@.len() != "setae"@.len());
    assert("seta"@.len() != "setle"@.len());
    assert("seta"@.len() != "setge"@.len());
    assert("setae"@.len() != "setl"@.len());
    assert("setae"@.len() != "setg"@.len());
    assert("setl"@.len() != "setle"@.len());
    assert("setl"@.len() != "setge"@.len());
    assert("setle"@.len() != "setg"@.len());
    assert("setg"@.len() != "setge"@.len());
    assert("sete"@[3] != "setb"@[3]);
    assert("sete"@[3] != "seta"@[3]);
    assert("sete"@[3] != "setl"@[3]);
    assert("sete"@[3] != "setg"@[3]);
    assert("setne"@[3] != "setbe"@[3]);
    assert("setne"@[3] != "setae"@[3]);
    assert("setne"@[3] != "setle"@[3]);
    assert("setne"@[3] != "setge"@[3]);
    assert("setb"@[3] != "seta"@[3]);
    assert("setb"@[3] != "setl"@[3]);
    assert("setb"@[3] != "setg"@[3]);
    assert("setbe"@[3] != "setae"@[3]);
    assert("setbe"@[3] != "setle"@[3]);
    assert("setbe"@[3] != "setge"@[3]);
    assert("seta"@[3] != "setl"@[3]);
    assert("seta"@[3] != "setg"@[3]);
    assert("setae"@[3] != "setle"@[3]);
    assert("setae"@[3] != "setge"@[3]);
    assert("setl"@[3] != "setg"@[3]);
    assert("setle"@[3] != "setge"@[3]);
}

/// What `set<cc>` writes, after a `cmp` that took the right operand from the
/// left, both `bits` wide: the carry flag is the borrow out of the unsigned
/// subtraction, so the left is below the right; the zero flag says the two
/// are the same; and the sign flag differing from the overflow flag says the
/// left is less than the right read as two's complement. `e`/`ne` test the
/// zero flag, `b`/`be`/`a`/`ae` the carry flag with it, and `l`/`le`/`g`/`ge`
/// the sign against the overflow.
pub open spec fn x86_set_holds(set: Seq<char>, x: int, y: int, bits: nat) -> bool {
    let carry = x < y;
    let zero = x == y;
    let less = signed_of(x, bits) < signed_of(y, bits);
    if set == "sete"@ {
        zero
    } else if set == "setne"@ {
        !zero
    } else if set == "setb"@ {
        carry
    } else if set == "setbe"@ {
        carry || zero
    } else if set == "seta"@ {
        !carry && !zero
    } else if set == "setae"@ {
        !carry
    } else if set == "setl"@ {
        less
    } else if set == "setle"@ {
        less || zero
    } else if set == "setg"@ {
        !less && !zero
    } else if set == "setge"@ {
        !less
    } else {
        false
    }
}

/// The flag an integer comparison is read back with answers that comparison:
/// after the compare, `set` with the condition chosen for `op` writes one
/// exactly when `op` holds of the two values -- an unsigned comparison reads
/// the carry, a signed one the sign against the overflow.
pub proof fn conditions_answer_comparisons(op: MIRCmpOp, x: int, y: int, bits: nat)
    requires
        compares_integers(op),
        bits > 0,
        0 <= x < vstd::arithmetic::power2::pow2(bits),
        0 <= y < vstd::arithmetic::power2::pow2(bits),
    ensures
        x86_set_holds(condition_s(op)@, x, y, bits) == comparison_holds(op, x, y, bits),
{
    set_names_apart();
    signed_of_one_to_one(x, y, bits);
    let goal = x86_set_holds(condition_s(op)@, x, y, bits) == comparison_holds(op, x, y, bits);
    match op {
        MIRCmpOp::Eq => {
            assert(condition_s(op)@ == "sete"@);
            assert(goal);
        },
        MIRCmpOp::Ne => {
            assert(condition_s(op)@ == "setne"@);
            assert(goal);
        },
        MIRCmpOp::SLt => {
            assert(condition_s(op)@ == "setl"@);
            assert(goal);
        },
        MIRCmpOp::SLe => {
            assert(condition_s(op)@ == "setle"@);
            assert(goal);
        },
        MIRCmpOp::SGt => {
            assert(condition_s(op)@ == "setg"@);
            assert(goal);
        },
        MIRCmpOp::SGe => {
            assert(condition_s(op)@ == "setge"@);
            assert(goal);
        },
        MIRCmpOp::ULt => {
            assert(condition_s(op)@ == "setb"@);
            assert(goal);
        },
        MIRCmpOp::ULe => {
            assert(condition_s(op)@ == "setbe"@);
            assert(goal);
        },
        MIRCmpOp::UGt => {
            assert(condition_s(op)@ == "seta"@);
            assert(goal);
        },
        MIRCmpOp::UGe => {
            assert(condition_s(op)@ == "setae"@);
            assert(goal);
        },
        _ => assert(false),
    }
}

/// Whether a comparison is of the signed kind.
pub open spec fn signed_cmp(op: MIRCmpOp) -> bool {
    op is SLt || op is SLe || op is SGt || op is SGe
}

/// The operands of an integer comparison are widened so that the
/// comparison still answers as it did on the narrow values: `signed_cmp`
/// widens a signed comparison's operands by their sign.
pub proof fn operands_widen_soundly(op: MIRCmpOp, x: int, y: int, from: nat, to: nat)
    requires
        compares_integers(op),
        0 < from <= to,
        0 <= x < vstd::arithmetic::power2::pow2(from),
        0 <= y < vstd::arithmetic::power2::pow2(from),
    ensures
        comparison_holds(op, extended(x, from, to, signed_cmp(op)), extended(y, from, to, signed_cmp(op)), to)
            == comparison_holds(op, x, y, from),
{
    assert(signed_cmp(op) == compares_signed(op));
    widening_keeps_comparisons(op, x, y, from, to);
}

/// The widest of two widths, between one and eight.
pub open spec fn cmp_width(a: usize, c: usize) -> usize {
    let w = if a > c { a } else { c };
    if w < 1 { 1 } else if w > 8 { 8 } else { w }
}

/// What a comparison writes after `pre`. Floats are compared unordered, and
/// equality and its opposite also ask whether the comparison was ordered at
/// all, so that a NaN equals nothing; integers are compared at the wider of
/// their widths, extended by the sign where the comparison is signed.
#[verifier::opaque]
pub open spec fn compare_s(pre: Seq<char>, b: &Body, def: MIRRegId, op: MIRCmpOp, lhs: MIRRegId, rhs: MIRRegId) -> Seq<char> {
    let bytes = reg_bytes(b, lhs);
    if reg_class(b, lhs) == Class::Float {
        let a = into_s(b, lhs, sc0(b, Class::Float));
        let one = into_s(b, rhs, sc1(b, Class::Float));
        let what = if bytes <= 4 { "ucomiss"@ } else { "ucomisd"@ };
        let (s0, s1) = (sc0(b, Class::Int), sc1(b, Class::Int));
        let head = pre + a.0 + one.0 + op2(what, one.1, a.1);
        match op {
            MIRCmpOp::FEq => head + op1("setnp"@, named_s(s0, 1)) + op1("sete"@, named_s(s1, 1)) + op2(
                "andb"@,
                named_s(s1, 1),
                named_s(s0, 1),
            ) + widen_flag_s(b, def, s0),
            MIRCmpOp::FNe => head + op1("setp"@, named_s(s0, 1)) + op1("setne"@, named_s(s1, 1)) + op2(
                "orb"@,
                named_s(s1, 1),
                named_s(s0, 1),
            ) + widen_flag_s(b, def, s0),
            _ => head + set_flag_s(b, def, condition_s(op)@),
        }
    } else {
        let signed = signed_cmp(op);
        let wide = cmp_width(bytes, reg_bytes(b, rhs));
        let a = widened_s(b, lhs, sc0(b, Class::Int), wide, signed);
        let one = widened_s(b, rhs, sc1(b, Class::Int), wide, signed);
        pre + a.0 + one.0 + op2(sized("cmp"@, wide), one.1, a.1) + set_flag_s(b, def, condition_s(op)@)
    }
}

fn compare(out: &mut String, b: &Body, def: MIRRegId, op: MIRCmpOp, lhs: MIRRegId, rhs: MIRRegId)
    requires
        workable(b),
    ensures
        final(out)@ == compare_s(old(out)@, b, def, op, lhs, rhs),
{
    reveal(compare_s);
    let ghost pre = out@;
    let bytes = b.bytes(lhs);
    if b.class(lhs) == Class::Float {
        let a = into(out, b, lhs, scratch(b.m, 0, Class::Float));
        let one = into(out, b, rhs, scratch(b.m, 1, Class::Float));
        let what = if bytes <= 4 { "ucomiss" } else { "ucomisd" };
        put2(out, what, one.as_str(), a.as_str());
        let s0 = scratch(b.m, 0, Class::Int);
        let s1 = scratch(b.m, 1, Class::Int);
        let ghost head = out@;
        match op {
            MIRCmpOp::FEq => {
                let l0 = named(s0, 1);
                let l1 = named(s1, 1);
                put1(out, "setnp", l0.as_str());
                put1(out, "sete", l1.as_str());
                put2(out, "andb", l1.as_str(), l0.as_str());
                widen_flag(out, b, def, s0);
            },
            MIRCmpOp::FNe => {
                let l0 = named(s0, 1);
                let l1 = named(s1, 1);
                put1(out, "setp", l0.as_str());
                put1(out, "setne", l1.as_str());
                put2(out, "orb", l1.as_str(), l0.as_str());
                widen_flag(out, b, def, s0);
            },
            _ => set_flag(out, b, def, condition(op)),
        }
        proof {
            assert(out@ =~= compare_s(pre, b, def, op, lhs, rhs));
        }
        return;
    }
    let signed = match op {
        MIRCmpOp::SLt | MIRCmpOp::SLe | MIRCmpOp::SGt | MIRCmpOp::SGe => true,
        _ => false,
    };
    let rb = b.bytes(rhs);
    let w = if bytes > rb { bytes } else { rb };
    let wide = if w < 1 { 1 } else if w > 8 { 8 } else { w };
    let a = widened(out, b, lhs, scratch(b.m, 0, Class::Int), wide, signed);
    let one = widened(out, b, rhs, scratch(b.m, 1, Class::Int), wide, signed);
    let what = sized_text("cmp", wide);
    put2(out, what.as_str(), one.as_str(), a.as_str());
    set_flag(out, b, def, condition(op));
    proof {
        assert(out@ =~= compare_s(pre, b, def, op, lhs, rhs));
    }
}

// ---- Conversions -----------------------------------------------------------

/// The smaller of two widths.
pub open spec fn least(a: usize, c: usize) -> usize {
    if a < c { a } else { c }
}

/// What a conversion writes after `pre`. An integer widened is extended by
/// its sign or with noughts -- from four bytes to eight with noughts a plain
/// four-byte move, which clears the top half -- and one narrowed is its low
/// bytes; between an integer and a float it is the machine's own conversion,
/// truncating towards nought; between floats of two widths, the other width.
#[verifier::opaque]
pub open spec fn convert_s(pre: Seq<char>, b: &Body, def: MIRRegId, of: MIRRegId, from: MIRScalar, to: MIRScalar) -> Seq<char> {
    match (from, to) {
        (MIRScalar::Int { bytes: fb, signed }, MIRScalar::Int { bytes: tb, .. }) => {
            let sc = sc0(b, Class::Int);
            let (held, back) = writing_s(b, def, sc);
            let body = if tb > fb && fb < 8 {
                if !signed && tb == 8 && fb == 4 {
                    op2("movl"@, place_s(b, of), named_s(reg_of_s(b, def, sc), 4))
                } else {
                    op2(
                        (if signed { "movs"@ } else { "movz"@ }).push(suffix_s(fb)).push(suffix_s(tb)),
                        place_s(b, of),
                        named_s(reg_of_s(b, def, sc), tb),
                    )
                }
            } else {
                let one = read_at_s(b, of, sc1(b, Class::Int), least(tb, fb));
                one.0 + op2(sized("mov"@, least(tb, fb)), one.1, held)
            };
            pre + body + stored_s(b, def, held, back)
        },
        (MIRScalar::Int { bytes: fb, signed }, MIRScalar::Float { bytes: tb }) => {
            let wide = four(fb);
            let one = widened_s(b, of, sc0(b, Class::Int), wide, signed);
            let (held, back) = writing_s(b, def, sc0(b, Class::Float));
            let what = (if tb <= 4 { "cvtsi2ss"@ } else { "cvtsi2sd"@ }).push(suffix_s(wide));
            pre + one.0 + op2(what, one.1, held) + stored_s(b, def, held, back)
        },
        (MIRScalar::Float { bytes: fb }, MIRScalar::Int { bytes: tb, .. }) => {
            let one = into_s(b, of, sc0(b, Class::Float));
            let wide = four(tb);
            let sc = sc0(b, Class::Int);
            let what = (if fb <= 4 { "cvttss2si"@ } else { "cvttsd2si"@ }).push(suffix_s(wide));
            pre + one.0 + op2(what, one.1, named_s(sc, wide)) + op2(mov_s(b, def), named_s(sc, tb), place_s(b, def))
        },
        (MIRScalar::Float { bytes: fb }, MIRScalar::Float { bytes: tb }) => {
            let one = into_s(b, of, sc1(b, Class::Float));
            let (held, back) = writing_s(b, def, sc0(b, Class::Float));
            let what = if fb == tb { mov_s(b, def) } else if tb <= 4 { "cvtsd2ss"@ } else { "cvtss2sd"@ };
            pre + one.0 + op2(what, one.1, held) + stored_s(b, def, held, back)
        },
    }
}

fn convert(out: &mut String, b: &Body, def: MIRRegId, of: MIRRegId, from: MIRScalar, to: MIRScalar)
    requires
        workable(b),
    ensures
        final(out)@ == convert_s(old(out)@, b, def, of, from, to),
{
    reveal(convert_s);
    let ghost pre = out@;
    match (from, to) {
        (MIRScalar::Int { bytes: fb, signed }, MIRScalar::Int { bytes: tb, .. }) => {
            let sc = scratch(b.m, 0, Class::Int);
            let (held, back) = writing(b, def, sc);
            if tb > fb && fb < 8 {
                let at = place(b, of);
                if !signed && tb == 8 && fb == 4 {
                    let to = named(reg_of(b, def, sc), 4);
                    put2(out, "movl", at.as_str(), to.as_str());
                } else {
                    let mut what = if signed { owned("movs") } else { owned("movz") };
                    push_char(&mut what, suffix(fb));
                    push_char(&mut what, suffix(tb));
                    let to = named(reg_of(b, def, sc), tb);
                    put2(out, what.as_str(), at.as_str(), to.as_str());
                }
            } else {
                let n = if tb < fb { tb } else { fb };
                let one = read_at(out, b, of, scratch(b.m, 1, Class::Int), n);
                let what = sized_text("mov", n);
                put2(out, what.as_str(), one.as_str(), held.as_str());
            }
            stored(out, b, def, held.as_str(), back);
        },
        (MIRScalar::Int { bytes: fb, signed }, MIRScalar::Float { bytes: tb }) => {
            let wide = if fb > 4 { fb } else { 4 };
            let one = widened(out, b, of, scratch(b.m, 0, Class::Int), wide, signed);
            let (held, back) = writing(b, def, scratch(b.m, 0, Class::Float));
            let mut what = if tb <= 4 { owned("cvtsi2ss") } else { owned("cvtsi2sd") };
            push_char(&mut what, suffix(wide));
            put2(out, what.as_str(), one.as_str(), held.as_str());
            stored(out, b, def, held.as_str(), back);
        },
        (MIRScalar::Float { bytes: fb }, MIRScalar::Int { bytes: tb, .. }) => {
            let one = into(out, b, of, scratch(b.m, 0, Class::Float));
            let wide = if tb > 4 { tb } else { 4 };
            let sc = scratch(b.m, 0, Class::Int);
            let mut what = if fb <= 4 { owned("cvttss2si") } else { owned("cvttsd2si") };
            push_char(&mut what, suffix(wide));
            let wn = named(sc, wide);
            put2(out, what.as_str(), one.as_str(), wn.as_str());
            let how = mov(b, def);
            let tn = named(sc, tb);
            let at = place(b, def);
            put2(out, how.as_str(), tn.as_str(), at.as_str());
        },
        (MIRScalar::Float { bytes: fb }, MIRScalar::Float { bytes: tb }) => {
            let one = into(out, b, of, scratch(b.m, 1, Class::Float));
            let (held, back) = writing(b, def, scratch(b.m, 0, Class::Float));
            let what = if fb == tb { mov(b, def) } else if tb <= 4 { owned("cvtsd2ss") } else { owned("cvtss2sd") };
            put2(out, what.as_str(), one.as_str(), held.as_str());
            stored(out, b, def, held.as_str(), back);
        },
    }
    proof {
        assert(out@ =~= convert_s(pre, b, def, of, from, to));
    }
}

// ---- Arithmetic ------------------------------------------------------------

/// The mnemonic of an arithmetic operation at a width: a float one by `ss` or
/// `sd`, an integer one by the letter for the width, a product signed.
pub open spec fn mnemonic_s(op: MIRBinOp, bytes: usize, float: bool) -> Seq<char> {
    if float {
        let at = if bytes <= 4 { "ss"@ } else { "sd"@ };
        match op {
            MIRBinOp::FAdd | MIRBinOp::Add => "add"@ + at,
            MIRBinOp::FSub | MIRBinOp::Sub => "sub"@ + at,
            MIRBinOp::FMul | MIRBinOp::Mul => "mul"@ + at,
            _ => "div"@ + at,
        }
    } else {
        sized(
            match op {
                MIRBinOp::Add => "add"@,
                MIRBinOp::Sub => "sub"@,
                MIRBinOp::And => "and"@,
                MIRBinOp::Or => "or"@,
                MIRBinOp::Xor => "xor"@,
                _ => "imul"@,
            },
            bytes,
        )
    }
}

fn mnemonic(op: MIRBinOp, bytes: usize, float: bool) -> (r: String)
    ensures
        r@ == mnemonic_s(op, bytes, float),
{
    if float {
        let mut out = match op {
            MIRBinOp::FAdd | MIRBinOp::Add => owned("add"),
            MIRBinOp::FSub | MIRBinOp::Sub => owned("sub"),
            MIRBinOp::FMul | MIRBinOp::Mul => owned("mul"),
            _ => owned("div"),
        };
        push_text(&mut out, if bytes <= 4 { "ss" } else { "sd" });
        out
    } else {
        let base = match op {
            MIRBinOp::Add => "add",
            MIRBinOp::Sub => "sub",
            MIRBinOp::And => "and",
            MIRBinOp::Or => "or",
            MIRBinOp::Xor => "xor",
            _ => "imul",
        };
        sized_text(base, bytes)
    }
}

/// `%rax` or `%eax`, by width.
pub open spec fn ax_s(wide: usize) -> Seq<char> {
    if wide == 8 { "%rax"@ } else { "%eax"@ }
}

/// `%rdx` or `%edx`, by width.
pub open spec fn dx_s(wide: usize) -> Seq<char> {
    if wide == 8 { "%rdx"@ } else { "%edx"@ }
}

/// A line that is there only where `cond` holds.
pub open spec fn only(cond: bool, line: Seq<char>) -> Seq<char> {
    if cond { line } else { Seq::empty() }
}

/// The pushes of `%rax` and `%rdx`, and the divisor read before either is
/// touched and moved to a scratch register where it sits in one of them: the
/// lines, and where the divisor is.
pub open spec fn divisor_s(b: &Body, rhs: MIRRegId, wide: usize, signed: bool) -> (Seq<char>, Seq<char>) {
    let s1 = sc1(b, Class::Int);
    let one = widened_s(b, rhs, s1, wide, signed);
    let taken = one.1 == named_s(fixed("rax"), wide) || one.1 == named_s(fixed("rdx"), wide);
    (
        op1("pushq"@, "%rax"@) + op1("pushq"@, "%rdx"@) + one.0 + only(taken, op2(sized("mov"@, wide), one.1, named_s(s1, wide))),
        if taken { named_s(s1, wide) } else { one.1 },
    )
}

/// The dividend, widened and put in `%rax`.
pub open spec fn dividend_s(b: &Body, lhs: MIRRegId, wide: usize, signed: bool) -> Seq<char> {
    let a = widened_s(b, lhs, sc0(b, Class::Int), wide, signed);
    a.0 + only(a.1 != named_s(fixed("rax"), wide), op2(sized("mov"@, wide), a.1, ax_s(wide)))
}

/// The division itself, the answer taken out of `%rax` for a quotient and
/// `%rdx` for a remainder, the two popped, and the answer put where it lives.
pub open spec fn divided_s(b: &Body, def: MIRRegId, op: MIRBinOp, wide: usize, signed: bool, div: Seq<char>) -> Seq<char> {
    let s0 = sc0(b, Class::Int);
    (if signed {
        op0(if wide == 8 { "cqto"@ } else { "cltd"@ }) + op1(sized("idiv"@, wide), div)
    } else {
        op2("xorl"@, "%edx"@, "%edx"@) + op1(sized("div"@, wide), div)
    }) + op2(sized("mov"@, wide), if op is SDiv || op is UDiv { ax_s(wide) } else { dx_s(wide) }, named_s(s0, wide)) + op1(
        "popq"@,
        "%rdx"@,
    ) + op1("popq"@, "%rax"@) + op2(mov_s(b, def), named_s(s0, reg_bytes(b, def)), place_s(b, def))
}

/// What a division or a remainder writes after `pre`: `divisor_s`, then
/// `dividend_s`, then `divided_s`, at four bytes at least, since a narrower
/// quotient depends on the bits above it.
#[verifier::opaque]
pub open spec fn divide_s(pre: Seq<char>, b: &Body, def: MIRRegId, op: MIRBinOp, lhs: MIRRegId, rhs: MIRRegId) -> Seq<char> {
    let wide = four(reg_bytes(b, def));
    let signed = op is SDiv || op is SRem;
    let d = divisor_s(b, rhs, wide, signed);
    pre + d.0 + dividend_s(b, lhs, wide, signed) + divided_s(b, def, op, wide, signed, d.1)
}

fn divisor(out: &mut String, b: &Body, rhs: MIRRegId, wide: usize, signed: bool) -> (r: String)
    requires
        workable(b),
    ensures
        final(out)@ == old(out)@ + divisor_s(b, rhs, wide, signed).0,
        r@ == divisor_s(b, rhs, wide, signed).1,
{
    let ghost pre = out@;
    let s1 = scratch(b.m, 1, Class::Int);
    put1(out, "pushq", "%rax");
    put1(out, "pushq", "%rdx");
    let one = widened(out, b, rhs, s1, wide, signed);
    let rax = named(Reg { name: "rax", class: Class::Int }, wide);
    let rdx = named(Reg { name: "rdx", class: Class::Int }, wide);
    let taken = same_text(one.as_str(), rax.as_str()) || same_text(one.as_str(), rdx.as_str());
    let div = if taken {
        let held = named(s1, wide);
        let what = sized_text("mov", wide);
        put2(out, what.as_str(), one.as_str(), held.as_str());
        held
    } else {
        one
    };
    proof {
        assert(out@ =~= pre + divisor_s(b, rhs, wide, signed).0);
    }
    div
}

fn dividend(out: &mut String, b: &Body, lhs: MIRRegId, wide: usize, signed: bool)
    requires
        workable(b),
    ensures
        final(out)@ == old(out)@ + dividend_s(b, lhs, wide, signed),
{
    let ghost pre = out@;
    let a = widened(out, b, lhs, scratch(b.m, 0, Class::Int), wide, signed);
    let rax = named(Reg { name: "rax", class: Class::Int }, wide);
    if !same_text(a.as_str(), rax.as_str()) {
        let what = sized_text("mov", wide);
        put2(out, what.as_str(), a.as_str(), if wide == 8 { "%rax" } else { "%eax" });
    }
    proof {
        assert(out@ =~= pre + dividend_s(b, lhs, wide, signed));
    }
}

fn divided(out: &mut String, b: &Body, def: MIRRegId, op: MIRBinOp, wide: usize, signed: bool, div: &str)
    requires
        workable(b),
    ensures
        final(out)@ == old(out)@ + divided_s(b, def, op, wide, signed, div@),
{
    let ghost pre = out@;
    let s0 = scratch(b.m, 0, Class::Int);
    if signed {
        put0(out, if wide == 8 { "cqto" } else { "cltd" });
        let what = sized_text("idiv", wide);
        put1(out, what.as_str(), div);
    } else {
        put2(out, "xorl", "%edx", "%edx");
        let what = sized_text("div", wide);
        put1(out, what.as_str(), div);
    }
    let from = match op {
        MIRBinOp::SDiv | MIRBinOp::UDiv => if wide == 8 { "%rax" } else { "%eax" },
        _ => if wide == 8 { "%rdx" } else { "%edx" },
    };
    let what = sized_text("mov", wide);
    let to = named(s0, wide);
    put2(out, what.as_str(), from, to.as_str());
    put1(out, "popq", "%rdx");
    put1(out, "popq", "%rax");
    let how = mov(b, def);
    let low = named(s0, b.bytes(def));
    let at = place(b, def);
    put2(out, how.as_str(), low.as_str(), at.as_str());
    proof {
        assert(out@ =~= pre + divided_s(b, def, op, wide, signed, div@));
    }
}

fn divide(out: &mut String, b: &Body, def: MIRRegId, op: MIRBinOp, lhs: MIRRegId, rhs: MIRRegId)
    requires
        workable(b),
    ensures
        final(out)@ == divide_s(old(out)@, b, def, op, lhs, rhs),
{
    reveal(divide_s);
    let ghost pre = out@;
    let bytes = b.bytes(def);
    let wide = if bytes > 4 { bytes } else { 4 };
    let signed = match op {
        MIRBinOp::SDiv | MIRBinOp::SRem => true,
        _ => false,
    };
    let div = divisor(out, b, rhs, wide, signed);
    dividend(out, b, lhs, wide, signed);
    divided(out, b, def, op, wide, signed, div.as_str());
    proof {
        assert(out@ =~= divide_s(pre, b, def, op, lhs, rhs));
    }
}

/// The widest of four widths.
pub open spec fn widest4(a: usize, c: usize, d: usize, e: usize) -> usize {
    let x = if a > c { a } else { c };
    let y = if x > d { x } else { d };
    if y > e { y } else { e }
}

/// The mnemonic of a shift.
pub open spec fn shift_s(op: MIRBinOp) -> Seq<char> {
    match op {
        MIRBinOp::Shl => "shl"@,
        MIRBinOp::LShr => "shr"@,
        _ => "sar"@,
    }
}

/// What an arithmetic operation writes after `pre`. The straight ones put the
/// left side where the answer goes and take the right side as it is, both
/// extended with noughts to the widest of the three widths -- four at least
/// for a product, which has no one-byte form -- and store the answer at the
/// destination's own width. A shift counts in `%cl`, so `%rcx` is pushed
/// round it; a division is `divide_s`; a float operation works in the
/// destination or the float scratch register.
#[verifier::opaque]
pub open spec fn binary_s(pre: Seq<char>, b: &Body, def: MIRRegId, op: MIRBinOp, lhs: MIRRegId, rhs: MIRRegId) -> Seq<char> {
    let bytes = reg_bytes(b, def);
    match op {
        MIRBinOp::Add | MIRBinOp::Sub | MIRBinOp::And | MIRBinOp::Or | MIRBinOp::Xor | MIRBinOp::Mul => {
            let float = reg_class(b, def) == Class::Float;
            let sc = sc0(b, reg_class(b, def));
            let back = match reg_site(b, def) {
                Site::At(off) => Some(off),
                _ => None,
            };
            let wide = if float {
                bytes
            } else {
                widest4(bytes, reg_bytes(b, lhs), reg_bytes(b, rhs), if op is Mul { 4 } else { 0 })
            };
            let held = named_s(reg_of_s(b, def, sc), wide);
            let a = if float { into_s(b, lhs, sc1(b, Class::Float)) } else { widened_s(b, lhs, sc1(b, Class::Int), wide, false) };
            let one = if float { (Seq::empty(), place_s(b, rhs)) } else { widened_s(b, rhs, sc1(b, Class::Int), wide, false) };
            pre + a.0 + only(a.1 != held, op2(if float { mov_s(b, def) } else { sized("mov"@, wide) }, a.1, held)) + one.0
                + op2(mnemonic_s(op, wide, float), one.1, held) + stored_s(b, def, named_s(reg_of_s(b, def, sc), bytes), back)
        },
        MIRBinOp::Shl | MIRBinOp::LShr | MIRBinOp::AShr => {
            let (s0, s1) = (sc0(b, Class::Int), sc1(b, Class::Int));
            let a = into_s(b, lhs, s0);
            let held = named_s(s0, bytes);
            let one = read_at_s(b, rhs, s1, 8);
            pre + a.0 + only(a.1 != held, op2(sized("mov"@, bytes), a.1, held)) + op1("pushq"@, "%rcx"@) + one.0 + only(
                one.1 != "%rcx"@,
                op2("movq"@, one.1, "%rcx"@),
            ) + op2(sized(shift_s(op), bytes), "%cl"@, held) + op1("popq"@, "%rcx"@) + op2(mov_s(b, def), held, place_s(b, def))
        },
        MIRBinOp::SDiv | MIRBinOp::UDiv | MIRBinOp::SRem | MIRBinOp::URem => divide_s(pre, b, def, op, lhs, rhs),
        _ => {
            let (held, back) = writing_s(b, def, sc0(b, Class::Float));
            let a = into_s(b, lhs, sc1(b, Class::Float));
            let one = into_s(b, rhs, sc1(b, Class::Float));
            pre + a.0 + only(a.1 != held, op2(mov_s(b, def), a.1, held)) + one.0 + op2(mnemonic_s(op, bytes, true), one.1, held)
                + stored_s(b, def, held, back)
        },
    }
}

fn binary(out: &mut String, b: &Body, def: MIRRegId, op: MIRBinOp, lhs: MIRRegId, rhs: MIRRegId)
    requires
        workable(b),
    ensures
        final(out)@ == binary_s(old(out)@, b, def, op, lhs, rhs),
{
    reveal(binary_s);
    let ghost pre = out@;
    let bytes = b.bytes(def);
    match op {
        MIRBinOp::Add | MIRBinOp::Sub | MIRBinOp::And | MIRBinOp::Or | MIRBinOp::Xor | MIRBinOp::Mul => {
            let float = b.class(def) == Class::Float;
            let sc = scratch(b.m, 0, b.class(def));
            let back = match b.site(def) {
                Site::At(off) => Some(off),
                _ => None,
            };
            let wide = if float {
                bytes
            } else {
                let lb = b.bytes(lhs);
                let rb = b.bytes(rhs);
                let x = if bytes > lb { bytes } else { lb };
                let y = if x > rb { x } else { rb };
                let e: usize = match op {
                    MIRBinOp::Mul => 4,
                    _ => 0,
                };
                if y > e { y } else { e }
            };
            let held = named(reg_of(b, def, sc), wide);
            let a = if float {
                into(out, b, lhs, scratch(b.m, 1, Class::Float))
            } else {
                widened(out, b, lhs, scratch(b.m, 1, Class::Int), wide, false)
            };
            if !same_text(a.as_str(), held.as_str()) {
                let what = if float { mov(b, def) } else { sized_text("mov", wide) };
                put2(out, what.as_str(), a.as_str(), held.as_str());
            }
            let one = if float {
                place(b, rhs)
            } else {
                widened(out, b, rhs, scratch(b.m, 1, Class::Int), wide, false)
            };
            let what = mnemonic(op, wide, float);
            put2(out, what.as_str(), one.as_str(), held.as_str());
            let low = named(reg_of(b, def, sc), bytes);
            stored(out, b, def, low.as_str(), back);
        },
        MIRBinOp::Shl | MIRBinOp::LShr | MIRBinOp::AShr => {
            let s0 = scratch(b.m, 0, Class::Int);
            let s1 = scratch(b.m, 1, Class::Int);
            let a = into(out, b, lhs, s0);
            let held = named(s0, bytes);
            if !same_text(a.as_str(), held.as_str()) {
                let what = sized_text("mov", bytes);
                put2(out, what.as_str(), a.as_str(), held.as_str());
            }
            put1(out, "pushq", "%rcx");
            let one = read_at(out, b, rhs, s1, 8);
            if !same_text(one.as_str(), "%rcx") {
                put2(out, "movq", one.as_str(), "%rcx");
            }
            let what = sized_text(
                match op {
                    MIRBinOp::Shl => "shl",
                    MIRBinOp::LShr => "shr",
                    _ => "sar",
                },
                bytes,
            );
            put2(out, what.as_str(), "%cl", held.as_str());
            put1(out, "popq", "%rcx");
            let how = mov(b, def);
            let at = place(b, def);
            put2(out, how.as_str(), held.as_str(), at.as_str());
        },
        MIRBinOp::SDiv | MIRBinOp::UDiv | MIRBinOp::SRem | MIRBinOp::URem => {
            divide(out, b, def, op, lhs, rhs);
        },
        _ => {
            let (held, back) = writing(b, def, scratch(b.m, 0, Class::Float));
            let a = into(out, b, lhs, scratch(b.m, 1, Class::Float));
            if !same_text(a.as_str(), held.as_str()) {
                let what = mov(b, def);
                put2(out, what.as_str(), a.as_str(), held.as_str());
            }
            let one = into(out, b, rhs, scratch(b.m, 1, Class::Float));
            let what = mnemonic(op, bytes, true);
            put2(out, what.as_str(), one.as_str(), held.as_str());
            stored(out, b, def, held.as_str(), back);
        },
    }
    proof {
        assert(out@ =~= binary_s(pre, b, def, op, lhs, rhs));
    }
}

// ---- Moving registers at once ----------------------------------------------

/// The whole-width move of a file.
pub open spec fn wide_move_s(class: Class) -> &'static str {
    if class == Class::Float { "movsd" } else { "movq" }
}

fn wide_move(class: Class) -> (r: &'static str)
    ensures
        r == wide_move_s(class),
{
    if class == Class::Float { "movsd" } else { "movq" }
}

/// One move of a shuffle, at the whole width of the registers; the second
/// scratch register of the file is the one a cycle is broken through.
pub open spec fn step_text(b: &Body, step: Step) -> Seq<char> {
    match step {
        Step::Move { to, from } => op2(wide_move_s(to.class)@, named_s(from, 8), named_s(to, 8)),
        Step::Save(from) => op2(wide_move_s(from.class)@, named_s(from, 8), named_s(sc1(b, from.class), 8)),
        Step::Restore(to) => op2(wide_move_s(to.class)@, named_s(sc1(b, to.class), 8), named_s(to, 8)),
    }
}

/// The moves of a shuffle, one after another.
pub open spec fn steps_text(b: &Body, steps: Seq<Step>) -> Seq<char>
    decreases steps.len(),
{
    if steps.len() == 0 {
        Seq::empty()
    } else {
        steps_text(b, steps.drop_last()) + step_text(b, steps.last())
    }
}

/// Several registers moved at once, in the order `ordered` gives.
pub open spec fn shuffle_s(b: &Body, moves: Seq<(Reg, Reg)>) -> Seq<char> {
    steps_text(b, order_of(moves))
}

fn shuffle(out: &mut String, b: &Body, moves: &[(Reg, Reg)])
    requires
        workable(b),
    ensures
        final(out)@ == old(out)@ + shuffle_s(b, moves@),
{
    let steps = ordered(moves);
    let ghost start = old(out)@;
    let mut i: usize = 0;
    while i < steps.len()
        invariant
            workable(b),
            i <= steps@.len(),
            out@ == start + steps_text(b, steps@.subrange(0, i as int)),
        decreases steps@.len() - i,
    {
        match steps[i] {
            Step::Move { to, from } => {
                let a = named(from, 8);
                let c = named(to, 8);
                put2(out, wide_move(to.class), a.as_str(), c.as_str());
            },
            Step::Save(from) => {
                let a = named(from, 8);
                let c = named(scratch(b.m, 1, from.class), 8);
                put2(out, wide_move(from.class), a.as_str(), c.as_str());
            },
            Step::Restore(to) => {
                let a = named(scratch(b.m, 1, to.class), 8);
                let c = named(to, 8);
                put2(out, wide_move(to.class), a.as_str(), c.as_str());
            },
        }
        proof {
            assert(steps@.subrange(0, i + 1).drop_last() =~= steps@.subrange(0, i as int));
            assert(out@ =~= start + steps_text(b, steps@.subrange(0, i + 1)));
        }
        i = i + 1;
    }
    proof {
        assert(steps@.subrange(0, steps@.len() as int) =~= steps@);
    }
}

// ---- Going in and coming out -----------------------------------------------

/// The saved registers from the first on, each stored below the frame
/// pointer, or each loaded back.
pub open spec fn saves_upto(b: &Body, k: int, back: bool) -> Seq<char>
    decreases k,
{
    if k <= 0 {
        Seq::empty()
    } else {
        let held = b.saved@[k - 1];
        let what = wide_move_s(held.class)@;
        let at = frame_at_s(saved_off(b, k - 1));
        saves_upto(b, k - 1, back) + if back { op2(what, at, named_s(held, 8)) } else { op2(what, named_s(held, 8), at) }
    }
}

fn saves(out: &mut String, b: &Body, back: bool)
    requires
        workable(b),
    ensures
        final(out)@ == old(out)@ + saves_upto(b, b.saved@.len() as int, back),
{
    let ghost start = old(out)@;
    let mut which: usize = 0;
    while which < b.saved.len()
        invariant
            workable(b),
            which <= b.saved@.len(),
            out@ == start + saves_upto(b, which as int, back),
        decreases b.saved@.len() - which,
    {
        proof {
            saved_off_fits(b, which as int);
        }
        let held = b.saved[which];
        let at = frame_at(b.saved_at(which));
        let name = named(held, 8);
        if back {
            put2(out, wide_move(held.class), at.as_str(), name.as_str());
        } else {
            put2(out, wide_move(held.class), name.as_str(), at.as_str());
        }
        proof {
            assert(out@ =~= start + saves_upto(b, which + 1, back));
        }
        which = which + 1;
    }
}

/// The first `k` parameters that arrived in a register: each stored into
/// the frame where it lives there, and the moves into registers for the
/// ones that live in one. One that arrived on the stack has no register to
/// come from here, and is left where it is.
pub open spec fn params_upto(b: &Body, k: int) -> (Seq<char>, Seq<(Reg, Reg)>)
    decreases k,
{
    if k <= 0 {
        (Seq::empty(), Seq::empty())
    } else {
        let prev = params_upto(b, k - 1);
        let reg = b.held.params@[k - 1];
        match passed_in(*b.m, param_classes(b), k - 1) {
            None => prev,
            Some(from) => match reg_site(b, reg) {
                Site::At(off) => (prev.0 + op2(mov_s(b, reg), named_s(from, reg_bytes(b, reg)), frame_at_s(off)), prev.1),
                Site::In(to) => (prev.0, prev.1.push((to, from))),
                Site::Nowhere => prev,
            },
        }
    }
}

/// The parameters out of the registers they arrived in: the stores first,
/// since a store disturbs no register, then the moves.
pub open spec fn params_s(b: &Body) -> Seq<char> {
    let done = params_upto(b, b.held.params@.len() as int);
    done.0 + shuffle_s(b, done.1)
}

fn params(out: &mut String, b: &Body)
    requires
        workable(b),
    ensures
        final(out)@ == old(out)@ + params_s(b),
{
    let mut classes: Vec<Class> = Vec::new();
    let mut i: usize = 0;
    while i < b.held.params.len()
        invariant
            i <= b.held.params@.len(),
            classes@ == param_classes(b).subrange(0, i as int),
        decreases b.held.params@.len() - i,
    {
        classes.push(b.class(b.held.params[i]));
        proof {
            assert(classes@ =~= param_classes(b).subrange(0, i + 1));
        }
        i = i + 1;
    }
    proof {
        assert(classes@ =~= param_classes(b));
    }
    let held = passing(b.m, classes.as_slice());
    let ghost start = old(out)@;
    let mut moves: Vec<(Reg, Reg)> = Vec::new();
    let mut at: usize = 0;
    while at < b.held.params.len()
        invariant
            workable(b),
            at <= b.held.params@.len(),
            held@.len() == b.held.params@.len(),
            forall|j: int| 0 <= j < held@.len() ==> held@[j] == passed_in(*b.m, param_classes(b), j),
            out@ == start + params_upto(b, at as int).0,
            moves@ == params_upto(b, at as int).1,
        decreases b.held.params@.len() - at,
    {
        let reg = b.held.params[at];
        match held[at] {
            None => {},
            Some(from) => match b.site(reg) {
                Site::At(off) => {
                    let how = mov(b, reg);
                    let name = named(from, b.bytes(reg));
                    let to = frame_at(off);
                    put2(out, how.as_str(), name.as_str(), to.as_str());
                },
                Site::In(to) => moves.push((to, from)),
                Site::Nowhere => {},
            },
        }
        proof {
            assert(out@ =~= start + params_upto(b, at + 1).0);
        }
        at = at + 1;
    }
    shuffle(out, b, moves.as_slice());
    proof {
        assert(final(out)@ =~= start + params_s(b));
    }
}

/// The frame pointer pushed and set, the frame made below it, each saved
/// register stored, and the parameters out of their registers.
pub open spec fn prologue_s(b: &Body) -> Seq<char> {
    op1("pushq"@, "%rbp"@) + op2("movq"@, "%rsp"@, "%rbp"@) + only(b.frame > 0, op2("subq"@, seq!['$'] + dec(b.frame), "%rsp"@))
        + saves_upto(b, b.saved@.len() as int, false) + params_s(b)
}

fn prologue(out: &mut String, b: &Body)
    requires
        workable(b),
    ensures
        final(out)@ == old(out)@ + prologue_s(b),
{
    let ghost start = old(out)@;
    put1(out, "pushq", "%rbp");
    put2(out, "movq", "%rsp", "%rbp");
    if b.frame > 0 {
        let n = then_number("$", b.frame as u128);
        proof {
            reveal_strlit("$");
        }
        put2(out, "subq", n.as_str(), "%rsp");
    }
    saves(out, b, false);
    params(out, b);
    proof {
        assert(final(out)@ =~= start + prologue_s(b));
    }
}

/// Each saved register back, and `leave` and `ret`: `leave` is the stack
/// back to the frame pointer and the frame pointer popped.
pub open spec fn epilogue_s(b: &Body) -> Seq<char> {
    saves_upto(b, b.saved@.len() as int, true) + op0("leave"@) + op0("ret"@)
}

fn epilogue(out: &mut String, b: &Body)
    requires
        workable(b),
    ensures
        final(out)@ == old(out)@ + epilogue_s(b),
{
    let ghost start = old(out)@;
    saves(out, b, true);
    put0(out, "leave");
    put0(out, "ret");
    proof {
        assert(final(out)@ =~= start + epilogue_s(b));
    }
}

/// The register an answer of a file comes back in.
pub open spec fn answer_s(b: &Body, class: Class) -> Reg {
    match class {
        Class::Int => b.m.ret,
        Class::Float => b.m.fret,
    }
}

/// A block's way out. A flag is tested against nought at its own width and
/// the branch is on "not equal"; an answer goes where the caller reads it
/// before the epilogue; the block that cannot be reached is the instruction
/// that faults.
pub open spec fn term_s(b: &Body, held: MIRTerm) -> Seq<char> {
    match held {
        MIRTerm::Goto(to) => op1("jmp"@, label_text(b.index, to)),
        MIRTerm::Branch { cond, then, els } => op2(sized("cmp"@, reg_bytes(b, cond)), "$0"@, place_s(b, cond)) + op1(
            "jne"@,
            label_text(b.index, then),
        ) + op1("jmp"@, label_text(b.index, els)),
        MIRTerm::Return(value) => (match value {
            None => Seq::empty(),
            Some(reg) => {
                let held = named_s(answer_s(b, reg_class(b, reg)), reg_bytes(b, reg));
                only(place_s(b, reg) != held, op2(mov_s(b, reg), place_s(b, reg), held))
            },
        }) + epilogue_s(b),
        MIRTerm::Unreachable => op0("ud2"@),
    }
}

fn term(out: &mut String, b: &Body, held: &MIRTerm)
    requires
        workable(b),
    ensures
        final(out)@ == old(out)@ + term_s(b, *held),
{
    let ghost start = old(out)@;
    match held {
        MIRTerm::Goto(to) => {
            let l = label(b, *to);
            put1(out, "jmp", l.as_str());
        },
        MIRTerm::Branch { cond, then, els } => {
            let what = sized_text("cmp", b.bytes(*cond));
            let at = place(b, *cond);
            put2(out, what.as_str(), "$0", at.as_str());
            let l = label(b, *then);
            put1(out, "jne", l.as_str());
            let l2 = label(b, *els);
            put1(out, "jmp", l2.as_str());
        },
        MIRTerm::Return(value) => {
            match value {
                None => {},
                Some(reg) => {
                    let want = b.m.answering(b.class(*reg));
                    let name = named(want, b.bytes(*reg));
                    let at = place(b, *reg);
                    if !same_text(at.as_str(), name.as_str()) {
                        let how = mov(b, *reg);
                        put2(out, how.as_str(), at.as_str(), name.as_str());
                    }
                },
            }
            epilogue(out, b);
        },
        MIRTerm::Unreachable => {
            put0(out, "ud2");
        },
    }
    proof {
        assert(final(out)@ =~= start + term_s(b, *held));
    }
}

// ---- The instructions ------------------------------------------------------

/// An immediate: a dollar sign and the number, with its sign.
pub open spec fn imm_s(n: int) -> Seq<char> {
    seq!['$'] + signed_decimal(n)
}

fn imm(n: i64) -> (r: String)
    ensures
        r@ == imm_s(n as int),
{
    let mut out = String::new();
    push_char(&mut out, '$');
    push_signed(&mut out, n);
    proof {
        assert(out@ =~= imm_s(n as int));
    }
    out
}

/// An operand addressed from the instruction pointer.
pub open spec fn rip_s(name: Seq<char>) -> Seq<char> {
    name + "(%rip)"@
}

/// The name of the `n`th floating literal of body `index`, or of a sign mask.
pub open spec fn lit_name(index: usize, mask: bool, n: nat) -> Seq<char> {
    (if mask { ".LCn"@ } else { ".LC"@ }) + decimal(index as nat) + seq!['_'] + decimal(n)
}

fn lit_name_text(index: usize, mask: bool, n: usize) -> (r: String)
    ensures
        r@ == lit_name(index, mask, n as nat),
{
    let mut out = if mask { owned(".LCn") } else { owned(".LC") };
    push_decimal(&mut out, index);
    push_char(&mut out, '_');
    push_decimal(&mut out, n);
    proof {
        assert(out@ =~= lit_name(index, mask, n as nat));
    }
    out
}

/// One floating literal under the body: aligned to its width and four at
/// least, its name, and its word.
pub open spec fn lit_entry(name: Seq<char>, bytes: usize, word: Seq<char>) -> Seq<char> {
    op1(".align"@, dec(four(bytes))) + label_line(name) + word
}

/// The literals under a body so far, and how many there are.
pub open spec fn lits_after(lits: (Seq<char>, nat), entry: Seq<char>) -> (Seq<char>, nat) {
    (lits.0 + entry, lits.1 + 1)
}

/// Whether a number fits the sign-extended thirty-two bits of an immediate.
pub open spec fn small(n: i64) -> bool {
    -0x8000_0000 <= n <= 0x7fff_ffff
}

/// A constant into its register, and what it adds to the literals. An
/// integer that fits an immediate is one move; a wider one is built whole in
/// a scratch register with `movabsq` first. A float is read from a literal
/// of its own under the body, its bits written at its width.
#[verifier::opaque]
pub open spec fn const_s(pre: Seq<char>, b: &Body, def: MIRRegId, held: MIRConst, lits: (Seq<char>, nat)) -> (Seq<char>, (Seq<char>, nat)) {
    let bytes = reg_bytes(b, def);
    match held {
        MIRConst::Int(n) => if small(n) {
            (pre + op2(sized("mov"@, bytes), imm_s(n as int), place_s(b, def)), lits)
        } else {
            let h = named_s(sc0(b, Class::Int), 8);
            (pre + op2("movabsq"@, imm_s(n as int), h) + op2("movq"@, h, place_s(b, def)), lits)
        },
        MIRConst::Float(bits) => {
            let name = lit_name(b.index, false, lits.1);
            let word = if bytes <= 4 { op1(".long"@, decimal((bits % 0x1_0000_0000) as nat)) } else { op1(".quad"@, decimal(bits as nat)) };
            let (h, back) = writing_s(b, def, sc0(b, Class::Float));
            (
                pre + op2(if bytes <= 4 { "movss"@ } else { "movsd"@ }, rip_s(name), h) + stored_s(b, def, h, back),
                lits_after(lits, lit_entry(name, bytes, word)),
            )
        },
    }
}

fn lit_entry_text(out: &mut String, name: &str, bytes: usize, word: &str, long: bool)
    ensures
        final(out)@ == old(out)@ + lit_entry(name@, bytes, op1(if long { ".long"@ } else { ".quad"@ }, word@)),
{
    let ghost pre = out@;
    let w = if bytes > 4 { bytes } else { 4 };
    let mut n = String::new();
    push_decimal(&mut n, w);
    put1(out, ".align", n.as_str());
    put_label(out, name);
    put1(out, if long { ".long" } else { ".quad" }, word);
    proof {
        assert(out@ =~= pre + lit_entry(name@, bytes, op1(if long { ".long"@ } else { ".quad"@ }, word@)));
    }
}

fn const_of(out: &mut String, b: &Body, def: MIRRegId, held: MIRConst, lits: &mut String, n: &mut usize)
    requires
        workable(b),
        *old(n) < usize::MAX,
    ensures
        final(out)@ == const_s(old(out)@, b, def, held, (old(lits)@, *old(n) as nat)).0,
        (final(lits)@, *final(n) as nat) == const_s(old(out)@, b, def, held, (old(lits)@, *old(n) as nat)).1,
{
    reveal(const_s);
    let ghost pre = out@;
    let bytes = b.bytes(def);
    match held {
        MIRConst::Int(v) => {
            let i = imm(v);
            let at = place(b, def);
            if -0x8000_0000 <= v && v <= 0x7fff_ffff {
                let what = sized_text("mov", bytes);
                put2(out, what.as_str(), i.as_str(), at.as_str());
            } else {
                let h = named(scratch(b.m, 0, Class::Int), 8);
                put2(out, "movabsq", i.as_str(), h.as_str());
                put2(out, "movq", h.as_str(), at.as_str());
            }
        },
        MIRConst::Float(bits) => {
            let name = lit_name_text(b.index, false, *n);
            let mut word = String::new();
            if bytes <= 4 {
                push_wide(&mut word, (bits % 0x1_0000_0000) as u128);
            } else {
                push_wide(&mut word, bits as u128);
            }
            lit_entry_text(lits, name.as_str(), bytes, word.as_str(), bytes <= 4);
            *n = *n + 1;
            let (h, back) = writing(b, def, scratch(b.m, 0, Class::Float));
            let mut from = name;
            push_text(&mut from, "(%rip)");
            put2(out, if bytes <= 4 { "movss" } else { "movsd" }, from.as_str(), h.as_str());
            stored(out, b, def, h.as_str(), back);
        },
    }
    proof {
        assert(out@ =~= const_s(pre, b, def, held, (old(lits)@, *old(n) as nat)).0);
    }
}

/// A register into another: a float at its width, an integer read at the
/// destination's width, extended with noughts where it is narrower.
pub open spec fn move_s(pre: Seq<char>, b: &Body, def: MIRRegId, of: MIRRegId) -> Seq<char> {
    let h = if reg_class(b, def) == Class::Float {
        into_s(b, of, sc0(b, Class::Float))
    } else {
        widened_s(b, of, sc0(b, Class::Int), reg_bytes(b, def), false)
    };
    pre + h.0 + op2(mov_s(b, def), h.1, place_s(b, def))
}

fn move_into(out: &mut String, b: &Body, def: MIRRegId, of: MIRRegId)
    requires
        workable(b),
    ensures
        final(out)@ == move_s(old(out)@, b, def, of),
{
    let ghost pre = out@;
    let h = if b.class(def) == Class::Float {
        into(out, b, of, scratch(b.m, 0, Class::Float))
    } else {
        widened(out, b, of, scratch(b.m, 0, Class::Int), b.bytes(def), false)
    };
    let how = mov(b, def);
    let at = place(b, def);
    put2(out, how.as_str(), h.as_str(), at.as_str());
    proof {
        assert(out@ =~= move_s(pre, b, def, of));
    }
}

/// A negation, a complement, or a float's sign bit turned over by an
/// exclusive or with a mask under the body -- which gets the sign of nought
/// right, as a subtraction from nought would not.
#[verifier::opaque]
pub open spec fn un_s(pre: Seq<char>, b: &Body, def: MIRRegId, op: MIRUnOp, operand: MIRRegId, lits: (Seq<char>, nat)) -> (Seq<char>, (Seq<char>, nat)) {
    let bytes = reg_bytes(b, def);
    let (h, back) = writing_s(b, def, sc0(b, reg_class(b, def)));
    match op {
        MIRUnOp::FNeg => {
            let name = lit_name(b.index, true, lits.1);
            let mask: int = if bytes <= 4 { 0x8000_0000 } else { -0x8000_0000_0000_0000 };
            let one = into_s(b, operand, sc1(b, Class::Float));
            let what = if bytes <= 4 { "movss"@ } else { "movsd"@ };
            (
                pre + one.0 + only(one.1 != h, op2(what, one.1, h)) + op2("xorpd"@, rip_s(name), h) + stored_s(b, def, h, back),
                lits_after(lits, lit_entry(name, 8, op1(".quad"@, signed_decimal(mask)))),
            )
        },
        _ => {
            let one = into_s(b, operand, sc1(b, Class::Int));
            let what = if op is Neg { "neg"@ } else { "not"@ };
            (
                pre + one.0 + only(one.1 != h, op2(sized("mov"@, bytes), one.1, h)) + op1(sized(what, bytes), h) + stored_s(
                    b,
                    def,
                    h,
                    back,
                ),
                lits,
            )
        },
    }
}

fn un_of(out: &mut String, b: &Body, def: MIRRegId, op: MIRUnOp, operand: MIRRegId, lits: &mut String, n: &mut usize)
    requires
        workable(b),
        *old(n) < usize::MAX,
    ensures
        final(out)@ == un_s(old(out)@, b, def, op, operand, (old(lits)@, *old(n) as nat)).0,
        (final(lits)@, *final(n) as nat) == un_s(old(out)@, b, def, op, operand, (old(lits)@, *old(n) as nat)).1,
{
    reveal(un_s);
    let ghost pre = out@;
    let bytes = b.bytes(def);
    let (h, back) = writing(b, def, scratch(b.m, 0, b.class(def)));
    match op {
        MIRUnOp::FNeg => {
            let name = lit_name_text(b.index, true, *n);
            let mut word = String::new();
            push_signed(&mut word, if bytes <= 4 { 0x8000_0000i64 } else { i64::MIN });
            lit_entry_text(lits, name.as_str(), 8, word.as_str(), false);
            *n = *n + 1;
            let one = into(out, b, operand, scratch(b.m, 1, Class::Float));
            if !same_text(one.as_str(), h.as_str()) {
                put2(out, if bytes <= 4 { "movss" } else { "movsd" }, one.as_str(), h.as_str());
            }
            let mut from = name;
            push_text(&mut from, "(%rip)");
            put2(out, "xorpd", from.as_str(), h.as_str());
            stored(out, b, def, h.as_str(), back);
        },
        _ => {
            let one = into(out, b, operand, scratch(b.m, 1, Class::Int));
            if !same_text(one.as_str(), h.as_str()) {
                let what = sized_text("mov", bytes);
                put2(out, what.as_str(), one.as_str(), h.as_str());
            }
            let what = sized_text(
                match op {
                    MIRUnOp::Neg => "neg",
                    _ => "not",
                },
                bytes,
            );
            put1(out, what.as_str(), h.as_str());
            stored(out, b, def, h.as_str(), back);
        },
    }
    proof {
        assert(out@ =~= un_s(pre, b, def, op, operand, (old(lits)@, *old(n) as nat)).0);
    }
}

/// Where a slot begins below the frame pointer; a word below for a slot the
/// frame does not have.
pub open spec fn slot_off(b: &Body, slot: usize) -> usize {
    if slot < b.offsets@.len() { b.offsets@[slot as int] } else { b.m.word }
}

/// An address worked out by `leaq` into where `def` lives.
pub open spec fn lea_s(pre: Seq<char>, b: &Body, def: MIRRegId, from: Seq<char>) -> Seq<char> {
    let (h, back) = writing_s(b, def, sc0(b, Class::Int));
    pre + op2("leaq"@, from, h) + stored_s(b, def, h, back)
}

fn lea(out: &mut String, b: &Body, def: MIRRegId, from: &str)
    requires
        workable(b),
    ensures
        final(out)@ == lea_s(old(out)@, b, def, from@),
{
    let ghost pre = out@;
    let (h, back) = writing(b, def, scratch(b.m, 0, Class::Int));
    put2(out, "leaq", from, h.as_str());
    stored(out, b, def, h.as_str(), back);
    proof {
        assert(out@ =~= lea_s(pre, b, def, from@));
    }
}

/// Where a base and an offset in bytes from it point.
pub open spec fn offset_s(pre: Seq<char>, b: &Body, def: MIRRegId, base: MIRRegId, bytes: i64) -> Seq<char> {
    let one = read_at_s(b, base, sc1(b, Class::Int), 8);
    lea_s(pre + one.0, b, def, signed_decimal(bytes as int) + seq!['('] + one.1 + seq![')'])
}

fn offset_of(out: &mut String, b: &Body, def: MIRRegId, base: MIRRegId, bytes: i64)
    requires
        workable(b),
    ensures
        final(out)@ == offset_s(old(out)@, b, def, base, bytes),
{
    let ghost pre = out@;
    let one = read_at(out, b, base, scratch(b.m, 1, Class::Int), 8);
    let mut from = String::new();
    push_signed(&mut from, bytes);
    push_char(&mut from, '(');
    push_text(&mut from, one.as_str());
    push_char(&mut from, ')');
    lea(out, b, def, from.as_str());
    proof {
        assert(from@ =~= signed_decimal(bytes as int) + seq!['('] + one@ + seq![')']);
    }
}

/// Whether a stride is one the addressing mode takes.
pub open spec fn plain_scale(scale: usize) -> bool {
    scale == 1 || scale == 2 || scale == 4 || scale == 8
}

/// A base and an index times a stride: the machine's own addressing mode
/// where the stride is one it knows, a multiply first where it is not.
#[verifier::opaque]
pub open spec fn scaled_s(pre: Seq<char>, b: &Body, def: MIRRegId, base: MIRRegId, index: MIRRegId, scale: usize) -> Seq<char> {
    let s0 = sc0(b, Class::Int);
    let one = read_at_s(b, base, sc1(b, Class::Int), 8);
    let st = widened_s(b, index, s0, 8, true);
    let mul = if plain_scale(scale) { Seq::empty() } else { op3("imulq"@, seq!['$'] + dec(scale), st.1, named_s(s0, 8)) };
    let step = if plain_scale(scale) { st.1 } else { named_s(s0, 8) };
    let by = if plain_scale(scale) { scale } else { 1 };
    lea_s(pre + one.0 + st.0 + mul, b, def, seq!['('] + one.1 + seq![',', ' '] + step + seq![',', ' '] + dec(by) + seq![')'])
}

fn scaled_of(out: &mut String, b: &Body, def: MIRRegId, base: MIRRegId, index: MIRRegId, scale: usize)
    requires
        workable(b),
    ensures
        final(out)@ == scaled_s(old(out)@, b, def, base, index, scale),
{
    reveal(scaled_s);
    let ghost pre = out@;
    let s0 = scratch(b.m, 0, Class::Int);
    let one = read_at(out, b, base, scratch(b.m, 1, Class::Int), 8);
    let mut step = widened(out, b, index, s0, 8, true);
    let mut by = scale;
    if !(scale == 1 || scale == 2 || scale == 4 || scale == 8) {
        let h = named(s0, 8);
        let mut n = String::new();
        push_char(&mut n, '$');
        push_decimal(&mut n, scale);
        put3(out, "imulq", n.as_str(), step.as_str(), h.as_str());
        proof {
            assert(n@ =~= seq!['$'] + dec(scale));
        }
        step = h;
        by = 1;
    }
    let mut from = String::new();
    push_char(&mut from, '(');
    push_text(&mut from, one.as_str());
    push_text(&mut from, ", ");
    push_text(&mut from, step.as_str());
    push_text(&mut from, ", ");
    push_decimal(&mut from, by);
    push_char(&mut from, ')');
    proof {
        reveal_strlit(", ");
        assert(from@ =~= seq!['('] + one@ + seq![',', ' '] + step@ + seq![',', ' '] + dec(by) + seq![')']);
    }
    let ghost mid = out@;
    lea(out, b, def, from.as_str());
    proof {
        assert(mid =~= pre + read_at_s(b, base, sc1(b, Class::Int), 8).0 + widened_s(b, index, s0, 8, true).0 + (if plain_scale(scale) {
            Seq::empty()
        } else {
            op3("imulq"@, seq!['$'] + dec(scale), widened_s(b, index, s0, 8, true).1, named_s(s0, 8))
        }));
    }
}

/// Memory at an address held in a register.
pub open spec fn at_s(reg: Seq<char>) -> Seq<char> {
    seq!['('] + reg + seq![')']
}

fn at_text(reg: &str) -> (r: String)
    ensures
        r@ == at_s(reg@),
{
    let mut out = String::new();
    push_char(&mut out, '(');
    push_text(&mut out, reg);
    push_char(&mut out, ')');
    proof {
        assert(out@ =~= at_s(reg@));
    }
    out
}

/// A load. A float at the width read; an integer narrower than its register
/// filled with noughts above -- four bytes by a four-byte move, which clears
/// the top half -- and otherwise read as it is.
#[verifier::opaque]
pub open spec fn load_s(pre: Seq<char>, b: &Body, def: MIRRegId, from: MIRRegId, bytes: usize) -> Seq<char> {
    let one = read_at_s(b, from, sc1(b, Class::Int), 8);
    let (h, back) = writing_s(b, def, sc0(b, reg_class(b, def)));
    let want = reg_bytes(b, def);
    let to = reg_of_s(b, def, sc0(b, Class::Int));
    pre + one.0 + (if reg_class(b, def) == Class::Float {
        op2(if bytes <= 4 { "movss"@ } else { "movsd"@ }, at_s(one.1), h)
    } else if bytes < want {
        if bytes == 4 {
            op2("movl"@, at_s(one.1), named_s(to, 4))
        } else {
            op2("movz"@.push(suffix_s(bytes)).push(suffix_s(four(want))), at_s(one.1), named_s(to, four(want)))
        }
    } else {
        op2(sized("mov"@, bytes), at_s(one.1), h)
    }) + stored_s(b, def, h, back)
}

fn load_into(out: &mut String, b: &Body, def: MIRRegId, from: MIRRegId, bytes: usize)
    requires
        workable(b),
    ensures
        final(out)@ == load_s(old(out)@, b, def, from, bytes),
{
    reveal(load_s);
    let ghost pre = out@;
    let one = read_at(out, b, from, scratch(b.m, 1, Class::Int), 8);
    let (h, back) = writing(b, def, scratch(b.m, 0, b.class(def)));
    let want = b.bytes(def);
    let addr = at_text(one.as_str());
    if b.class(def) == Class::Float {
        put2(out, if bytes <= 4 { "movss" } else { "movsd" }, addr.as_str(), h.as_str());
    } else if bytes < want {
        let to = reg_of(b, def, scratch(b.m, 0, Class::Int));
        if bytes == 4 {
            let t = named(to, 4);
            put2(out, "movl", addr.as_str(), t.as_str());
        } else {
            let w4 = if want > 4 { want } else { 4 };
            let mut what = owned("movz");
            push_char(&mut what, suffix(bytes));
            push_char(&mut what, suffix(w4));
            let t = named(to, w4);
            put2(out, what.as_str(), addr.as_str(), t.as_str());
        }
    } else {
        let what = sized_text("mov", bytes);
        put2(out, what.as_str(), addr.as_str(), h.as_str());
    }
    stored(out, b, def, h.as_str(), back);
    proof {
        assert(out@ =~= load_s(pre, b, def, from, bytes));
    }
}

/// A store of `bytes` of a value through an address.
pub open spec fn store_s(pre: Seq<char>, b: &Body, to: MIRRegId, value: MIRRegId, bytes: usize) -> Seq<char> {
    let one = into_s(b, to, sc1(b, Class::Int));
    let h = read_at_s(b, value, sc0(b, reg_class(b, value)), bytes);
    pre + one.0 + h.0 + op2(move_of_s(reg_class(b, value), bytes), h.1, at_s(one.1))
}

fn store_into(out: &mut String, b: &Body, to: MIRRegId, value: MIRRegId, bytes: usize)
    requires
        workable(b),
    ensures
        final(out)@ == store_s(old(out)@, b, to, value, bytes),
{
    let ghost pre = out@;
    let one = into(out, b, to, scratch(b.m, 1, Class::Int));
    let h = read_at(out, b, value, scratch(b.m, 0, b.class(value)), bytes);
    let what = move_of(b.class(value), bytes);
    let addr = at_text(one.as_str());
    put2(out, what.as_str(), h.as_str(), addr.as_str());
    proof {
        assert(out@ =~= store_s(pre, b, to, value, bytes));
    }
}

/// A block copy by the string instruction: both addresses into the scratch
/// registers first, since either may sit in one of the three registers the
/// instruction insists on, then those three pushed, set, and popped after.
#[verifier::opaque]
pub open spec fn copy_s(pre: Seq<char>, b: &Body, to: MIRRegId, from: MIRRegId, bytes: usize) -> Seq<char> {
    let (s0, s1) = (sc0(b, Class::Int), sc1(b, Class::Int));
    let h = named_s(s0, 8);
    let a = read_at_s(b, from, s0, 8);
    let one = named_s(s1, 8);
    let c = read_at_s(b, to, s1, 8);
    pre + a.0 + only(a.1 != h, op2("movq"@, a.1, h)) + c.0 + only(c.1 != one, op2("movq"@, c.1, one)) + op1("pushq"@, "%rdi"@)
        + op1("pushq"@, "%rsi"@) + op1("pushq"@, "%rcx"@) + op2("movq"@, one, "%rdi"@) + op2("movq"@, h, "%rsi"@) + op2(
        "movq"@,
        seq!['$'] + dec(bytes),
        "%rcx"@,
    ) + op0("rep movsb"@) + op1("popq"@, "%rcx"@) + op1("popq"@, "%rsi"@) + op1("popq"@, "%rdi"@)
}

fn copy_of(out: &mut String, b: &Body, to: MIRRegId, from: MIRRegId, bytes: usize)
    requires
        workable(b),
    ensures
        final(out)@ == copy_s(old(out)@, b, to, from, bytes),
{
    reveal(copy_s);
    let ghost pre = out@;
    let s0 = scratch(b.m, 0, Class::Int);
    let s1 = scratch(b.m, 1, Class::Int);
    let h = named(s0, 8);
    let a = read_at(out, b, from, s0, 8);
    if !same_text(a.as_str(), h.as_str()) {
        put2(out, "movq", a.as_str(), h.as_str());
    }
    let one = named(s1, 8);
    let c = read_at(out, b, to, s1, 8);
    if !same_text(c.as_str(), one.as_str()) {
        put2(out, "movq", c.as_str(), one.as_str());
    }
    let ghost mid = out@;
    put1(out, "pushq", "%rdi");
    put1(out, "pushq", "%rsi");
    put1(out, "pushq", "%rcx");
    put2(out, "movq", one.as_str(), "%rdi");
    put2(out, "movq", h.as_str(), "%rsi");
    let mut n = String::new();
    push_char(&mut n, '$');
    push_decimal(&mut n, bytes);
    put2(out, "movq", n.as_str(), "%rcx");
    put0(out, "rep movsb");
    put1(out, "popq", "%rcx");
    put1(out, "popq", "%rsi");
    put1(out, "popq", "%rdi");
    proof {
        assert(n@ =~= seq!['$'] + dec(bytes));
        assert(out@ =~= copy_s(pre, b, to, from, bytes));
    }
}

// ---- Calls -----------------------------------------------------------------

/// After `pre`, the moves of the first `k` arguments that do not live in a
/// register into the registers they are passed in.
pub open spec fn call_loads(pre: Seq<char>, b: &Body, args: Seq<MIRRegId>, k: int) -> Seq<char>
    decreases k,
{
    if k <= 0 {
        pre
    } else {
        let prev = call_loads(pre, b, args, k - 1);
        let arg = args[k - 1];
        match passed_in(*b.m, arg_classes(b, args), k - 1) {
            Some(into) => match reg_site(b, arg) {
                Site::In(_) => prev,
                _ => prev + op2(mov_s(b, arg), place_s(b, arg), named_s(into, reg_bytes(b, arg))),
            },
            None => prev,
        }
    }
}

/// A call: the arguments in registers moved at once, then the ones in the
/// frame loaded, the call, and the answer out of the register it comes back
/// in. An argument with no register to go in would go on the stack, and
/// nothing here puts one there, so such a call is not written, and is said.
#[verifier::opaque]
pub open spec fn call_s(pre: Seq<char>, b: &Body, def: Option<MIRRegId>, to: MIRCallee, args: Seq<MIRRegId>) -> (
    Seq<char>,
    Option<Seq<char>>,
) {
    if overflows(b, args) {
        (pre, Some(too_many(b, args.len() as usize)))
    } else {
        let loaded = call_loads(pre + shuffle_s(b, call_moves(b, args, args.len() as int)), b, args, args.len() as int);
        let called = match to {
            MIRCallee::Symbol(name) => loaded + op1("call"@, symbol_chars(name@)),
            MIRCallee::Reg(reg) => {
                let r = read_at_s(b, reg, sc0(b, Class::Int), 8);
                loaded + r.0 + op1("call"@, seq!['*'] + r.1)
            },
        };
        let answered = match def {
            None => called,
            Some(d) => {
                let h = named_s(answer_s(b, reg_class(b, d)), reg_bytes(b, d));
                called + only(place_s(b, d) != h, op2(mov_s(b, d), h, place_s(b, d)))
            },
        };
        (answered, None)
    }
}

fn call(out: &mut String, b: &Body, def: Option<MIRRegId>, to: &MIRCallee, args: &Vec<MIRRegId>) -> (r: Option<String>)
    requires
        workable(b),
    ensures
        final(out)@ == call_s(old(out)@, b, def, *to, args@).0,
        match r {
            Some(x) => call_s(old(out)@, b, def, *to, args@).1 == Some(x@),
            None => call_s(old(out)@, b, def, *to, args@).1 is None,
        },
{
    reveal(call_s);
    let ghost start = old(out)@;
    let mut classes: Vec<Class> = Vec::new();
    let mut i: usize = 0;
    while i < args.len()
        invariant
            i <= args@.len(),
            classes@ == arg_classes(b, args@).subrange(0, i as int),
        decreases args@.len() - i,
    {
        classes.push(b.class(args[i]));
        proof {
            assert(classes@ =~= arg_classes(b, args@).subrange(0, i + 1));
        }
        i = i + 1;
    }
    proof {
        assert(classes@ =~= arg_classes(b, args@));
    }
    let want = passing(b.m, classes.as_slice());
    let mut missing = false;
    let mut j: usize = 0;
    while j < want.len()
        invariant
            j <= want@.len(),
            want@.len() == args@.len(),
            forall|k: int| 0 <= k < want@.len() ==> want@[k] == passed_in(*b.m, arg_classes(b, args@), k),
            missing == exists|k: int| 0 <= k < j && (#[trigger] passed_in(*b.m, arg_classes(b, args@), k)) is None,
        decreases want@.len() - j,
    {
        if want[j].is_none() {
            missing = true;
        }
        proof {
            if missing {
                if want@[j as int] is None {
                    assert(passed_in(*b.m, arg_classes(b, args@), j as int) is None);
                }
            }
        }
        j = j + 1;
    }
    if missing {
        return Some(too_many_text(b, args.len()));
    }
    let mut moves: Vec<(Reg, Reg)> = Vec::new();
    let mut at: usize = 0;
    while at < args.len()
        invariant
            at <= args@.len(),
            want@.len() == args@.len(),
            forall|k: int| 0 <= k < want@.len() ==> want@[k] == passed_in(*b.m, arg_classes(b, args@), k),
            moves@ == call_moves(b, args@, at as int),
        decreases args@.len() - at,
    {
        match want[at] {
            Some(into) => match b.site(args[at]) {
                Site::In(from) => moves.push((into, from)),
                _ => {},
            },
            None => {},
        }
        at = at + 1;
    }
    shuffle(out, b, moves.as_slice());
    let ghost shuffled = out@;
    let mut at: usize = 0;
    while at < args.len()
        invariant
            workable(b),
            at <= args@.len(),
            want@.len() == args@.len(),
            forall|k: int| 0 <= k < want@.len() ==> want@[k] == passed_in(*b.m, arg_classes(b, args@), k),
            out@ == call_loads(shuffled, b, args@, at as int),
        decreases args@.len() - at,
    {
        let arg = args[at];
        match want[at] {
            Some(into) => match b.site(arg) {
                Site::In(_) => {},
                _ => {
                    let how = mov(b, arg);
                    let from = place(b, arg);
                    let name = named(into, b.bytes(arg));
                    put2(out, how.as_str(), from.as_str(), name.as_str());
                },
            },
            None => {},
        }
        at = at + 1;
    }
    match to {
        MIRCallee::Symbol(name) => {
            let s = symbol(name.as_str());
            put1(out, "call", s.as_str());
        },
        MIRCallee::Reg(reg) => {
            let h = read_at(out, b, *reg, scratch(b.m, 0, Class::Int), 8);
            let mut target = String::new();
            push_char(&mut target, '*');
            push_text(&mut target, h.as_str());
            put1(out, "call", target.as_str());
            proof {
                assert(target@ =~= seq!['*'] + h@);
            }
        },
    }
    match def {
        None => {},
        Some(d) => {
            let from = b.m.answering(b.class(d));
            let h = named(from, b.bytes(d));
            let at = place(b, d);
            if !same_text(at.as_str(), h.as_str()) {
                let how = mov(b, d);
                put2(out, how.as_str(), h.as_str(), at.as_str());
            }
        },
    }
    proof {
        assert(out@ =~= call_s(start, b, def, *to, args@).0);
    }
    None
}

// ---- One body --------------------------------------------------------------

/// One instruction, written after `pre`, what is said of it where it cannot
/// be written, and the floating literals under the body after it. An
/// instruction with no answer that needs one writes nothing, and so do the
/// vector instructions, which are refused by name.
pub open spec fn inst_s(pre: Seq<char>, b: &Body, inst: MIRInst, lits: (Seq<char>, nat)) -> (
    Seq<char>,
    Option<Seq<char>>,
    (Seq<char>, nat),
) {
    match inst.kind {
        MIRInstKind::Const(held) => match inst.def {
            Some(def) => {
                let r = const_s(pre, b, def, held, lits);
                (r.0, None, r.1)
            },
            None => (pre, None, lits),
        },
        MIRInstKind::Move(of) => match inst.def {
            Some(def) => (move_s(pre, b, def, of), None, lits),
            None => (pre, None, lits),
        },
        MIRInstKind::Un { op, operand } => match inst.def {
            Some(def) => {
                let r = un_s(pre, b, def, op, operand, lits);
                (r.0, None, r.1)
            },
            None => (pre, None, lits),
        },
        MIRInstKind::Bin { op, lhs, rhs } => match inst.def {
            Some(def) => (binary_s(pre, b, def, op, lhs, rhs), None, lits),
            None => (pre, None, lits),
        },
        MIRInstKind::Cmp { op, lhs, rhs } => match inst.def {
            Some(def) => (compare_s(pre, b, def, op, lhs, rhs), None, lits),
            None => (pre, None, lits),
        },
        MIRInstKind::Convert { of, from, to } => match inst.def {
            Some(def) => (convert_s(pre, b, def, of, from, to), None, lits),
            None => (pre, None, lits),
        },
        MIRInstKind::Frame(slot) => match inst.def {
            Some(def) => (lea_s(pre, b, def, frame_at_s(slot_off(b, slot))), None, lits),
            None => (pre, None, lits),
        },
        MIRInstKind::Symbol(name) => match inst.def {
            Some(def) => (lea_s(pre, b, def, rip_s(symbol_chars(name@))), None, lits),
            None => (pre, None, lits),
        },
        MIRInstKind::Offset { base, bytes } => match inst.def {
            Some(def) => (offset_s(pre, b, def, base, bytes), None, lits),
            None => (pre, None, lits),
        },
        MIRInstKind::Scaled { base, index, scale } => match inst.def {
            Some(def) => (scaled_s(pre, b, def, base, index, scale), None, lits),
            None => (pre, None, lits),
        },
        MIRInstKind::Load { from, bytes } => match inst.def {
            Some(def) => (load_s(pre, b, def, from, bytes), None, lits),
            None => (pre, None, lits),
        },
        MIRInstKind::Store { to, value, bytes } => (store_s(pre, b, to, value, bytes), None, lits),
        MIRInstKind::Copy { to, from, bytes } => (copy_s(pre, b, to, from, bytes), None, lits),
        MIRInstKind::Call { to, args } => {
            let r = call_s(pre, b, inst.def, to, args@);
            (r.0, r.1, lits)
        },
        _ => (pre, None, lits),
    }
}

fn inst_of(out: &mut String, b: &Body, inst: &MIRInst, lits: &mut String, n: &mut usize) -> (r: Option<String>)
    requires
        workable(b),
        *old(n) < usize::MAX,
    ensures
        final(out)@ == inst_s(old(out)@, b, *inst, (old(lits)@, *old(n) as nat)).0,
        match r {
            Some(x) => inst_s(old(out)@, b, *inst, (old(lits)@, *old(n) as nat)).1 == Some(x@),
            None => inst_s(old(out)@, b, *inst, (old(lits)@, *old(n) as nat)).1 is None,
        },
        (final(lits)@, *final(n) as nat) == inst_s(old(out)@, b, *inst, (old(lits)@, *old(n) as nat)).2,
{
    match &inst.kind {
        MIRInstKind::Const(held) => match inst.def {
            Some(def) => const_of(out, b, def, *held, lits, n),
            None => {},
        },
        MIRInstKind::Move(of) => match inst.def {
            Some(def) => move_into(out, b, def, *of),
            None => {},
        },
        MIRInstKind::Un { op, operand } => match inst.def {
            Some(def) => un_of(out, b, def, *op, *operand, lits, n),
            None => {},
        },
        MIRInstKind::Bin { op, lhs, rhs } => match inst.def {
            Some(def) => binary(out, b, def, *op, *lhs, *rhs),
            None => {},
        },
        MIRInstKind::Cmp { op, lhs, rhs } => match inst.def {
            Some(def) => compare(out, b, def, *op, *lhs, *rhs),
            None => {},
        },
        MIRInstKind::Convert { of, from, to } => match inst.def {
            Some(def) => convert(out, b, def, *of, *from, *to),
            None => {},
        },
        MIRInstKind::Frame(slot) => match inst.def {
            Some(def) => {
                let off = if *slot < b.offsets.len() { b.offsets[*slot] } else { b.m.word };
                let from = frame_at(off);
                lea(out, b, def, from.as_str());
            },
            None => {},
        },
        MIRInstKind::Symbol(name) => match inst.def {
            Some(def) => {
                let mut from = symbol(name.as_str());
                push_text(&mut from, "(%rip)");
                lea(out, b, def, from.as_str());
            },
            None => {},
        },
        MIRInstKind::Offset { base, bytes } => match inst.def {
            Some(def) => offset_of(out, b, def, *base, *bytes),
            None => {},
        },
        MIRInstKind::Scaled { base, index, scale } => match inst.def {
            Some(def) => scaled_of(out, b, def, *base, *index, *scale),
            None => {},
        },
        MIRInstKind::Load { from, bytes } => match inst.def {
            Some(def) => load_into(out, b, def, *from, *bytes),
            None => {},
        },
        MIRInstKind::Store { to, value, bytes } => store_into(out, b, *to, *value, *bytes),
        MIRInstKind::Copy { to, from, bytes } => copy_of(out, b, *to, *from, *bytes),
        MIRInstKind::Call { to, args } => return call(out, b, inst.def, to, args),
        _ => {},
    }
    None
}

/// After `pre`, the first `k` lines of the body, what was said of them, and
/// the floating literals they wanted.
pub open spec fn lines_s(pre: Seq<char>, b: &Body, k: int) -> (Seq<char>, Seq<Seq<char>>, (Seq<char>, nat))
    decreases k,
{
    if k <= 0 {
        (pre, Seq::empty(), (Seq::empty(), 0))
    } else {
        let p = lines_s(pre, b, k - 1);
        match b.held.lines@[k - 1] {
            Line::Label(at) => (p.0 + label_line(label_text(b.index, at)), p.1, p.2),
            Line::Inst(inst) => {
                let r = inst_s(p.0, b, inst, p.2);
                (
                    r.0,
                    match r.1 {
                        Some(x) => p.1.push(x),
                        None => p.1,
                    },
                    r.2,
                )
            },
            Line::Term(held) => (p.0 + term_s(b, held), p.1, p.2),
        }
    }
}

proof fn lits_counted(pre: Seq<char>, b: &Body, k: int)
    requires
        0 <= k <= b.held.lines@.len(),
    ensures
        lines_s(pre, b, k).2.1 <= k,
    decreases k,
{
    if k > 0 {
        lits_counted(pre, b, k - 1);
        reveal(const_s);
        reveal(un_s);
    }
}

/// What comes before the first line of a body: the section, its symbol made
/// visible to the linker and typed a function, its label, and the prologue.
pub open spec fn head_s(b: &Body) -> Seq<char> {
    let name = symbol_chars(b.held.symbol@);
    op0(".text"@) + op1(".globl"@, name) + op2(".type"@, name, "@function"@) + label_line(name) + prologue_s(b)
}

/// One body as x86-64 assembly, and everything said about what could not be
/// written: the vector instructions it holds, each named once, then each
/// call with an argument for the stack, in order. The floating literals the
/// body wanted go under it, in `.rodata`, where there are any.
pub open spec fn body_s(b: &Body) -> (Seq<char>, Seq<Seq<char>>) {
    let name = symbol_chars(b.held.symbol@);
    let l = lines_s(head_s(b), b, b.held.lines@.len() as int);
    (
        l.0 + op2(".size"@, name, ".-"@ + name) + only(l.2.1 > 0, op1(".section"@, ".rodata"@) + l.2.0 + op0(".text"@)),
        refusals(*b.held, b.held.lines@.len() as int) + l.1,
    )
}

/// One body as x86-64 assembly, and everything said about what could not be
/// written. A body with a complaint against it is still written, minus the
/// instruction that could not be.
pub fn body(b: &Body) -> (r: (String, Vec<String>))
    requires
        workable(b),
    ensures
        r.0@ == body_s(b).0,
        r.1@.map_values(|x: String| x@) == body_s(b).1,
{
    let mut said = refuses(b.held);
    let ghost first = said@.map_values(|x: String| x@);
    let mut out = String::new();
    let name = symbol(b.held.symbol.as_str());
    put0(&mut out, ".text");
    put1(&mut out, ".globl", name.as_str());
    put2(&mut out, ".type", name.as_str(), "@function");
    put_label(&mut out, name.as_str());
    prologue(&mut out, b);
    proof {
        assert(out@ =~= head_s(b));
    }
    let ghost head = out@;
    let mut lits = String::new();
    let mut n: usize = 0;
    let mut k: usize = 0;
    proof {
        assert(lits@ =~= Seq::<char>::empty());
    }
    while k < b.held.lines.len()
        invariant
            workable(b),
            k <= b.held.lines@.len(),
            first == refusals(*b.held, b.held.lines@.len() as int),
            out@ == lines_s(head, b, k as int).0,
            said@.map_values(|x: String| x@) == first + lines_s(head, b, k as int).1,
            (lits@, n as nat) == lines_s(head, b, k as int).2,
        decreases b.held.lines@.len() - k,
    {
        proof {
            lits_counted(head, b, k as int);
        }
        let ghost before = said@.map_values(|x: String| x@);
        match &b.held.lines[k] {
            Line::Label(at) => {
                let l = label(b, *at);
                put_label(&mut out, l.as_str());
            },
            Line::Inst(inst) => {
                match inst_of(&mut out, b, inst, &mut lits, &mut n) {
                    Some(complaint) => {
                        said.push(complaint);
                        proof {
                            assert(said@.map_values(|x: String| x@) =~= before.push(said@[said@.len() - 1]@));
                        }
                    },
                    None => {},
                }
            },
            Line::Term(held) => term(&mut out, b, held),
        }
        proof {
            assert(said@.map_values(|x: String| x@) =~= first + lines_s(head, b, k + 1).1);
        }
        k = k + 1;
    }
    let mut size = owned(".-");
    push_text(&mut size, name.as_str());
    put2(&mut out, ".size", name.as_str(), size.as_str());
    let ghost sized_out = out@;
    if n > 0 {
        put1(&mut out, ".section", ".rodata");
        push_text(&mut out, lits.as_str());
        put0(&mut out, ".text");
    }
    proof {
        assert(out@ =~= body_s(b).0);
    }
    (out, said)
}

/// The constant pool, in `.rodata`, every entry aligned to eight bytes: x86-64 counts an alignment in bytes.
pub fn pool(held: &[MIRConstant]) -> (r: String)
    ensures
        r@ == pool_text(held@, "\t.align\t8\n"@),
{
    pool_with(held, "\t.align\t8\n")
}

} // verus!
