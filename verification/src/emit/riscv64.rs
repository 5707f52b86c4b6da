//! RV64GC under the LP64D convention, in the syntax both GNU `as` and LLVM's
//! assembler take.
//!
//! The destination comes first and nothing but a load or a store touches
//! memory. This machine has no flags and no narrow arithmetic: a comparison
//! is a value, written straight into a register, and a branch is `bnez` on
//! it; and a value narrower than a word is extended before anything is
//! concluded about its sign -- before a comparison, a division, a shift that
//! brings the sign down, and on the way into the float file.
//!
//! `li`, `la` and `call` are the assembler's and not the machine's: each
//! expands into two or three real instructions.

use vstd::prelude::*;
use crate::emit::aarch64::{power_below, power_of, shift_of, workable, has_scratch, scratch_s, saved_off};
use crate::emit::body::{label, label_text, refusals, refuses, reg_bytes, reg_class, reg_site, Body};
use crate::emit::line::{label_line, op0, op1, op2, op3, put0, put1, put2, put3, put_label};
use crate::emit::{order_of, ordered, passed_in, passing, pool_text, pool_with, symbol, symbol_chars, Site, Step};
use crate::linear::Line;
use crate::machine::{same_text, Class, Machine, Reg};
use crate::mir_nodes::{
    MIRBinOp, MIRCallee, MIRCmpOp, MIRConst, MIRConstant, MIRInst, MIRInstKind, MIRRegId, MIRScalar, MIRTerm, MIRUnOp,
    compares_integers, comparison_holds, compares_signed, signed_of,
};
use crate::spell::{decimal, owned, push_decimal, push_signed, push_text, signed_decimal};

verus! {

// ---- Numbers, as text ------------------------------------------------------

/// A count in decimal.
pub open spec fn dec(n: usize) -> Seq<char> {
    decimal(n as nat)
}

/// A signed number in decimal.
pub open spec fn sdec(n: i64) -> Seq<char> {
    signed_decimal(n as int)
}

/// A count below nought: a minus and the count.
pub open spec fn neg(n: usize) -> Seq<char> {
    seq!['-'] + dec(n)
}

fn dec_text(n: usize) -> (r: String)
    ensures
        r@ == dec(n),
{
    let mut out = String::new();
    push_decimal(&mut out, n);
    proof {
        assert(out@ =~= dec(n));
    }
    out
}

fn sdec_text(n: i64) -> (r: String)
    ensures
        r@ == sdec(n),
{
    let mut out = String::new();
    push_signed(&mut out, n);
    proof {
        assert(out@ =~= sdec(n));
    }
    out
}

fn neg_text(n: usize) -> (r: String)
    ensures
        r@ == neg(n),
{
    let mut out = owned("-");
    push_decimal(&mut out, n);
    proof {
        reveal_strlit("-");
        assert(out@ =~= neg(n));
    }
    out
}

/// Some text, then more, then more.
fn joined(a: &str, c: &str, d: &str) -> (r: String)
    ensures
        r@ == a@ + c@ + d@,
{
    let mut out = owned(a);
    push_text(&mut out, c);
    push_text(&mut out, d);
    out
}

// ---- Naming ----------------------------------------------------------------

/// One name, whatever the width: the ABI names say all there is to say.
pub open spec fn named_s(reg: Reg) -> Seq<char> {
    reg.name@
}

fn named(reg: Reg) -> (r: String)
    ensures
        r@ == named_s(reg),
{
    owned(reg.name)
}

fn scratch(m: &Machine, which: usize, class: Class) -> (r: Reg)
    requires
        has_scratch(*m),
    ensures
        r == scratch_s(*m, which, class),
{
    let held = match class {
        Class::Int => &m.scratch,
        Class::Float => &m.fscratch,
    };
    let last = held.len() - 1;
    held[if which < last { which } else { last }]
}

/// How far the offsets of a block copy may run before the two addresses have
/// to step instead: under the twelve signed bits of a load or a store, with
/// room for the widest step.
pub const WINDOW: usize = 2016;

// ---- Addresses -------------------------------------------------------------

/// A slot of the frame: the offset stands as it is under two kilobytes, and
/// a bigger one is worked out into a scratch register first.
#[verifier::opaque]
pub open spec fn frame_op_s(off: usize, sc: Reg) -> (Seq<char>, Seq<char>) {
    if off <= 2048 {
        (Seq::empty(), neg(off) + "(s0)"@)
    } else {
        let held = named_s(sc);
        (op2("li"@, held, dec(off)) + op3("sub"@, held, "s0"@, held), "0("@ + held + ")"@)
    }
}

fn frame_op(out: &mut String, off: usize, sc: Reg) -> (r: String)
    ensures
        final(out)@ == old(out)@ + frame_op_s(off, sc).0,
        r@ == frame_op_s(off, sc).1,
{
    reveal(frame_op_s);
    if off <= 2048 {
        let mut n = neg_text(off);
        push_text(&mut n, "(s0)");
        return n;
    }
    let held = named(sc);
    let n = dec_text(off);
    let ghost before = out@;
    put2(out, "li", held.as_str(), n.as_str());
    put3(out, "sub", held.as_str(), "s0", held.as_str());
    proof {
        assert(out@ =~= before + frame_op_s(off, sc).0);
    }
    joined("0(", held.as_str(), ")")
}

/// The load for a value of a file and a width. The two narrow integer loads
/// are unsigned: nothing says whether a load is signed, so the extension
/// that adds nothing is the one made.
pub open spec fn load_of_s(class: Class, bytes: usize) -> &'static str {
    match class {
        Class::Float => if bytes <= 4 { "flw" } else { "fld" },
        Class::Int => if bytes == 1 { "lbu" } else if bytes == 2 { "lhu" } else if bytes == 4 { "lw" } else { "ld" },
    }
}

fn load_of(class: Class, bytes: usize) -> (r: &'static str)
    ensures
        r == load_of_s(class, bytes),
{
    match class {
        Class::Float => if bytes <= 4 { "flw" } else { "fld" },
        Class::Int => if bytes == 1 { "lbu" } else if bytes == 2 { "lhu" } else if bytes == 4 { "lw" } else { "ld" },
    }
}

/// The store for a value of a file and a width.
pub open spec fn store_of_s(class: Class, bytes: usize) -> &'static str {
    match class {
        Class::Float => if bytes <= 4 { "fsw" } else { "fsd" },
        Class::Int => if bytes == 1 { "sb" } else if bytes == 2 { "sh" } else if bytes == 4 { "sw" } else { "sd" },
    }
}

fn store_of(class: Class, bytes: usize) -> (r: &'static str)
    ensures
        r == store_of_s(class, bytes),
{
    match class {
        Class::Float => if bytes <= 4 { "fsw" } else { "fsd" },
        Class::Int => if bytes == 1 { "sb" } else if bytes == 2 { "sh" } else if bytes == 4 { "sw" } else { "sd" },
    }
}

/// The move for a value of a file and a width.
pub open spec fn mov_of_s(class: Class, bytes: usize) -> &'static str {
    match class {
        Class::Float => if bytes <= 4 { "fmv.s" } else { "fmv.d" },
        Class::Int => "mv",
    }
}

fn mov_of(class: Class, bytes: usize) -> (r: &'static str)
    ensures
        r == mov_of_s(class, bytes),
{
    match class {
        Class::Float => if bytes <= 4 { "fmv.s" } else { "fmv.d" },
        Class::Int => "mv",
    }
}

// ---- Reading and writing ---------------------------------------------------

/// A value in a register, loaded out of the frame where it lives there.
#[verifier::opaque]
pub open spec fn read_s(b: &Body, reg: MIRRegId, sc: Reg) -> (Seq<char>, Seq<char>) {
    let bytes = reg_bytes(b, reg);
    match reg_site(b, reg) {
        Site::In(held) => (Seq::empty(), named_s(held)),
        Site::Nowhere => (Seq::empty(), named_s(sc)),
        Site::At(off) => {
            let held = named_s(sc);
            let at = frame_op_s(off, scratch_s(*b.m, 2, Class::Int));
            (at.0 + op2(load_of_s(reg_class(b, reg), bytes)@, held, at.1), held)
        },
    }
}

fn read(out: &mut String, b: &Body, reg: MIRRegId, sc: Reg) -> (r: String)
    requires
        workable(b),
    ensures
        final(out)@ == old(out)@ + read_s(b, reg, sc).0,
        r@ == read_s(b, reg, sc).1,
{
    reveal(read_s);
    let bytes = b.bytes(reg);
    match b.site(reg) {
        Site::In(held) => named(held),
        Site::Nowhere => named(sc),
        Site::At(off) => {
            let held = named(sc);
            let ghost before = out@;
            let at = frame_op(out, off, scratch(b.m, 2, Class::Int));
            put2(out, load_of(b.class(reg), bytes), held.as_str(), at.as_str());
            proof {
                assert(out@ =~= before + read_s(b, reg, sc).0);
            }
            held
        },
    }
}

/// A value with every bit above its own width made to say the same thing:
/// sign for the signed questions, nought for the rest. `slt` reads all
/// sixty-four bits, so what is above a narrow value decides an answer. The
/// register it goes into is the caller's to name.
#[verifier::opaque]
pub open spec fn extend_s(b: &Body, reg: MIRRegId, held: Seq<char>, signed: bool, into: Reg) -> (Seq<char>, Seq<char>) {
    let bytes = reg_bytes(b, reg);
    if bytes >= 8 {
        (Seq::empty(), held)
    } else {
        let sc = named_s(into);
        let bits = dec((64 - bytes * 8) as usize);
        if signed {
            if bytes == 4 {
                (op2("sext.w"@, sc, held), sc)
            } else {
                (op3("slli"@, sc, held, bits) + op3("srai"@, sc, sc, bits), sc)
            }
        } else {
            (op3("slli"@, sc, held, bits) + op3("srli"@, sc, sc, bits), sc)
        }
    }
}

fn extend(out: &mut String, b: &Body, reg: MIRRegId, held: &str, signed: bool, into: Reg) -> (r: String)
    requires
        workable(b),
    ensures
        final(out)@ == old(out)@ + extend_s(b, reg, held@, signed, into).0,
        r@ == extend_s(b, reg, held@, signed, into).1,
{
    reveal(extend_s);
    let bytes = b.bytes(reg);
    if bytes >= 8 {
        return owned(held);
    }
    let sc = named(into);
    let bits = dec_text(64 - bytes * 8);
    let ghost before = out@;
    if signed {
        if bytes == 4 {
            put2(out, "sext.w", sc.as_str(), held);
        } else {
            put3(out, "slli", sc.as_str(), held, bits.as_str());
            put3(out, "srai", sc.as_str(), sc.as_str(), bits.as_str());
        }
    } else {
        put3(out, "slli", sc.as_str(), held, bits.as_str());
        put3(out, "srli", sc.as_str(), sc.as_str(), bits.as_str());
    }
    proof {
        assert(out@ =~= before + extend_s(b, reg, held@, signed, into).0);
    }
    sc
}

/// Where to compute an answer, and the offset to store it at afterwards
/// where it lives in the frame.
#[verifier::opaque]
pub open spec fn writing_s(b: &Body, def: MIRRegId, sc: Reg) -> (Seq<char>, Option<usize>) {
    match reg_site(b, def) {
        Site::In(held) => (named_s(held), None),
        Site::At(off) => (named_s(sc), Some(off)),
        Site::Nowhere => (named_s(sc), None),
    }
}

fn writing(b: &Body, def: MIRRegId, sc: Reg) -> (r: (String, Option<usize>))
    requires
        workable(b),
    ensures
        r.0@ == writing_s(b, def, sc).0,
        r.1 == writing_s(b, def, sc).1,
{
    reveal(writing_s);
    match b.site(def) {
        Site::In(held) => (named(held), None),
        Site::At(off) => (named(sc), Some(off)),
        Site::Nowhere => (named(sc), None),
    }
}

/// The store back into the frame, where the answer lives there.
#[verifier::opaque]
pub open spec fn stored_s(b: &Body, def: MIRRegId, held: Seq<char>, back: Option<usize>) -> Seq<char> {
    match back {
        None => Seq::empty(),
        Some(off) => {
            let at = frame_op_s(off, scratch_s(*b.m, 2, Class::Int));
            at.0 + op2(store_of_s(reg_class(b, def), reg_bytes(b, def))@, held, at.1)
        },
    }
}

fn stored(out: &mut String, b: &Body, def: MIRRegId, held: &str, back: Option<usize>)
    requires
        workable(b),
    ensures
        final(out)@ == old(out)@ + stored_s(b, def, held@, back),
{
    reveal(stored_s);
    match back {
        None => {},
        Some(off) => {
            let ghost before = out@;
            let at = frame_op(out, off, scratch(b.m, 2, Class::Int));
            put2(out, store_of(b.class(def), b.bytes(def)), held, at.as_str());
            proof {
                assert(out@ =~= before + stored_s(b, def, held@, back));
            }
        },
    }
}

// ---- The frame -------------------------------------------------------------

/// One move of a shuffle; the scratch register of the file is the one a
/// cycle is broken through.
pub open spec fn step_text(m: Machine, step: Step) -> Seq<char> {
    match step {
        Step::Move { to, from } => op2(mov_of_s(to.class, 8)@, named_s(to), named_s(from)),
        Step::Save(from) => op2(mov_of_s(from.class, 8)@, named_s(scratch_s(m, 1, from.class)), named_s(from)),
        Step::Restore(to) => op2(mov_of_s(to.class, 8)@, named_s(to), named_s(scratch_s(m, 1, to.class))),
    }
}

/// The moves of a shuffle, one after another.
pub open spec fn steps_text(m: Machine, steps: Seq<Step>) -> Seq<char>
    decreases steps.len(),
{
    if steps.len() == 0 {
        Seq::empty()
    } else {
        steps_text(m, steps.drop_last()) + step_text(m, steps.last())
    }
}

/// Several registers moved at once, in the order `ordered` gives.
pub open spec fn shuffle_s(m: Machine, moves: Seq<(Reg, Reg)>) -> Seq<char> {
    steps_text(m, order_of(moves))
}

fn shuffle(out: &mut String, b: &Body, moves: &[(Reg, Reg)])
    requires
        workable(b),
    ensures
        final(out)@ == old(out)@ + shuffle_s(*b.m, moves@),
{
    let steps = ordered(moves);
    let ghost start = old(out)@;
    let mut i: usize = 0;
    while i < steps.len()
        invariant
            workable(b),
            i <= steps@.len(),
            out@ == start + steps_text(*b.m, steps@.subrange(0, i as int)),
        decreases steps@.len() - i,
    {
        match steps[i] {
            Step::Move { to, from } => {
                let a = named(to);
                let c = named(from);
                put2(out, mov_of(to.class, 8), a.as_str(), c.as_str());
            },
            Step::Save(from) => {
                let a = named(scratch(b.m, 1, from.class));
                let c = named(from);
                put2(out, mov_of(from.class, 8), a.as_str(), c.as_str());
            },
            Step::Restore(to) => {
                let a = named(to);
                let c = named(scratch(b.m, 1, to.class));
                put2(out, mov_of(to.class, 8), a.as_str(), c.as_str());
            },
        }
        proof {
            assert(steps@.subrange(0, i + 1).drop_last() =~= steps@.subrange(0, i as int));
            assert(out@ =~= start + steps_text(*b.m, steps@.subrange(0, i + 1)));
        }
        i = i + 1;
    }
    proof {
        assert(steps@.subrange(0, steps@.len() as int) =~= steps@);
    }
}

/// The store for a saved register of a file, or the load back.
pub open spec fn saved_op(class: Class, store: bool) -> &'static str {
    match class {
        Class::Float => if store { "fsd" } else { "fld" },
        Class::Int => if store { "sd" } else { "ld" },
    }
}

/// The saved registers from the first on, each stored, or each loaded back.
pub open spec fn saves_upto(b: &Body, k: int, store: bool) -> Seq<char>
    decreases k,
{
    if k <= 0 {
        Seq::empty()
    } else {
        let held = b.saved@[k - 1];
        let at = frame_op_s(saved_off(b, k - 1), scratch_s(*b.m, 2, Class::Int));
        saves_upto(b, k - 1, store) + at.0 + op2(saved_op(held.class, store)@, named_s(held), at.1)
    }
}

proof fn saved_off_fits(b: &Body, which: int)
    requires
        workable(b),
        0 <= which < b.saved@.len(),
    ensures
        (which + 1) * b.m.word <= usize::MAX,
        which < usize::MAX,
{
    assert((which + 1) * b.m.word <= b.saved@.len() * b.m.word && which + 1 <= (which + 1) * b.m.word) by (nonlinear_arith)
        requires
            0 <= which < b.saved@.len(),
            b.m.word >= 1,
    ;
}

fn saves(out: &mut String, b: &Body, store: bool)
    requires
        workable(b),
    ensures
        final(out)@ == old(out)@ + saves_upto(b, b.saved@.len() as int, store),
{
    let ghost start = old(out)@;
    let mut which: usize = 0;
    while which < b.saved.len()
        invariant
            workable(b),
            which <= b.saved@.len(),
            out@ == start + saves_upto(b, which as int, store),
        decreases b.saved@.len() - which,
    {
        proof {
            saved_off_fits(b, which as int);
        }
        let held = b.saved[which];
        let at = b.saved_at(which);
        let one = frame_op(out, at, scratch(b.m, 2, Class::Int));
        let name = named(held);
        let what = match held.class {
            Class::Float => if store { "fsd" } else { "fld" },
            Class::Int => if store { "sd" } else { "ld" },
        };
        put2(out, what, name.as_str(), one.as_str());
        proof {
            assert(out@ =~= start + saves_upto(b, which + 1, store));
        }
        which = which + 1;
    }
}

/// The file of each parameter.
pub open spec fn param_classes(b: &Body) -> Seq<Class> {
    b.held.params@.map_values(|reg: MIRRegId| reg_class(b, reg))
}

/// The first `k` parameters: each stored into the frame where it lives
/// there, and the moves into registers for the ones that live in one.
pub open spec fn params_upto(b: &Body, k: int) -> (Seq<char>, Seq<(Reg, Reg)>)
    decreases k,
{
    if k <= 0 {
        (Seq::empty(), Seq::empty())
    } else {
        let prev = params_upto(b, k - 1);
        let reg = b.held.params@[k - 1];
        match passed_in(*b.m, param_classes(b), k - 1) {
            None => prev,
            Some(from) => match reg_site(b, reg) {
                Site::At(off) => {
                    let at = frame_op_s(off, scratch_s(*b.m, 2, Class::Int));
                    (prev.0 + at.0 + op2(store_of_s(reg_class(b, reg), reg_bytes(b, reg))@, named_s(from), at.1), prev.1)
                },
                Site::In(to) => (prev.0, prev.1.push((to, from))),
                Site::Nowhere => prev,
            },
        }
    }
}

/// The parameters out of the registers they arrived in.
pub open spec fn params_s(b: &Body) -> Seq<char> {
    let done = params_upto(b, b.held.params@.len() as int);
    done.0 + shuffle_s(*b.m, done.1)
}

fn params(out: &mut String, b: &Body)
    requires
        workable(b),
    ensures
        final(out)@ == old(out)@ + params_s(b),
{
    let mut classes: Vec<Class> = Vec::new();
    let mut i: usize = 0;
    while i < b.held.params.len()
        invariant
            i <= b.held.params@.len(),
            classes@ == param_classes(b).subrange(0, i as int),
        decreases b.held.params@.len() - i,
    {
        classes.push(b.class(b.held.params[i]));
        proof {
            assert(classes@ =~= param_classes(b).subrange(0, i + 1));
        }
        i = i + 1;
    }
    proof {
        assert(classes@ =~= param_classes(b));
    }
    let held = passing(b.m, classes.as_slice());
    let ghost start = old(out)@;
    let mut moves: Vec<(Reg, Reg)> = Vec::new();
    let mut at: usize = 0;
    while at < b.held.params.len()
        invariant
            workable(b),
            at <= b.held.params@.len(),
            held@.len() == b.held.params@.len(),
            forall|j: int| 0 <= j < held@.len() ==> held@[j] == passed_in(*b.m, param_classes(b), j),
            out@ == start + params_upto(b, at as int).0,
            moves@ == params_upto(b, at as int).1,
        decreases b.held.params@.len() - at,
    {
        let reg = b.held.params[at];
        match held[at] {
            None => {},
            Some(from) => match b.site(reg) {
                Site::At(off) => {
                    let one = frame_op(out, off, scratch(b.m, 2, Class::Int));
                    let name = named(from);
                    put2(out, store_of(b.class(reg), b.bytes(reg)), name.as_str(), one.as_str());
                },
                Site::In(to) => moves.push((to, from)),
                Site::Nowhere => {},
            },
        }
        proof {
            assert(out@ =~= start + params_upto(b, at + 1).0);
        }
        at = at + 1;
    }
    shuffle(out, b, moves.as_slice());
    proof {
        assert(final(out)@ =~= start + params_s(b));
    }
}

/// The return address and the old frame pointer go down first, and the frame
/// pointer is left pointing at the pair, so every slot below it is at a
/// negative offset; then the frame, the saved registers, and the parameters.
pub open spec fn prologue_s(b: &Body) -> Seq<char> {
    op3("addi"@, "sp"@, "sp"@, "-16"@) + op2("sd"@, "ra"@, "8(sp)"@) + op2("sd"@, "s0"@, "0(sp)"@) + op3(
        "addi"@,
        "s0"@,
        "sp"@,
        "0"@,
    ) + (if b.frame > 0 {
        if b.frame <= 2048 {
            op3("addi"@, "sp"@, "sp"@, neg(b.frame))
        } else {
            op2("li"@, "t0"@, dec(b.frame)) + op3("sub"@, "sp"@, "sp"@, "t0"@)
        }
    } else {
        Seq::empty()
    }) + saves_upto(b, b.saved@.len() as int, true) + params_s(b)
}

fn prologue(out: &mut String, b: &Body)
    requires
        workable(b),
    ensures
        final(out)@ == old(out)@ + prologue_s(b),
{
    let ghost start = old(out)@;
    put3(out, "addi", "sp", "sp", "-16");
    put2(out, "sd", "ra", "8(sp)");
    put2(out, "sd", "s0", "0(sp)");
    put3(out, "addi", "s0", "sp", "0");
    if b.frame > 0 {
        if b.frame <= 2048 {
            let n = neg_text(b.frame);
            put3(out, "addi", "sp", "sp", n.as_str());
        } else {
            let n = dec_text(b.frame);
            put2(out, "li", "t0", n.as_str());
            put3(out, "sub", "sp", "sp", "t0");
        }
    }
    saves(out, b, true);
    params(out, b);
    proof {
        assert(final(out)@ =~= start + prologue_s(b));
    }
}

/// Each saved register back, the stack back to the frame pointer, the pair
/// back, and the frame off.
pub open spec fn epilogue_s(b: &Body) -> Seq<char> {
    saves_upto(b, b.saved@.len() as int, false) + op3("addi"@, "sp"@, "s0"@, "0"@) + op2("ld"@, "s0"@, "0(sp)"@) + op2(
        "ld"@,
        "ra"@,
        "8(sp)"@,
    ) + op3("addi"@, "sp"@, "sp"@, "16"@) + op0("ret"@)
}

fn epilogue(out: &mut String, b: &Body)
    requires
        workable(b),
    ensures
        final(out)@ == old(out)@ + epilogue_s(b),
{
    let ghost start = old(out)@;
    saves(out, b, false);
    put3(out, "addi", "sp", "s0", "0");
    put2(out, "ld", "s0", "0(sp)");
    put2(out, "ld", "ra", "8(sp)");
    put3(out, "addi", "sp", "sp", "16");
    put0(out, "ret");
    proof {
        assert(final(out)@ =~= start + epilogue_s(b));
    }
}

/// A block's way out. No flags, so a branch is on the value the comparison
/// made; the one that cannot be reached is an instruction that faults.
pub open spec fn term_s(b: &Body, held: MIRTerm) -> Seq<char> {
    match held {
        MIRTerm::Goto(to) => op1("j"@, label_text(b.index, to)),
        MIRTerm::Branch { cond, then, els } => {
            let r = read_s(b, cond, scratch_s(*b.m, 0, Class::Int));
            r.0 + op2("bnez"@, r.1, label_text(b.index, then)) + op1("j"@, label_text(b.index, els))
        },
        MIRTerm::Return(value) => (match value {
            None => Seq::empty(),
            Some(reg) => {
                let class = reg_class(b, reg);
                let want = match class {
                    Class::Int => b.m.ret,
                    Class::Float => b.m.fret,
                };
                let held = named_s(want);
                let r = read_s(b, reg, scratch_s(*b.m, 0, class));
                r.0 + if r.1 != held { op2(mov_of_s(class, reg_bytes(b, reg))@, held, r.1) } else { Seq::empty() }
            },
        }) + epilogue_s(b),
        MIRTerm::Unreachable => op0("unimp"@),
    }
}

fn term(out: &mut String, b: &Body, held: &MIRTerm)
    requires
        workable(b),
    ensures
        final(out)@ == old(out)@ + term_s(b, *held),
{
    let ghost start = old(out)@;
    match held {
        MIRTerm::Goto(to) => {
            let l = label(b, *to);
            put1(out, "j", l.as_str());
        },
        MIRTerm::Branch { cond, then, els } => {
            let one = read(out, b, *cond, scratch(b.m, 0, Class::Int));
            let l = label(b, *then);
            put2(out, "bnez", one.as_str(), l.as_str());
            let l2 = label(b, *els);
            put1(out, "j", l2.as_str());
        },
        MIRTerm::Return(value) => {
            match value {
                None => {},
                Some(reg) => {
                    let class = b.class(*reg);
                    let want = b.m.answering(class);
                    let name = named(want);
                    let one = read(out, b, *reg, scratch(b.m, 0, class));
                    if !same_text(one.as_str(), name.as_str()) {
                        put2(out, mov_of(class, b.bytes(*reg)), name.as_str(), one.as_str());
                    }
                },
            }
            epilogue(out, b);
        },
        MIRTerm::Unreachable => {
            put0(out, "unimp");
        },
    }
    proof {
        assert(final(out)@ =~= start + term_s(b, *held));
    }
}

// ---- The instructions ------------------------------------------------------

/// The low four bytes of what a float constant holds, as a number.
pub open spec fn low_word(bits: u64) -> usize {
    (#[verifier::truncate] (bits as u32)) as usize
}

/// The same bits as a signed word.
pub open spec fn bits_word(bits: u64) -> i64 {
    #[verifier::truncate] (bits as i64)
}

fn low_word_of(bits: u64) -> (r: usize)
    ensures
        r == low_word(bits),
{
    (#[verifier::truncate] (bits as u32)) as usize
}

fn bits_word_of(bits: u64) -> (r: i64)
    ensures
        r == bits_word(bits),
{
    #[verifier::truncate] (bits as i64)
}

/// A constant into its register. A float goes in through an integer
/// register, this machine having no way to put a constant into a float one;
/// `fmv.w.x` and `fmv.d.x` move the bits and do not convert.
pub open spec fn const_s(pre: Seq<char>, b: &Body, def: MIRRegId, held: MIRConst) -> Seq<char> {
    let w = writing_s(b, def, scratch_s(*b.m, 0, reg_class(b, def)));
    let made = match held {
        MIRConst::Int(n) => pre + op2("li"@, w.0, sdec(n)),
        MIRConst::Float(bits) => {
            let sc = named_s(scratch_s(*b.m, 0, Class::Int));
            if reg_bytes(b, def) <= 4 {
                pre + op2("li"@, sc, dec(low_word(bits))) + op2("fmv.w.x"@, w.0, sc)
            } else {
                pre + op2("li"@, sc, sdec(bits_word(bits))) + op2("fmv.d.x"@, w.0, sc)
            }
        },
    };
    made + stored_s(b, def, w.0, w.1)
}

fn const_of(out: &mut String, b: &Body, def: MIRRegId, held: MIRConst)
    requires
        workable(b),
    ensures
        final(out)@ == const_s(old(out)@, b, def, held),
{
    let w = writing(b, def, scratch(b.m, 0, b.class(def)));
    match held {
        MIRConst::Int(n) => {
            let t = sdec_text(n);
            put2(out, "li", w.0.as_str(), t.as_str());
        },
        MIRConst::Float(bits) => {
            let sc = named(scratch(b.m, 0, Class::Int));
            if b.bytes(def) <= 4 {
                let t = dec_text(low_word_of(bits));
                put2(out, "li", sc.as_str(), t.as_str());
                put2(out, "fmv.w.x", w.0.as_str(), sc.as_str());
            } else {
                let t = sdec_text(bits_word_of(bits));
                put2(out, "li", sc.as_str(), t.as_str());
                put2(out, "fmv.d.x", w.0.as_str(), sc.as_str());
            }
        },
    }
    stored(out, b, def, w.0.as_str(), w.1);
}

/// One register into another.
pub open spec fn move_s(pre: Seq<char>, b: &Body, def: MIRRegId, of: MIRRegId) -> Seq<char> {
    let r = read_s(b, of, scratch_s(*b.m, 1, reg_class(b, of)));
    let w = writing_s(b, def, scratch_s(*b.m, 0, reg_class(b, def)));
    (if r.1 != w.0 {
        pre + r.0 + op2(mov_of_s(reg_class(b, def), reg_bytes(b, def))@, w.0, r.1)
    } else {
        pre + r.0
    }) + stored_s(b, def, w.0, w.1)
}

fn move_of(out: &mut String, b: &Body, def: MIRRegId, of: MIRRegId)
    requires
        workable(b),
    ensures
        final(out)@ == move_s(old(out)@, b, def, of),
{
    let a = read(out, b, of, scratch(b.m, 1, b.class(of)));
    let w = writing(b, def, scratch(b.m, 0, b.class(def)));
    if !same_text(a.as_str(), w.0.as_str()) {
        put2(out, mov_of(b.class(def), b.bytes(def)), w.0.as_str(), a.as_str());
    }
    stored(out, b, def, w.0.as_str(), w.1);
}

/// The mnemonic of a one-operand operation at a width: nought less the
/// operand is `neg`, with its `w` form for four bytes.
pub open spec fn un_name(op: MIRUnOp, narrow: bool) -> &'static str {
    match op {
        MIRUnOp::Neg => if narrow { "negw" } else { "neg" },
        MIRUnOp::Not => "not",
        MIRUnOp::FNeg => if narrow { "fneg.s" } else { "fneg.d" },
    }
}

/// A one-operand operation.
pub open spec fn un_s(pre: Seq<char>, b: &Body, def: MIRRegId, op: MIRUnOp, operand: MIRRegId) -> Seq<char> {
    let r = read_s(b, operand, scratch_s(*b.m, 1, reg_class(b, operand)));
    let w = writing_s(b, def, scratch_s(*b.m, 0, reg_class(b, def)));
    pre + r.0 + op2(un_name(op, reg_bytes(b, def) <= 4)@, w.0, r.1) + stored_s(b, def, w.0, w.1)
}

fn un_of(out: &mut String, b: &Body, def: MIRRegId, op: MIRUnOp, operand: MIRRegId)
    requires
        workable(b),
    ensures
        final(out)@ == un_s(old(out)@, b, def, op, operand),
{
    let a = read(out, b, operand, scratch(b.m, 1, b.class(operand)));
    let w = writing(b, def, scratch(b.m, 0, b.class(def)));
    let narrow = b.bytes(def) <= 4;
    let what = match op {
        MIRUnOp::Neg => if narrow { "negw" } else { "neg" },
        MIRUnOp::Not => "not",
        MIRUnOp::FNeg => if narrow { "fneg.s" } else { "fneg.d" },
    };
    put2(out, what, w.0.as_str(), a.as_str());
    stored(out, b, def, w.0.as_str(), w.1);
}

/// The base name of a two-operand operation on integers.
pub open spec fn int_name(op: MIRBinOp) -> Seq<char> {
    match op {
        MIRBinOp::Add => "add"@,
        MIRBinOp::Sub => "sub"@,
        MIRBinOp::Mul => "mul"@,
        MIRBinOp::SDiv => "div"@,
        MIRBinOp::UDiv => "divu"@,
        MIRBinOp::SRem => "rem"@,
        MIRBinOp::URem => "remu"@,
        MIRBinOp::And => "and"@,
        MIRBinOp::Or => "or"@,
        MIRBinOp::Xor => "xor"@,
        MIRBinOp::Shl => "sll"@,
        MIRBinOp::LShr => "srl"@,
        MIRBinOp::AShr => "sra"@,
        _ => "add"@,
    }
}

/// Whether an operation works on floats.
pub open spec fn is_float_op(op: MIRBinOp) -> bool {
    op == MIRBinOp::FAdd || op == MIRBinOp::FSub || op == MIRBinOp::FMul || op == MIRBinOp::FDiv
}

/// The mnemonic of a two-operand operation. The `w` forms work on thirty-two
/// bits and leave the answer sign-extended, which makes them the ones for a
/// value four bytes wide; `and`, `or` and `xor` have none and want none.
pub open spec fn mnemonic_s(op: MIRBinOp, narrow: bool) -> Seq<char> {
    match op {
        MIRBinOp::FAdd => if narrow { "fadd.s"@ } else { "fadd.d"@ },
        MIRBinOp::FSub => if narrow { "fsub.s"@ } else { "fsub.d"@ },
        MIRBinOp::FMul => if narrow { "fmul.s"@ } else { "fmul.d"@ },
        MIRBinOp::FDiv => if narrow { "fdiv.s"@ } else { "fdiv.d"@ },
        _ => if narrow && !(op == MIRBinOp::And || op == MIRBinOp::Or || op == MIRBinOp::Xor) {
            int_name(op) + seq!['w']
        } else {
            int_name(op)
        },
    }
}

fn mnemonic(op: MIRBinOp, narrow: bool) -> (r: String)
    ensures
        r@ == mnemonic_s(op, narrow),
{
    let held = match op {
        MIRBinOp::FAdd => return if narrow { owned("fadd.s") } else { owned("fadd.d") },
        MIRBinOp::FSub => return if narrow { owned("fsub.s") } else { owned("fsub.d") },
        MIRBinOp::FMul => return if narrow { owned("fmul.s") } else { owned("fmul.d") },
        MIRBinOp::FDiv => return if narrow { owned("fdiv.s") } else { owned("fdiv.d") },
        MIRBinOp::Add => "add",
        MIRBinOp::Sub => "sub",
        MIRBinOp::Mul => "mul",
        MIRBinOp::SDiv => "div",
        MIRBinOp::UDiv => "divu",
        MIRBinOp::SRem => "rem",
        MIRBinOp::URem => "remu",
        MIRBinOp::And => "and",
        MIRBinOp::Or => "or",
        MIRBinOp::Xor => "xor",
        MIRBinOp::Shl => "sll",
        MIRBinOp::LShr => "srl",
        MIRBinOp::AShr => "sra",
    };
    let wide = op == MIRBinOp::And || op == MIRBinOp::Or || op == MIRBinOp::Xor;
    let mut out = owned(held);
    if narrow && !wide {
        crate::spell::push_char(&mut out, 'w');
    }
    out
}

/// A two-operand operation. The ones that read the sign of a narrow operand,
/// and the ones whose answer is wider than an operand, have the operands
/// extended first; the right side of a shift is a count and needs nothing.
pub open spec fn binary_s(pre: Seq<char>, b: &Body, def: MIRRegId, op: MIRBinOp, lhs: MIRRegId, rhs: MIRRegId) -> Seq<char> {
    let bytes = reg_bytes(b, def);
    let a = read_s(b, lhs, scratch_s(*b.m, 0, reg_class(b, lhs)));
    let c = read_s(b, rhs, scratch_s(*b.m, 1, reg_class(b, rhs)));
    let signed = op == MIRBinOp::SDiv || op == MIRBinOp::SRem || op == MIRBinOp::AShr;
    let unsigned = op == MIRBinOp::UDiv || op == MIRBinOp::URem || op == MIRBinOp::LShr || reg_bytes(b, lhs) < bytes
        || reg_bytes(b, rhs) < bytes;
    let shift = op == MIRBinOp::AShr || op == MIRBinOp::LShr;
    let x = extend_s(b, lhs, a.1, signed, scratch_s(*b.m, 0, Class::Int));
    let y = extend_s(b, rhs, c.1, signed, scratch_s(*b.m, 1, Class::Int));
    let w = writing_s(b, def, scratch_s(*b.m, 2, reg_class(b, def)));
    let narrow = if is_float_op(op) { bytes <= 4 } else { bytes <= 4 && reg_class(b, def) == Class::Int };
    let read_in = pre + a.0 + c.0;
    (if signed || unsigned {
        if shift {
            read_in + x.0 + op3(mnemonic_s(op, narrow), w.0, x.1, c.1)
        } else {
            read_in + x.0 + y.0 + op3(mnemonic_s(op, narrow), w.0, x.1, y.1)
        }
    } else {
        read_in + op3(mnemonic_s(op, narrow), w.0, a.1, c.1)
    }) + stored_s(b, def, w.0, w.1)
}

fn binary(out: &mut String, b: &Body, def: MIRRegId, op: MIRBinOp, lhs: MIRRegId, rhs: MIRRegId)
    requires
        workable(b),
    ensures
        final(out)@ == binary_s(old(out)@, b, def, op, lhs, rhs),
{
    let bytes = b.bytes(def);
    let a = read(out, b, lhs, scratch(b.m, 0, b.class(lhs)));
    let c = read(out, b, rhs, scratch(b.m, 1, b.class(rhs)));
    let signed = op == MIRBinOp::SDiv || op == MIRBinOp::SRem || op == MIRBinOp::AShr;
    let unsigned = op == MIRBinOp::UDiv || op == MIRBinOp::URem || op == MIRBinOp::LShr || b.bytes(lhs) < bytes
        || b.bytes(rhs) < bytes;
    let float_op = op == MIRBinOp::FAdd || op == MIRBinOp::FSub || op == MIRBinOp::FMul || op == MIRBinOp::FDiv;
    let narrow = if float_op { bytes <= 4 } else { bytes <= 4 && b.class(def) == Class::Int };
    if signed || unsigned {
        let one = extend(out, b, lhs, a.as_str(), signed, scratch(b.m, 0, Class::Int));
        if op == MIRBinOp::AShr || op == MIRBinOp::LShr {
            let w = writing(b, def, scratch(b.m, 2, b.class(def)));
            let what = mnemonic(op, narrow);
            put3(out, what.as_str(), w.0.as_str(), one.as_str(), c.as_str());
            stored(out, b, def, w.0.as_str(), w.1);
        } else {
            let two = extend(out, b, rhs, c.as_str(), signed, scratch(b.m, 1, Class::Int));
            let w = writing(b, def, scratch(b.m, 2, b.class(def)));
            let what = mnemonic(op, narrow);
            put3(out, what.as_str(), w.0.as_str(), one.as_str(), two.as_str());
            stored(out, b, def, w.0.as_str(), w.1);
        }
    } else {
        let w = writing(b, def, scratch(b.m, 2, b.class(def)));
        let what = mnemonic(op, narrow);
        put3(out, what.as_str(), w.0.as_str(), a.as_str(), c.as_str());
        stored(out, b, def, w.0.as_str(), w.1);
    }
}


/// A comparison of two floats: one instruction, with the operands swapped
/// for the greater-than ones and a flip for not-equal.
pub open spec fn float_compare_s(pre: Seq<char>, op: MIRCmpOp, one: Seq<char>, a: Seq<char>, c: Seq<char>, wide: bool) -> Seq<char> {
    let at = if wide { "d"@ } else { "s"@ };
    match op {
        MIRCmpOp::FEq => pre + op3("feq."@ + at, one, a, c),
        MIRCmpOp::FNe => pre + op3("feq."@ + at, one, a, c) + op3("xori"@, one, one, "1"@),
        MIRCmpOp::FLt => pre + op3("flt."@ + at, one, a, c),
        MIRCmpOp::FLe => pre + op3("fle."@ + at, one, a, c),
        MIRCmpOp::FGt => pre + op3("flt."@ + at, one, c, a),
        _ => pre + op3("fle."@ + at, one, c, a),
    }
}

/// No two of the mnemonics a comparison is written with are spelled alike.
proof fn compare_names_apart()
    ensures
        "slt"@ != "sltu"@,
        "slt"@ != "xor"@,
        "slt"@ != "xori"@,
        "slt"@ != "seqz"@,
        "slt"@ != "snez"@,
        "sltu"@ != "xor"@,
        "sltu"@ != "xori"@,
        "sltu"@ != "seqz"@,
        "sltu"@ != "snez"@,
        "xor"@ != "xori"@,
        "xor"@ != "seqz"@,
        "xor"@ != "snez"@,
        "xori"@ != "seqz"@,
        "xori"@ != "snez"@,
        "seqz"@ != "snez"@,
{
    reveal_strlit("slt");
    reveal_strlit("sltu");
    reveal_strlit("xor");
    reveal_strlit("xori");
    reveal_strlit("seqz");
    reveal_strlit("snez");
    assert("slt"@.len() != "sltu"@.len());
    assert("slt"@[0] != "xor"@[0]);
    assert("slt"@.len() != "xori"@.len());
    assert("slt"@.len() != "seqz"@.len());
    assert("slt"@.len() != "snez"@.len());
    assert("sltu"@.len() != "xor"@.len());
    assert("sltu"@[0] != "xori"@[0]);
    assert("sltu"@[1] != "seqz"@[1]);
    assert("sltu"@[1] != "snez"@[1]);
    assert("xor"@.len() != "xori"@.len());
    assert("xor"@.len() != "seqz"@.len());
    assert("xor"@.len() != "snez"@.len());
    assert("xori"@[0] != "seqz"@[0]);
    assert("xori"@[0] != "snez"@[0]);
    assert("seqz"@[1] != "snez"@[1]);
}

/// One instruction of the kinds a comparison is written with: its mnemonic,
/// then its operands, the destination first.
pub ghost enum RvLine {
    Three(Seq<char>, Seq<char>, Seq<char>, Seq<char>),
    Two(Seq<char>, Seq<char>, Seq<char>),
}

/// An instruction as a line of assembly.
pub open spec fn rv_line_text(l: RvLine) -> Seq<char> {
    match l {
        RvLine::Three(m, d, a, b) => op3(m, d, a, b),
        RvLine::Two(m, d, a) => op2(m, d, a),
    }
}

/// Instructions as lines of assembly, one after another.
pub open spec fn rv_text(prog: Seq<RvLine>) -> Seq<char>
    decreases prog.len(),
{
    if prog.len() == 0 {
        Seq::empty()
    } else {
        rv_text(prog.drop_last()) + rv_line_text(prog.last())
    }
}

/// The register an instruction writes.
pub open spec fn rv_dest(l: RvLine) -> Seq<char> {
    match l {
        RvLine::Three(_, d, _, _) => d,
        RvLine::Two(_, d, _) => d,
    }
}

/// What an instruction writes, from the registers as they stand before it:
/// `slt` one where the first source is less than the second read as two's
/// complement, `sltu` the same read as they stand, `xor` the two sources
/// bit by bit, `xori` with `1` the source with its lowest bit flipped,
/// `seqz` one where the source is nought and `snez` one where it is not.
/// Anything else is not modelled, and leaves the destination as it was.
pub open spec fn rv_value(l: RvLine, regs: spec_fn(Seq<char>) -> u64) -> u64 {
    match l {
        RvLine::Three(m, d, a, b) => if m == "slt"@ {
            if signed_of(regs(a) as int, 64) < signed_of(regs(b) as int, 64) { 1 } else { 0 }
        } else if m == "sltu"@ {
            if regs(a) < regs(b) { 1 } else { 0 }
        } else if m == "xor"@ {
            regs(a) ^ regs(b)
        } else if m == "xori"@ && b == "1"@ {
            regs(a) ^ 1u64
        } else {
            regs(d)
        },
        RvLine::Two(m, d, a) => if m == "seqz"@ {
            if regs(a) == 0 { 1 } else { 0 }
        } else if m == "snez"@ {
            if regs(a) != 0 { 1 } else { 0 }
        } else {
            regs(d)
        },
    }
}

/// The registers after the instructions have run in order.
pub open spec fn rv_run(prog: Seq<RvLine>, regs: spec_fn(Seq<char>) -> u64) -> spec_fn(Seq<char>) -> u64
    decreases prog.len(),
{
    if prog.len() == 0 {
        regs
    } else {
        let before = rv_run(prog.drop_last(), regs);
        let l = prog.last();
        |r: Seq<char>| if r == rv_dest(l) { rv_value(l, before) } else { before(r) }
    }
}

proof fn two_lines(a: RvLine, b: RvLine, regs: spec_fn(Seq<char>) -> u64)
    ensures
        rv_text(seq![a, b]) == rv_line_text(a) + rv_line_text(b),
        rv_run(seq![a, b], regs)(rv_dest(b)) == rv_value(b, rv_run(seq![a], regs)),
        rv_run(seq![a], regs)(rv_dest(a)) == rv_value(a, regs),
{
    let p = seq![a, b];
    assert(p.drop_last() =~= seq![a]);
    assert(seq![a].drop_last() =~= Seq::<RvLine>::empty());
    assert(rv_text(Seq::<RvLine>::empty()) == Seq::<char>::empty());
    assert(rv_run(Seq::<RvLine>::empty(), regs) == regs);
    assert(rv_text(seq![a]) =~= rv_line_text(a));
}

proof fn one_line(a: RvLine, regs: spec_fn(Seq<char>) -> u64)
    ensures
        rv_text(seq![a]) == rv_line_text(a),
        rv_run(seq![a], regs)(rv_dest(a)) == rv_value(a, regs),
{
    assert(seq![a].drop_last() =~= Seq::<RvLine>::empty());
    assert(rv_text(Seq::<RvLine>::empty()) == Seq::<char>::empty());
    assert(rv_run(Seq::<RvLine>::empty(), regs) == regs);
    assert(rv_text(seq![a]) =~= rv_line_text(a));
}

/// What an integer comparison writes computes that comparison: the lines
/// are instructions that, run from any registers, leave one in the
/// destination exactly when the comparison holds of what the two operand
/// registers hold, and nought otherwise.
pub proof fn comparisons_compute(
    pre: Seq<char>,
    op: MIRCmpOp,
    one: Seq<char>,
    left: Seq<char>,
    right: Seq<char>,
    regs: spec_fn(Seq<char>) -> u64,
)
    requires
        compares_integers(op),
    ensures
        exists|prog: Seq<RvLine>|
            {
                &&& int_compare_s(pre, op, one, left, right, compares_signed(op)) == pre
                    + rv_text(prog)
                &&& rv_run(prog, regs)(one) == if comparison_holds(op, regs(left) as int, regs(right) as int, 64) {
                    1u64
                } else {
                    0u64
                }
            },
{
    compare_names_apart();
    reveal_strlit("1");
    let (l, r) = (regs(left), regs(right));
    assert((l ^ r == 0u64) <==> l == r) by (bit_vector);
    assert(0u64 ^ 1u64 == 1u64 && 1u64 ^ 1u64 == 0u64) by (bit_vector);
    let signed = compares_signed(op);
    let slt = if signed { "slt"@ } else { "sltu"@ };
    let flip = RvLine::Three("xori"@, one, one, "1"@);
    let prog = match op {
        MIRCmpOp::Eq => seq![RvLine::Three("xor"@, one, left, right), RvLine::Two("seqz"@, one, one)],
        MIRCmpOp::Ne => seq![RvLine::Three("xor"@, one, left, right), RvLine::Two("snez"@, one, one)],
        MIRCmpOp::SLt | MIRCmpOp::ULt => seq![RvLine::Three(slt, one, left, right)],
        MIRCmpOp::SGt | MIRCmpOp::UGt => seq![RvLine::Three(slt, one, right, left)],
        MIRCmpOp::SLe | MIRCmpOp::ULe => seq![RvLine::Three(slt, one, right, left), flip],
        _ => seq![RvLine::Three(slt, one, left, right), flip],
    };
    if prog.len() == 1 {
        one_line(prog[0], regs);
    } else {
        two_lines(prog[0], prog[1], regs);
    }
    assert(int_compare_s(pre, op, one, left, right, signed) =~= pre + rv_text(prog));
}

/// A comparison of two integers, each extended first. Equality is a
/// difference that is nought; the others are `slt` one way round or the
/// other, flipped where the question is the opposite one.
pub open spec fn int_compare_s(pre: Seq<char>, op: MIRCmpOp, one: Seq<char>, left: Seq<char>, right: Seq<char>, signed: bool) -> Seq<char> {
    let slt = if signed { "slt"@ } else { "sltu"@ };
    match op {
        MIRCmpOp::Eq => pre + op3("xor"@, one, left, right) + op2("seqz"@, one, one),
        MIRCmpOp::Ne => pre + op3("xor"@, one, left, right) + op2("snez"@, one, one),
        MIRCmpOp::SLt => pre + op3(slt, one, left, right),
        MIRCmpOp::ULt => pre + op3(slt, one, left, right),
        MIRCmpOp::SGt => pre + op3(slt, one, right, left),
        MIRCmpOp::UGt => pre + op3(slt, one, right, left),
        MIRCmpOp::SLe => pre + op3(slt, one, right, left) + op3("xori"@, one, one, "1"@),
        MIRCmpOp::ULe => pre + op3(slt, one, right, left) + op3("xori"@, one, one, "1"@),
        _ => pre + op3(slt, one, left, right) + op3("xori"@, one, one, "1"@),
    }
}

/// A comparison: a value here, written straight out.
pub open spec fn compare_s(pre: Seq<char>, b: &Body, def: MIRRegId, op: MIRCmpOp, lhs: MIRRegId, rhs: MIRRegId) -> Seq<char> {
    let a = read_s(b, lhs, scratch_s(*b.m, 0, reg_class(b, lhs)));
    let c = read_s(b, rhs, scratch_s(*b.m, 1, reg_class(b, rhs)));
    let w = writing_s(b, def, scratch_s(*b.m, 2, Class::Int));
    if reg_class(b, lhs) == Class::Float {
        float_compare_s(pre + a.0 + c.0, op, w.0, a.1, c.1, reg_bytes(b, lhs) > 4) + stored_s(b, def, w.0, w.1)
    } else {
        let signed = compares_signed(op);
        let x = extend_s(b, lhs, a.1, signed, scratch_s(*b.m, 0, Class::Int));
        let y = extend_s(b, rhs, c.1, signed, scratch_s(*b.m, 1, Class::Int));
        int_compare_s(pre + a.0 + c.0 + x.0 + y.0, op, w.0, x.1, y.1, signed) + stored_s(b, def, w.0, w.1)
    }
}

fn float_compare(out: &mut String, op: MIRCmpOp, one: &str, a: &str, c: &str, wide: bool)
    ensures
        final(out)@ == float_compare_s(old(out)@, op, one@, a@, c@, wide),
{
    let at = if wide { "d" } else { "s" };
    let feq = joined("feq.", at, "");
    let flt = joined("flt.", at, "");
    let fle = joined("fle.", at, "");
    proof {
        reveal_strlit("");
        assert(feq@ =~= "feq."@ + at@);
        assert(flt@ =~= "flt."@ + at@);
        assert(fle@ =~= "fle."@ + at@);
    }
    match op {
        MIRCmpOp::FEq => put3(out, feq.as_str(), one, a, c),
        MIRCmpOp::FNe => {
            put3(out, feq.as_str(), one, a, c);
            put3(out, "xori", one, one, "1");
        },
        MIRCmpOp::FLt => put3(out, flt.as_str(), one, a, c),
        MIRCmpOp::FLe => put3(out, fle.as_str(), one, a, c),
        MIRCmpOp::FGt => put3(out, flt.as_str(), one, c, a),
        _ => put3(out, fle.as_str(), one, c, a),
    }
}

fn int_compare(out: &mut String, op: MIRCmpOp, one: &str, left: &str, right: &str, signed: bool)
    ensures
        final(out)@ == int_compare_s(old(out)@, op, one@, left@, right@, signed),
{
    let slt = if signed { "slt" } else { "sltu" };
    match op {
        MIRCmpOp::Eq => {
            put3(out, "xor", one, left, right);
            put2(out, "seqz", one, one);
        },
        MIRCmpOp::Ne => {
            put3(out, "xor", one, left, right);
            put2(out, "snez", one, one);
        },
        MIRCmpOp::SLt => put3(out, slt, one, left, right),
        MIRCmpOp::ULt => put3(out, slt, one, left, right),
        MIRCmpOp::SGt => put3(out, slt, one, right, left),
        MIRCmpOp::UGt => put3(out, slt, one, right, left),
        MIRCmpOp::SLe => {
            put3(out, slt, one, right, left);
            put3(out, "xori", one, one, "1");
        },
        MIRCmpOp::ULe => {
            put3(out, slt, one, right, left);
            put3(out, "xori", one, one, "1");
        },
        _ => {
            put3(out, slt, one, left, right);
            put3(out, "xori", one, one, "1");
        },
    }
}

fn compare(out: &mut String, b: &Body, def: MIRRegId, op: MIRCmpOp, lhs: MIRRegId, rhs: MIRRegId)
    requires
        workable(b),
    ensures
        final(out)@ == compare_s(old(out)@, b, def, op, lhs, rhs),
{
    let a = read(out, b, lhs, scratch(b.m, 0, b.class(lhs)));
    let c = read(out, b, rhs, scratch(b.m, 1, b.class(rhs)));
    if b.class(lhs) == Class::Float {
        let w = writing(b, def, scratch(b.m, 2, Class::Int));
        float_compare(out, op, w.0.as_str(), a.as_str(), c.as_str(), b.bytes(lhs) > 4);
        stored(out, b, def, w.0.as_str(), w.1);
        return;
    }
    let signed = op == MIRCmpOp::SLt || op == MIRCmpOp::SLe || op == MIRCmpOp::SGt || op == MIRCmpOp::SGe;
    let left = extend(out, b, lhs, a.as_str(), signed, scratch(b.m, 0, Class::Int));
    let right = extend(out, b, rhs, c.as_str(), signed, scratch(b.m, 1, Class::Int));
    let w = writing(b, def, scratch(b.m, 2, Class::Int));
    int_compare(out, op, w.0.as_str(), left.as_str(), right.as_str(), signed);
    stored(out, b, def, w.0.as_str(), w.1);
}

/// How a float to integer conversion names its integer side.
pub open spec fn int_side(narrow: bool, signed: bool) -> Seq<char> {
    if narrow {
        if signed { "w"@ } else { "wu"@ }
    } else {
        if signed { "l"@ } else { "lu"@ }
    }
}

/// A value from one scalar to another. Float to integer rounds towards
/// nought, which is what a cast means everywhere in this language and is not
/// this machine's default.
pub open spec fn convert_s(pre: Seq<char>, b: &Body, def: MIRRegId, of: MIRRegId, from: MIRScalar, to: MIRScalar) -> Seq<char> {
    let r = read_s(b, of, scratch_s(*b.m, 1, reg_class(b, of)));
    let head = pre + r.0;
    match from {
        MIRScalar::Int { bytes: fb, signed } => match to {
            MIRScalar::Int { bytes: tb, .. } => {
                let w = writing_s(b, def, scratch_s(*b.m, 0, Class::Int));
                (if tb > fb && fb < 8 {
                    let x = extend_s(b, of, r.1, signed, scratch_s(*b.m, 1, Class::Int));
                    head + x.0 + op2("mv"@, w.0, x.1)
                } else {
                    head + op2("mv"@, w.0, r.1)
                }) + stored_s(b, def, w.0, w.1)
            },
            MIRScalar::Float { bytes: tb } => {
                let x = extend_s(b, of, r.1, signed, scratch_s(*b.m, 1, Class::Int));
                let w = writing_s(b, def, scratch_s(*b.m, 0, Class::Float));
                head + x.0 + op2(
                    "fcvt."@ + (if tb <= 4 { "s"@ } else { "d"@ }) + "."@ + (if signed { "l"@ } else { "lu"@ }),
                    w.0,
                    x.1,
                ) + stored_s(b, def, w.0, w.1)
            },
        },
        MIRScalar::Float { bytes: fb } => match to {
            MIRScalar::Int { bytes: tb, signed } => {
                let w = writing_s(b, def, scratch_s(*b.m, 0, Class::Int));
                head + op3("fcvt."@ + int_side(tb <= 4, signed) + "."@ + (if fb <= 4 { "s"@ } else { "d"@ }), w.0, r.1, "rtz"@)
                    + stored_s(b, def, w.0, w.1)
            },
            MIRScalar::Float { bytes: tb } => {
                let w = writing_s(b, def, scratch_s(*b.m, 0, Class::Float));
                head + op2(
                    if fb == tb {
                        if tb <= 4 { "fmv.s"@ } else { "fmv.d"@ }
                    } else if tb <= 4 {
                        "fcvt.s.d"@
                    } else {
                        "fcvt.d.s"@
                    },
                    w.0,
                    r.1,
                ) + stored_s(b, def, w.0, w.1)
            },
        },
    }
}

fn convert(out: &mut String, b: &Body, def: MIRRegId, of: MIRRegId, from: MIRScalar, to: MIRScalar)
    requires
        workable(b),
    ensures
        final(out)@ == convert_s(old(out)@, b, def, of, from, to),
{
    let a = read(out, b, of, scratch(b.m, 1, b.class(of)));
    match from {
        MIRScalar::Int { bytes: fb, signed } => match to {
            MIRScalar::Int { bytes: tb, .. } => {
                let w = writing(b, def, scratch(b.m, 0, Class::Int));
                if tb > fb && fb < 8 {
                    let x = extend(out, b, of, a.as_str(), signed, scratch(b.m, 1, Class::Int));
                    put2(out, "mv", w.0.as_str(), x.as_str());
                } else {
                    put2(out, "mv", w.0.as_str(), a.as_str());
                }
                stored(out, b, def, w.0.as_str(), w.1);
            },
            MIRScalar::Float { bytes: tb } => {
                let x = extend(out, b, of, a.as_str(), signed, scratch(b.m, 1, Class::Int));
                let w = writing(b, def, scratch(b.m, 0, Class::Float));
                let what = joined("fcvt.", if tb <= 4 { "s" } else { "d" }, if signed { ".l" } else { ".lu" });
                proof {
                    reveal_strlit(".l");
                    reveal_strlit(".lu");
                    reveal_strlit(".");
                    reveal_strlit("l");
                    reveal_strlit("lu");
                    assert(what@ =~= "fcvt."@ + (if tb <= 4 { "s"@ } else { "d"@ }) + "."@ + (if signed { "l"@ } else { "lu"@ }));
                }
                put2(out, what.as_str(), w.0.as_str(), x.as_str());
                stored(out, b, def, w.0.as_str(), w.1);
            },
        },
        MIRScalar::Float { bytes: fb } => match to {
            MIRScalar::Int { bytes: tb, signed } => {
                let w = writing(b, def, scratch(b.m, 0, Class::Int));
                let side = if tb <= 4 {
                    if signed { "w" } else { "wu" }
                } else {
                    if signed { "l" } else { "lu" }
                };
                let what = joined("fcvt.", side, if fb <= 4 { ".s" } else { ".d" });
                proof {
                    reveal_strlit(".s");
                    reveal_strlit(".d");
                    reveal_strlit(".");
                    reveal_strlit("s");
                    reveal_strlit("d");
                    assert(what@ =~= "fcvt."@ + int_side(tb <= 4, signed) + "."@ + (if fb <= 4 { "s"@ } else { "d"@ }));
                }
                put3(out, what.as_str(), w.0.as_str(), a.as_str(), "rtz");
                stored(out, b, def, w.0.as_str(), w.1);
            },
            MIRScalar::Float { bytes: tb } => {
                let w = writing(b, def, scratch(b.m, 0, Class::Float));
                let what = if fb == tb {
                    if tb <= 4 { "fmv.s" } else { "fmv.d" }
                } else if tb <= 4 {
                    "fcvt.s.d"
                } else {
                    "fcvt.d.s"
                };
                put2(out, what, w.0.as_str(), a.as_str());
                stored(out, b, def, w.0.as_str(), w.1);
            },
        },
    }
}


/// How far below the frame pointer a slot begins, or a word down for a slot
/// the frame does not have.
pub open spec fn slot_off(b: &Body, slot: usize) -> usize {
    if slot < b.offsets@.len() { b.offsets@[slot as int] } else { b.m.word }
}

/// The address of a slot.
pub open spec fn frame_s(pre: Seq<char>, b: &Body, def: MIRRegId, slot: usize) -> Seq<char> {
    let off = slot_off(b, slot);
    let w = writing_s(b, def, scratch_s(*b.m, 0, Class::Int));
    (if off <= 2048 {
        pre + op3("addi"@, w.0, "s0"@, neg(off))
    } else {
        pre + op2("li"@, w.0, dec(off)) + op3("sub"@, w.0, "s0"@, w.0)
    }) + stored_s(b, def, w.0, w.1)
}

fn frame_of(out: &mut String, b: &Body, def: MIRRegId, slot: usize)
    requires
        workable(b),
    ensures
        final(out)@ == frame_s(old(out)@, b, def, slot),
{
    let off = if slot < b.offsets.len() { b.offsets[slot] } else { b.m.word };
    let w = writing(b, def, scratch(b.m, 0, Class::Int));
    if off <= 2048 {
        let n = neg_text(off);
        put3(out, "addi", w.0.as_str(), "s0", n.as_str());
    } else {
        let n = dec_text(off);
        put2(out, "li", w.0.as_str(), n.as_str());
        put3(out, "sub", w.0.as_str(), "s0", w.0.as_str());
    }
    stored(out, b, def, w.0.as_str(), w.1);
}

/// The address of a symbol, through the assembler's `la`.
pub open spec fn symbol_at_s(pre: Seq<char>, b: &Body, def: MIRRegId, name: Seq<char>) -> Seq<char> {
    let w = writing_s(b, def, scratch_s(*b.m, 0, Class::Int));
    pre + op2("la"@, w.0, symbol_chars(name)) + stored_s(b, def, w.0, w.1)
}

fn symbol_at(out: &mut String, b: &Body, def: MIRRegId, name: &String)
    requires
        workable(b),
    ensures
        final(out)@ == symbol_at_s(old(out)@, b, def, name@),
{
    let w = writing(b, def, scratch(b.m, 0, Class::Int));
    let held = symbol(name.as_str());
    put2(out, "la", w.0.as_str(), held.as_str());
    stored(out, b, def, w.0.as_str(), w.1);
}

/// An address moved along by a constant: in the instruction where twelve
/// signed bits reach, and through a scratch register otherwise.
pub open spec fn offset_s(pre: Seq<char>, b: &Body, def: MIRRegId, base: MIRRegId, bytes: i64) -> Seq<char> {
    let r = read_s(b, base, scratch_s(*b.m, 1, Class::Int));
    let w = writing_s(b, def, scratch_s(*b.m, 0, Class::Int));
    (if -2048 <= bytes <= 2047 {
        pre + r.0 + op3("addi"@, w.0, r.1, sdec(bytes))
    } else {
        let sc = named_s(scratch_s(*b.m, 2, Class::Int));
        pre + r.0 + op2("li"@, sc, sdec(bytes)) + op3("add"@, w.0, r.1, sc)
    }) + stored_s(b, def, w.0, w.1)
}

fn offset_of(out: &mut String, b: &Body, def: MIRRegId, base: MIRRegId, bytes: i64)
    requires
        workable(b),
    ensures
        final(out)@ == offset_s(old(out)@, b, def, base, bytes),
{
    let a = read(out, b, base, scratch(b.m, 1, Class::Int));
    let w = writing(b, def, scratch(b.m, 0, Class::Int));
    let n = sdec_text(bytes);
    if bytes >= -2048 && bytes <= 2047 {
        put3(out, "addi", w.0.as_str(), a.as_str(), n.as_str());
    } else {
        let sc = named(scratch(b.m, 2, Class::Int));
        put2(out, "li", sc.as_str(), n.as_str());
        put3(out, "add", w.0.as_str(), a.as_str(), sc.as_str());
    }
    stored(out, b, def, w.0.as_str(), w.1);
}

/// An address and an index times a stride. An index is often four bytes and
/// an address always eight, so the index is extended with its sign first; a
/// power of two is a shift, one is nothing, and anything else a multiply.
pub open spec fn scaled_s(pre: Seq<char>, b: &Body, def: MIRRegId, base: MIRRegId, index: MIRRegId, scale: usize) -> Seq<char> {
    let a = read_s(b, base, scratch_s(*b.m, 0, Class::Int));
    let c = read_s(b, index, scratch_s(*b.m, 1, Class::Int));
    let x = extend_s(b, index, c.1, true, scratch_s(*b.m, 1, Class::Int));
    let sc = named_s(scratch_s(*b.m, 1, Class::Int));
    let w = writing_s(b, def, scratch_s(*b.m, 2, Class::Int));
    let head = pre + a.0 + c.0 + x.0;
    (match power_of(scale) {
        Some(k) => if k > 0 {
            head + op3("slli"@, sc, x.1, decimal(k)) + op3("add"@, w.0, a.1, sc)
        } else {
            head + op3("add"@, w.0, a.1, x.1)
        },
        None => head + op2("li"@, sc, dec(scale)) + op3("mul"@, sc, x.1, sc) + op3("add"@, w.0, a.1, sc),
    }) + stored_s(b, def, w.0, w.1)
}

fn scaled_of(out: &mut String, b: &Body, def: MIRRegId, base: MIRRegId, index: MIRRegId, scale: usize)
    requires
        workable(b),
    ensures
        final(out)@ == scaled_s(old(out)@, b, def, base, index, scale),
{
    let a = read(out, b, base, scratch(b.m, 0, Class::Int));
    let c = read(out, b, index, scratch(b.m, 1, Class::Int));
    let c = extend(out, b, index, c.as_str(), true, scratch(b.m, 1, Class::Int));
    let sc = named(scratch(b.m, 1, Class::Int));
    let w = writing(b, def, scratch(b.m, 2, Class::Int));
    proof {
        power_below(scale);
    }
    match shift_of(scale) {
        Some(by) => {
            if by > 0 {
                let n = dec_text(by);
                put3(out, "slli", sc.as_str(), c.as_str(), n.as_str());
                put3(out, "add", w.0.as_str(), a.as_str(), sc.as_str());
            } else {
                put3(out, "add", w.0.as_str(), a.as_str(), c.as_str());
            }
        },
        None => {
            let n = dec_text(scale);
            put2(out, "li", sc.as_str(), n.as_str());
            put3(out, "mul", sc.as_str(), c.as_str(), sc.as_str());
            put3(out, "add", w.0.as_str(), a.as_str(), sc.as_str());
        },
    }
    stored(out, b, def, w.0.as_str(), w.1);
}

/// A load through an address.
pub open spec fn load_s(pre: Seq<char>, b: &Body, def: MIRRegId, from: MIRRegId, bytes: usize) -> Seq<char> {
    let r = read_s(b, from, scratch_s(*b.m, 1, Class::Int));
    let w = writing_s(b, def, scratch_s(*b.m, 0, reg_class(b, def)));
    pre + r.0 + op2(load_of_s(reg_class(b, def), bytes)@, w.0, "0("@ + r.1 + ")"@) + stored_s(b, def, w.0, w.1)
}

fn load_into(out: &mut String, b: &Body, def: MIRRegId, from: MIRRegId, bytes: usize)
    requires
        workable(b),
    ensures
        final(out)@ == load_s(old(out)@, b, def, from, bytes),
{
    let a = read(out, b, from, scratch(b.m, 1, Class::Int));
    let w = writing(b, def, scratch(b.m, 0, b.class(def)));
    let at = joined("0(", a.as_str(), ")");
    put2(out, load_of(b.class(def), bytes), w.0.as_str(), at.as_str());
    stored(out, b, def, w.0.as_str(), w.1);
}

/// A store through an address.
pub open spec fn store_s(pre: Seq<char>, b: &Body, to: MIRRegId, value: MIRRegId, bytes: usize) -> Seq<char> {
    let a = read_s(b, to, scratch_s(*b.m, 1, Class::Int));
    let c = read_s(b, value, scratch_s(*b.m, 0, reg_class(b, value)));
    pre + a.0 + c.0 + op2(store_of_s(reg_class(b, value), bytes)@, c.1, "0("@ + a.1 + ")"@)
}

fn store_into(out: &mut String, b: &Body, to: MIRRegId, value: MIRRegId, bytes: usize)
    requires
        workable(b),
    ensures
        final(out)@ == store_s(old(out)@, b, to, value, bytes),
{
    let a = read(out, b, to, scratch(b.m, 1, Class::Int));
    let c = read(out, b, value, scratch(b.m, 0, b.class(value)));
    let at = joined("0(", a.as_str(), ")");
    put2(out, store_of(b.class(value), bytes), c.as_str(), at.as_str());
}

/// The width of the `si`th run of a block copy.
pub open spec fn step_size(si: nat) -> usize {
    if si == 0 { 8 } else if si == 1 { 4 } else if si == 2 { 2 } else { 1 }
}

/// The load and the store that move a run of a width.
pub open spec fn copy_ops(step: usize) -> (&'static str, &'static str) {
    if step == 8 { ("ld", "sd") } else if step == 4 { ("lw", "sw") } else if step == 2 { ("lhu", "sh") } else { ("lbu", "sb") }
}

/// An operand of a block copy: how far past an address.
pub open spec fn past(a: Seq<char>, n: usize) -> Seq<char> {
    dec(n) + "("@ + a + ")"@
}

/// The rest of a block copy written after `pre`, from the `si`th width on,
/// `at` bytes in, the two addresses moved along by `base`.
pub open spec fn copy_from(pre: Seq<char>, a: Seq<char>, c: Seq<char>, held: Seq<char>, bytes: usize, si: nat, at: usize, base: usize) -> Seq<char>
    decreases 4 - si, bytes - at,
{
    if si >= 4 || at > bytes {
        pre
    } else {
        let step = step_size(si);
        if bytes - at >= step {
            let moved = at - base >= WINDOW;
            let pre2 = if moved {
                pre + op3("addi"@, a, a, dec((at - base) as usize)) + op3("addi"@, c, c, dec((at - base) as usize))
            } else {
                pre
            };
            let base2 = if moved { at } else { base };
            let ops = copy_ops(step);
            copy_from(
                pre2 + op2(ops.0@, held, past(a, (at - base2) as usize)) + op2(ops.1@, held, past(c, (at - base2) as usize)),
                a,
                c,
                held,
                bytes,
                si,
                (at + step) as usize,
                base2,
            )
        } else {
            copy_from(pre, a, c, held, bytes, si + 1, at, base)
        }
    }
}

fn past_text(a: &str, n: usize) -> (r: String)
    ensures
        r@ == past(a@, n),
{
    let mut out = dec_text(n);
    push_text(&mut out, "(");
    push_text(&mut out, a);
    push_text(&mut out, ")");
    proof {
        assert(out@ =~= past(a@, n));
    }
    out
}

fn copy_run(out: &mut String, a: &str, c: &str, held: &str, bytes: usize)
    ensures
        final(out)@ == copy_from(old(out)@, a@, c@, held@, bytes, 0, 0, 0),
{
    let ghost target = copy_from(old(out)@, a@, c@, held@, bytes, 0, 0, 0);
    let mut si: usize = 0;
    let mut at: usize = 0;
    let mut base: usize = 0;
    while si < 4
        invariant
            si <= 4,
            base <= at <= bytes,
            copy_from(out@, a@, c@, held@, bytes, si as nat, at, base) == target,
        decreases 4 - si,
    {
        let step: usize = if si == 0 { 8 } else if si == 1 { 4 } else if si == 2 { 2 } else { 1 };
        proof {
            assert(step == step_size(si as nat));
        }
        while bytes - at >= step
            invariant
                si < 4,
                step == step_size(si as nat),
                base <= at <= bytes,
                copy_from(out@, a@, c@, held@, bytes, si as nat, at, base) == target,
            decreases bytes - at,
        {
            if at - base >= WINDOW {
                let n = dec_text(at - base);
                put3(out, "addi", a, a, n.as_str());
                put3(out, "addi", c, c, n.as_str());
                base = at;
            }
            let (one, keep) = if step == 8 {
                ("ld", "sd")
            } else if step == 4 {
                ("lw", "sw")
            } else if step == 2 {
                ("lhu", "sh")
            } else {
                ("lbu", "sb")
            };
            let x = past_text(a, at - base);
            let y = past_text(c, at - base);
            put2(out, one, held, x.as_str());
            put2(out, keep, held, y.as_str());
            at = at + step;
        }
        si = si + 1;
    }
}

/// A block copy, unrolled: a loop would want a register to count in, and
/// there is not a fourth held back. Past the window the addresses are moved
/// into the scratch registers, where they step.
pub open spec fn copy_s(pre: Seq<char>, b: &Body, to: MIRRegId, from: MIRRegId, bytes: usize) -> Seq<char> {
    let r1 = read_s(b, from, scratch_s(*b.m, 1, Class::Int));
    let r2 = read_s(b, to, scratch_s(*b.m, 0, Class::Int));
    let held = named_s(scratch_s(*b.m, 2, Class::Int));
    let head = pre + r1.0 + r2.0;
    if bytes > WINDOW {
        let one = named_s(scratch_s(*b.m, 1, Class::Int));
        let two = named_s(scratch_s(*b.m, 0, Class::Int));
        let h1 = if r1.1 != one { head + op2("mv"@, one, r1.1) } else { head };
        let h2 = if r2.1 != two { h1 + op2("mv"@, two, r2.1) } else { h1 };
        copy_from(h2, one, two, held, bytes, 0, 0, 0)
    } else {
        copy_from(head, r1.1, r2.1, held, bytes, 0, 0, 0)
    }
}

fn copy_of(out: &mut String, b: &Body, to: MIRRegId, from: MIRRegId, bytes: usize)
    requires
        workable(b),
    ensures
        final(out)@ == copy_s(old(out)@, b, to, from, bytes),
{
    let a = read(out, b, from, scratch(b.m, 1, Class::Int));
    let c = read(out, b, to, scratch(b.m, 0, Class::Int));
    let held = named(scratch(b.m, 2, Class::Int));
    if bytes > WINDOW {
        let one = named(scratch(b.m, 1, Class::Int));
        let two = named(scratch(b.m, 0, Class::Int));
        if !same_text(a.as_str(), one.as_str()) {
            put2(out, "mv", one.as_str(), a.as_str());
        }
        if !same_text(c.as_str(), two.as_str()) {
            put2(out, "mv", two.as_str(), c.as_str());
        }
        copy_run(out, one.as_str(), two.as_str(), held.as_str(), bytes);
    } else {
        copy_run(out, a.as_str(), c.as_str(), held.as_str(), bytes);
    }
}


/// The file of each argument of a call.
pub open spec fn arg_classes(b: &Body, args: Seq<MIRRegId>) -> Seq<Class> {
    args.map_values(|reg: MIRRegId| reg_class(b, reg))
}

/// The moves of the first `k` arguments that live in registers into the
/// registers they are passed in.
pub open spec fn call_moves(b: &Body, args: Seq<MIRRegId>, k: int) -> Seq<(Reg, Reg)>
    decreases k,
{
    if k <= 0 {
        Seq::empty()
    } else {
        let prev = call_moves(b, args, k - 1);
        match passed_in(*b.m, arg_classes(b, args), k - 1) {
            Some(into) => match reg_site(b, args[k - 1]) {
                Site::In(from) => prev.push((into, from)),
                _ => prev,
            },
            None => prev,
        }
    }
}

/// After `pre`, the loads of the first `k` arguments that live in the frame
/// into the registers they are passed in.
pub open spec fn call_loads(pre: Seq<char>, b: &Body, args: Seq<MIRRegId>, k: int) -> Seq<char>
    decreases k,
{
    if k <= 0 {
        pre
    } else {
        let prev = call_loads(pre, b, args, k - 1);
        let arg = args[k - 1];
        match passed_in(*b.m, arg_classes(b, args), k - 1) {
            Some(into) => match reg_site(b, arg) {
                Site::At(off) => {
                    let at = frame_op_s(off, scratch_s(*b.m, 2, Class::Int));
                    prev + at.0 + op2(load_of_s(reg_class(b, arg), reg_bytes(b, arg))@, named_s(into), at.1)
                },
                _ => prev,
            },
            None => prev,
        }
    }
}

/// Whether some argument of a call has no register to go in.
pub open spec fn overflows(b: &Body, args: Seq<MIRRegId>) -> bool {
    exists|i: int| 0 <= i < args.len() && (#[trigger] passed_in(*b.m, arg_classes(b, args), i)) is None
}

/// What is said of a call with an argument that has no register to go in.
pub open spec fn too_many(b: &Body, n: usize) -> Seq<char> {
    b.held.symbol@ + ": a call with "@ + dec(n) + " arguments is not emitted -- nothing here puts one on the stack"@
}

/// A call: the arguments into their registers, the call, and the answer out
/// of the register it comes back in. Nothing here puts an argument on the
/// stack, so a call with more than there are registers for is not written,
/// and is said.
pub open spec fn call_s(pre: Seq<char>, b: &Body, def: Option<MIRRegId>, to: MIRCallee, args: Seq<MIRRegId>) -> (
    Seq<char>,
    Option<Seq<char>>,
) {
    if overflows(b, args) {
        (pre, Some(too_many(b, args.len() as usize)))
    } else {
        let loaded = call_loads(pre + shuffle_s(*b.m, call_moves(b, args, args.len() as int)), b, args, args.len() as int);
        let called = match to {
            MIRCallee::Symbol(name) => loaded + op1("call"@, symbol_chars(name@)),
            MIRCallee::Reg(reg) => {
                let r = read_s(b, reg, scratch_s(*b.m, 0, Class::Int));
                loaded + r.0 + op1("jalr"@, r.1)
            },
        };
        let answered = match def {
            None => called,
            Some(d) => {
                let class = reg_class(b, d);
                let from = match class {
                    Class::Int => b.m.ret,
                    Class::Float => b.m.fret,
                };
                let held = named_s(from);
                let w = writing_s(b, d, scratch_s(*b.m, 0, class));
                (if w.0 != held { called + op2(mov_of_s(class, reg_bytes(b, d))@, w.0, held) } else { called }) + stored_s(
                    b,
                    d,
                    w.0,
                    w.1,
                )
            },
        };
        (answered, None)
    }
}

fn too_many_text(b: &Body, n: usize) -> (r: String)
    ensures
        r@ == too_many(b, n),
{
    let mut out = owned(b.held.symbol.as_str());
    push_text(&mut out, ": a call with ");
    push_decimal(&mut out, n);
    push_text(&mut out, " arguments is not emitted -- nothing here puts one on the stack");
    proof {
        assert(out@ =~= too_many(b, n));
    }
    out
}

fn call(out: &mut String, b: &Body, def: Option<MIRRegId>, to: &MIRCallee, args: &Vec<MIRRegId>) -> (r: Option<String>)
    requires
        workable(b),
    ensures
        final(out)@ == call_s(old(out)@, b, def, *to, args@).0,
        match r {
            Some(x) => call_s(old(out)@, b, def, *to, args@).1 == Some(x@),
            None => call_s(old(out)@, b, def, *to, args@).1 is None,
        },
{
    let mut classes: Vec<Class> = Vec::new();
    let mut i: usize = 0;
    while i < args.len()
        invariant
            i <= args@.len(),
            classes@ == arg_classes(b, args@).subrange(0, i as int),
        decreases args@.len() - i,
    {
        classes.push(b.class(args[i]));
        proof {
            assert(classes@ =~= arg_classes(b, args@).subrange(0, i + 1));
        }
        i = i + 1;
    }
    proof {
        assert(classes@ =~= arg_classes(b, args@));
    }
    let want = passing(b.m, classes.as_slice());
    let mut missing = false;
    let mut j: usize = 0;
    while j < want.len()
        invariant
            j <= want@.len(),
            want@.len() == args@.len(),
            forall|k: int| 0 <= k < want@.len() ==> want@[k] == passed_in(*b.m, arg_classes(b, args@), k),
            missing == exists|k: int| 0 <= k < j && (#[trigger] passed_in(*b.m, arg_classes(b, args@), k)) is None,
        decreases want@.len() - j,
    {
        if want[j].is_none() {
            missing = true;
        }
        proof {
            if missing {
                if want@[j as int] is None {
                    assert(passed_in(*b.m, arg_classes(b, args@), j as int) is None);
                }
            }
        }
        j = j + 1;
    }
    if missing {
        return Some(too_many_text(b, args.len()));
    }
    let mut moves: Vec<(Reg, Reg)> = Vec::new();
    let mut at: usize = 0;
    while at < args.len()
        invariant
            at <= args@.len(),
            want@.len() == args@.len(),
            forall|k: int| 0 <= k < want@.len() ==> want@[k] == passed_in(*b.m, arg_classes(b, args@), k),
            moves@ == call_moves(b, args@, at as int),
        decreases args@.len() - at,
    {
        match want[at] {
            Some(into) => match b.site(args[at]) {
                Site::In(from) => moves.push((into, from)),
                _ => {},
            },
            None => {},
        }
        at = at + 1;
    }
    shuffle(out, b, moves.as_slice());
    let ghost shuffled = out@;
    let mut at: usize = 0;
    while at < args.len()
        invariant
            workable(b),
            at <= args@.len(),
            want@.len() == args@.len(),
            forall|k: int| 0 <= k < want@.len() ==> want@[k] == passed_in(*b.m, arg_classes(b, args@), k),
            out@ == call_loads(shuffled, b, args@, at as int),
        decreases args@.len() - at,
    {
        let arg = args[at];
        match want[at] {
            Some(into) => match b.site(arg) {
                Site::At(off) => {
                    let one = frame_op(out, off, scratch(b.m, 2, Class::Int));
                    let name = named(into);
                    put2(out, load_of(b.class(arg), b.bytes(arg)), name.as_str(), one.as_str());
                },
                _ => {},
            },
            None => {},
        }
        at = at + 1;
    }
    match to {
        MIRCallee::Symbol(name) => {
            let s = symbol(name.as_str());
            put1(out, "call", s.as_str());
        },
        MIRCallee::Reg(reg) => {
            let held = read(out, b, *reg, scratch(b.m, 0, Class::Int));
            put1(out, "jalr", held.as_str());
        },
    }
    match def {
        None => {},
        Some(d) => {
            let class = b.class(d);
            let from = b.m.answering(class);
            let held = named(from);
            let w = writing(b, d, scratch(b.m, 0, class));
            if !same_text(w.0.as_str(), held.as_str()) {
                put2(out, mov_of(class, b.bytes(d)), w.0.as_str(), held.as_str());
            }
            stored(out, b, d, w.0.as_str(), w.1);
        },
    }
    None
}

/// One instruction, written after `pre`, and what is said of it where it
/// cannot be written. An instruction with no answer that needs one writes
/// nothing, and so do the vector instructions, which are refused by name.
pub open spec fn inst_s(pre: Seq<char>, b: &Body, inst: MIRInst) -> (Seq<char>, Option<Seq<char>>) {
    match inst.kind {
        MIRInstKind::Const(held) => match inst.def {
            Some(def) => (const_s(pre, b, def, held), None),
            None => (pre, None),
        },
        MIRInstKind::Move(of) => match inst.def {
            Some(def) => (move_s(pre, b, def, of), None),
            None => (pre, None),
        },
        MIRInstKind::Un { op, operand } => match inst.def {
            Some(def) => (un_s(pre, b, def, op, operand), None),
            None => (pre, None),
        },
        MIRInstKind::Bin { op, lhs, rhs } => match inst.def {
            Some(def) => (binary_s(pre, b, def, op, lhs, rhs), None),
            None => (pre, None),
        },
        MIRInstKind::Cmp { op, lhs, rhs } => match inst.def {
            Some(def) => (compare_s(pre, b, def, op, lhs, rhs), None),
            None => (pre, None),
        },
        MIRInstKind::Convert { of, from, to } => match inst.def {
            Some(def) => (convert_s(pre, b, def, of, from, to), None),
            None => (pre, None),
        },
        MIRInstKind::Frame(slot) => match inst.def {
            Some(def) => (frame_s(pre, b, def, slot), None),
            None => (pre, None),
        },
        MIRInstKind::Symbol(name) => match inst.def {
            Some(def) => (symbol_at_s(pre, b, def, name@), None),
            None => (pre, None),
        },
        MIRInstKind::Offset { base, bytes } => match inst.def {
            Some(def) => (offset_s(pre, b, def, base, bytes), None),
            None => (pre, None),
        },
        MIRInstKind::Scaled { base, index, scale } => match inst.def {
            Some(def) => (scaled_s(pre, b, def, base, index, scale), None),
            None => (pre, None),
        },
        MIRInstKind::Load { from, bytes } => match inst.def {
            Some(def) => (load_s(pre, b, def, from, bytes), None),
            None => (pre, None),
        },
        MIRInstKind::Store { to, value, bytes } => (store_s(pre, b, to, value, bytes), None),
        MIRInstKind::Copy { to, from, bytes } => (copy_s(pre, b, to, from, bytes), None),
        MIRInstKind::Call { to, args } => call_s(pre, b, inst.def, to, args@),
        _ => (pre, None),
    }
}

fn inst_of(out: &mut String, b: &Body, inst: &MIRInst) -> (r: Option<String>)
    requires
        workable(b),
    ensures
        final(out)@ == inst_s(old(out)@, b, *inst).0,
        match r {
            Some(x) => inst_s(old(out)@, b, *inst).1 == Some(x@),
            None => inst_s(old(out)@, b, *inst).1 is None,
        },
{
    match &inst.kind {
        MIRInstKind::Const(held) => match inst.def {
            Some(def) => const_of(out, b, def, *held),
            None => {},
        },
        MIRInstKind::Move(of) => match inst.def {
            Some(def) => move_of(out, b, def, *of),
            None => {},
        },
        MIRInstKind::Un { op, operand } => match inst.def {
            Some(def) => un_of(out, b, def, *op, *operand),
            None => {},
        },
        MIRInstKind::Bin { op, lhs, rhs } => match inst.def {
            Some(def) => binary(out, b, def, *op, *lhs, *rhs),
            None => {},
        },
        MIRInstKind::Cmp { op, lhs, rhs } => match inst.def {
            Some(def) => compare(out, b, def, *op, *lhs, *rhs),
            None => {},
        },
        MIRInstKind::Convert { of, from, to } => match inst.def {
            Some(def) => convert(out, b, def, *of, *from, *to),
            None => {},
        },
        MIRInstKind::Frame(slot) => match inst.def {
            Some(def) => frame_of(out, b, def, *slot),
            None => {},
        },
        MIRInstKind::Symbol(name) => match inst.def {
            Some(def) => symbol_at(out, b, def, name),
            None => {},
        },
        MIRInstKind::Offset { base, bytes } => match inst.def {
            Some(def) => offset_of(out, b, def, *base, *bytes),
            None => {},
        },
        MIRInstKind::Scaled { base, index, scale } => match inst.def {
            Some(def) => scaled_of(out, b, def, *base, *index, *scale),
            None => {},
        },
        MIRInstKind::Load { from, bytes } => match inst.def {
            Some(def) => load_into(out, b, def, *from, *bytes),
            None => {},
        },
        MIRInstKind::Store { to, value, bytes } => store_into(out, b, *to, *value, *bytes),
        MIRInstKind::Copy { to, from, bytes } => copy_of(out, b, *to, *from, *bytes),
        MIRInstKind::Call { to, args } => return call(out, b, inst.def, to, args),
        _ => {},
    }
    None
}

/// After `pre`, the first `k` lines of the body, and what was said of them.
pub open spec fn lines_s(pre: Seq<char>, b: &Body, k: int) -> (Seq<char>, Seq<Seq<char>>)
    decreases k,
{
    if k <= 0 {
        (pre, Seq::empty())
    } else {
        let p = lines_s(pre, b, k - 1);
        match b.held.lines@[k - 1] {
            Line::Label(at) => (p.0 + label_line(label_text(b.index, at)), p.1),
            Line::Inst(inst) => {
                let r = inst_s(p.0, b, inst);
                (
                    r.0,
                    match r.1 {
                        Some(x) => p.1.push(x),
                        None => p.1,
                    },
                )
            },
            Line::Term(held) => (p.0 + term_s(b, held), p.1),
        }
    }
}

/// What comes before the first line of a body: the section, its symbol made
/// visible to the linker and typed a function, its label, and the prologue.
pub open spec fn head_s(b: &Body) -> Seq<char> {
    let name = symbol_chars(b.held.symbol@);
    op0(".text"@) + op1(".globl"@, name) + op2(".type"@, name, "@function"@) + label_line(name) + prologue_s(b)
}

/// One body as RISC-V assembly, and everything said about what could not be
/// written: the vector instructions it holds, each named once, then each call
/// with too many arguments, in order.
pub open spec fn body_s(b: &Body) -> (Seq<char>, Seq<Seq<char>>) {
    let name = symbol_chars(b.held.symbol@);
    let l = lines_s(head_s(b), b, b.held.lines@.len() as int);
    (l.0 + op2(".size"@, name, ".-"@ + name), refusals(*b.held, b.held.lines@.len() as int) + l.1)
}

/// One body as RISC-V assembly, and everything said about what could not be
/// written. A body with a complaint against it is still written, minus the
/// instruction that could not be.
pub fn body(b: &Body) -> (r: (String, Vec<String>))
    requires
        workable(b),
    ensures
        r.0@ == body_s(b).0,
        r.1@.map_values(|x: String| x@) == body_s(b).1,
{
    let mut said = refuses(b.held);
    let ghost first = said@.map_values(|x: String| x@);
    let mut out = String::new();
    let name = symbol(b.held.symbol.as_str());
    put0(&mut out, ".text");
    put1(&mut out, ".globl", name.as_str());
    put2(&mut out, ".type", name.as_str(), "@function");
    put_label(&mut out, name.as_str());
    prologue(&mut out, b);
    proof {
        assert(out@ =~= head_s(b));
    }
    let ghost head = out@;
    let mut k: usize = 0;
    while k < b.held.lines.len()
        invariant
            workable(b),
            k <= b.held.lines@.len(),
            first == refusals(*b.held, b.held.lines@.len() as int),
            out@ == lines_s(head, b, k as int).0,
            said@.map_values(|x: String| x@) == first + lines_s(head, b, k as int).1,
        decreases b.held.lines@.len() - k,
    {
        let ghost before = said@.map_values(|x: String| x@);
        match &b.held.lines[k] {
            Line::Label(at) => {
                let l = label(b, *at);
                put_label(&mut out, l.as_str());
            },
            Line::Inst(inst) => {
                match inst_of(&mut out, b, inst) {
                    Some(complaint) => {
                        said.push(complaint);
                        proof {
                            assert(said@.map_values(|x: String| x@) =~= before.push(said@[said@.len() - 1]@));
                        }
                    },
                    None => {},
                }
            },
            Line::Term(held) => term(&mut out, b, held),
        }
        proof {
            assert(said@.map_values(|x: String| x@) =~= first + lines_s(head, b, k + 1).1);
        }
        k = k + 1;
    }
    let mut size = owned(".-");
    push_text(&mut size, name.as_str());
    put2(&mut out, ".size", name.as_str(), size.as_str());
    (out, said)
}

// ---- The pool --------------------------------------------------------------

/// The constant pool, in `.rodata`, every entry aligned to eight bytes: RISC-V counts an alignment as a power of two.
pub fn pool(held: &[MIRConstant]) -> (r: String)
    ensures
        r@ == pool_text(held@, "\t.align\t3\n"@),
{
    pool_with(held, "\t.align\t3\n")
}


} // verus!
