//! What a type is, written down for the runtime to read: which of its words
//! hold pointers, and what its bytes mean to a map that has to order and hash
//! them.
//!
//!      +0   u64   bytes      what one value takes
//!      +8   u64   align
//!     +16   u64   words      how many words the map below covers
//!     +24   u8    kind       how a key is hashed and ordered
//!     +25   u8    indirect   whether a register holding one holds its address
//!     +26   u8    [6]        nothing, so the map starts on a word
//!     +32   u8    []         one bit per word, low bit of byte nought first;
//!                            a one means that word holds a pointer
//!
//! An enum's map is the union over its variants: a word that is a pointer in
//! one variant and a number in another is called a pointer. A code pointer is
//! named too. The map may name more than it must; it never names less.

use vstd::prelude::*;
use vstd::string::StringSliceAdditionalSpecFns;
use crate::layout::{fields_of, handed, laid, offsets_v, payloads_of, up, LayoutV, Layouts, Shape, ShapeV, DEEPEST};
use crate::machine::Machine;
use crate::spell::{part, part_spelled, parts_are_one_to_one, push_text};
use crate::ttir::{field_types, float_bits, payload_types, prim_values, TIRPrim, TTIRItemKind, TTIRProgram, TTIRVariant, Ty, TyId};

verus! {

/// How far the map is from the start.
pub const HEADER: usize = 32;

/// How deep the walk goes before it stops looking.
pub const DEEPEST_WALK: usize = 32;

/// What the bytes of a value mean, for the two operations that have to know.
#[derive(Debug, Clone, Copy, PartialEq, Eq, Structural)]
pub enum Kind {
    Opaque,
    Signed,
    Unsigned,
    Float,
    Pointer,
    Str,
}

/// The byte a kind is written as.
pub open spec fn kind_byte(k: Kind) -> u8 {
    match k {
        Kind::Opaque => 0,
        Kind::Signed => 1,
        Kind::Unsigned => 2,
        Kind::Float => 3,
        Kind::Pointer => 4,
        Kind::Str => 5,
    }
}

impl Kind {
    /// The byte this kind is written as in a descriptor.
    pub fn byte(self) -> (r: u8)
        ensures
            r == kind_byte(self),
    {
        match self {
            Kind::Opaque => 0,
            Kind::Signed => 1,
            Kind::Unsigned => 2,
            Kind::Float => 3,
            Kind::Pointer => 4,
            Kind::Str => 5,
        }
    }
}

/// What the bytes of a type mean: a signed or an unsigned number (a boolean
/// and a `char` order as the numbers they are), a float, a string, a pointer,
/// or just bytes.
pub open spec fn kind_spec(p: TTIRProgram, ty: TyId) -> Kind {
    if ty >= p.types@.len() {
        Kind::Opaque
    } else {
        match p.types@[ty as int] {
            Ty::Prim(q) => match q {
                TIRPrim::I8 | TIRPrim::I16 | TIRPrim::I32 | TIRPrim::I64 | TIRPrim::I128 => Kind::Signed,
                TIRPrim::U8 | TIRPrim::U16 | TIRPrim::U32 | TIRPrim::U64 | TIRPrim::U128 | TIRPrim::Bool
                | TIRPrim::Char => Kind::Unsigned,
                TIRPrim::F32 | TIRPrim::F64 => Kind::Float,
                TIRPrim::Str => Kind::Str,
                TIRPrim::Null | TIRPrim::Never => Kind::Opaque,
            },
            Ty::Ref { .. } | Ty::Ptr(_) | Ty::GC(_) => Kind::Pointer,
            _ => Kind::Opaque,
        }
    }
}

/// What a primitive that holds numbers is read as follows from the values
/// it holds: one that holds a value below nought is signed, one that holds
/// none is unsigned; a float is a float.
pub proof fn kinds_follow_the_values(p: TTIRProgram, ty: TyId)
    requires
        ty < p.types@.len(),
        p.types@[ty as int] is Prim,
    ensures
        ({
            let q = p.types@[ty as int]->Prim_0;
            &&& (prim_values(q) matches Some((lo, hi)) ==> kind_spec(p, ty) == if lo < 0 {
                Kind::Signed
            } else {
                Kind::Unsigned
            })
            &&& (float_bits(q) is Some ==> kind_spec(p, ty) == Kind::Float)
        }),
{
}

/// What the bytes of `ty` mean.
pub fn kind_of(p: &TTIRProgram, ty: TyId) -> (r: Kind)
    ensures
        r == kind_spec(*p, ty),
{
    if ty >= p.types.len() {
        return Kind::Opaque;
    }
    match &p.types[ty] {
        Ty::Prim(q) => match q {
            TIRPrim::I8 | TIRPrim::I16 | TIRPrim::I32 | TIRPrim::I64 | TIRPrim::I128 => Kind::Signed,
            TIRPrim::U8 | TIRPrim::U16 | TIRPrim::U32 | TIRPrim::U64 | TIRPrim::U128 | TIRPrim::Bool
            | TIRPrim::Char => Kind::Unsigned,
            TIRPrim::F32 | TIRPrim::F64 => Kind::Float,
            TIRPrim::Str => Kind::Str,
            TIRPrim::Null | TIRPrim::Never => Kind::Opaque,
        },
        Ty::Ref { .. } => Kind::Pointer,
        Ty::Ptr(_) => Kind::Pointer,
        Ty::GC(_) => Kind::Pointer,
        _ => Kind::Opaque,
    }
}

/// Whether a register holding one of these holds its address rather than its
/// value: a scalar wider than a word, and anything that is not one value.
pub open spec fn indirect_spec(l: Option<LayoutV>, word: nat) -> bool {
    match l {
        Some(held) => match held.shape {
            ShapeV::Scalar => held.bytes > word,
            ShapeV::Empty => false,
            _ => true,
        },
        None => false,
    }
}

/// Whether a register holding one of `ty` holds its address.
pub fn indirect(layouts: &Layouts, machine: &Machine, ty: TyId) -> (r: bool)
    requires
        layouts.wf(),
    ensures
        r == indirect_spec(layouts.answer(ty, Seq::empty()), machine.word as nat),
{
    match layouts.of(ty) {
        Some(held) => match held.shape {
            Shape::Scalar => held.bytes > machine.word,
            Shape::Empty => false,
            _ => true,
        },
        None => false,
    }
}

// ---- Where the pointers are, as a definition --------------------------------

/// Whether `out` holds the offset `o`.
pub open spec fn names(out: Seq<usize>, o: int) -> bool {
    exists|i: int| 0 <= i < out.len() && out[i] as int == o
}

/// Whether the walk of `ty` reports a word holding an address `o` bytes from
/// the start of a value of it. `word` is what the layouts count a pointer as,
/// `w1` the distance to the second word of something fat, and `deep` how far
/// down the walk already is.
pub open spec fn points(p: TTIRProgram, word: nat, w1: nat, ty: TyId, env: Seq<TyId>, deep: nat, o: int) -> bool
    decreases DEEPEST_WALK + 1 - deep, 2nat, 0nat,
{
    if deep > DEEPEST_WALK || ty >= p.types@.len() {
        false
    } else {
        match p.types@[ty as int] {
            // One address each -- a reference to a trait object too, whose
            // second word is a table no heap holds.
            Ty::Ref { .. } => o == 0,
            Ty::Ptr(_) => o == 0,
            Ty::GC(_) => o == 0,
            Ty::Dyn(_) => false,
            // Two words, and naming both is allowed.
            Ty::Run(_) => o == 0 || o == w1,
            Ty::Fn { .. } => o == 0 || o == w1,
            // A string's data comes first and its length second.
            Ty::Prim(q) => q == TIRPrim::Str && o == 0,
            Ty::Param { index, .. } => index < env.len() && points(
                p,
                word,
                w1,
                env[index as int],
                Seq::empty(),
                (deep + 1) as nat,
                o,
            ),
            Ty::Array { elem, len } => match laid(p, word, elem, env, Seq::empty(), DEEPEST as nat) {
                None => false,
                Some(one) => steps_point(p, word, w1, elem, env, up(one.bytes, one.align), deep, len as nat, o),
            },
            Ty::Tuple(parts) => match laid(p, word, ty, env, Seq::empty(), DEEPEST as nat) {
                Some(l) => match l.shape {
                    ShapeV::Fields(offs) => fields_point(p, word, w1, parts@, offs, env, deep, parts@.len(), o),
                    _ => false,
                },
                None => false,
            },
            Ty::Named { item, args } => item < p.items@.len() && match laid(p, word, ty, env, Seq::empty(), DEEPEST as nat) {
                None => false,
                Some(l) => match p.items@[item as int].kind {
                    TTIRItemKind::Struct { fields, .. } => match l.shape {
                        ShapeV::Fields(offs) => fields_point(
                            p,
                            word,
                            w1,
                            fields_of(fields@),
                            offs,
                            handed(p, args@, env),
                            deep,
                            fields@.len(),
                            o,
                        ),
                        _ => false,
                    },
                    // Every variant, because which one is in there is in the
                    // tag and this is a table rather than a program.
                    TTIRItemKind::Enum { variants, .. } => match l.shape {
                        ShapeV::Tagged { variants: at, .. } => variants_point(
                            p,
                            word,
                            w1,
                            payloads_of(variants@),
                            at,
                            handed(p, args@, env),
                            deep,
                            variants@.len(),
                            o,
                        ),
                        _ => false,
                    },
                    TTIRItemKind::Trait { .. } => o == 0 || o == w1,
                    TTIRItemKind::Other { .. } => false,
                },
            },
            Ty::Var(_) => false,
            Ty::Error => false,
        }
    }
}

/// Whether one of the first `n` fields, at its offset where it has one,
/// reports `o`.
pub open spec fn fields_point(
    p: TTIRProgram,
    word: nat,
    w1: nat,
    tys: Seq<TyId>,
    offs: Seq<nat>,
    env: Seq<TyId>,
    deep: nat,
    n: nat,
    o: int,
) -> bool
    decreases DEEPEST_WALK + 1 - deep, 0nat, n,
{
    if n == 0 || deep > DEEPEST_WALK {
        false
    } else {
        fields_point(p, word, w1, tys, offs, env, deep, (n - 1) as nat, o) || (n - 1 < tys.len() && n - 1 < offs.len()
            && points(p, word, w1, tys[n - 1], env, (deep + 1) as nat, o - offs[n - 1]))
    }
}

/// Whether one of the first `n` variants reports `o` in one of its fields.
pub open spec fn variants_point(
    p: TTIRProgram,
    word: nat,
    w1: nat,
    payloads: Seq<Seq<TyId>>,
    at: Seq<Seq<nat>>,
    env: Seq<TyId>,
    deep: nat,
    n: nat,
    o: int,
) -> bool
    decreases DEEPEST_WALK + 1 - deep, 1nat, n,
{
    if n == 0 || deep > DEEPEST_WALK {
        false
    } else {
        variants_point(p, word, w1, payloads, at, env, deep, (n - 1) as nat, o) || (n - 1 < payloads.len() && n - 1
            < at.len() && fields_point(
            p,
            word,
            w1,
            payloads[n - 1],
            at[n - 1],
            env,
            deep,
            payloads[n - 1].len(),
            o,
        ))
    }
}

/// Whether one of the first `n` elements of an array, `stride` apart,
/// reports `o`.
pub open spec fn steps_point(
    p: TTIRProgram,
    word: nat,
    w1: nat,
    elem: TyId,
    env: Seq<TyId>,
    stride: nat,
    deep: nat,
    n: nat,
    o: int,
) -> bool
    decreases DEEPEST_WALK + 1 - deep, 0nat, n,
{
    if n == 0 || deep > DEEPEST_WALK {
        false
    } else {
        steps_point(p, word, w1, elem, env, stride, deep, (n - 1) as nat, o) || points(
            p,
            word,
            w1,
            elem,
            env,
            (deep + 1) as nat,
            o - (n - 1) * stride,
        )
    }
}

/// Whether an offset is one the map has a bit for: one a machine word can
/// hold, in one of the first `words` words.
pub open spec fn counted(word: nat, words: nat, o: int) -> bool {
    0 <= o <= usize::MAX && o / (word as int) < words
}

/// Nothing is reported before the start of the value.
proof fn points_above(p: TTIRProgram, word: nat, w1: nat, ty: TyId, env: Seq<TyId>, deep: nat, o: int)
    requires
        points(p, word, w1, ty, env, deep, o),
    ensures
        o >= 0,
    decreases DEEPEST_WALK + 1 - deep, 2nat, 0nat,
{
    match p.types@[ty as int] {
        Ty::Param { index, .. } => {
            points_above(p, word, w1, env[index as int], Seq::empty(), (deep + 1) as nat, o);
        },
        Ty::Array { elem, len } => {
            let one = laid(p, word, elem, env, Seq::empty(), DEEPEST as nat)->0;
            steps_above(p, word, w1, elem, env, up(one.bytes, one.align), deep, len as nat, o);
        },
        Ty::Tuple(parts) => {
            let offs = laid(p, word, ty, env, Seq::empty(), DEEPEST as nat)->0.shape->Fields_0;
            fields_above(p, word, w1, parts@, offs, env, deep, parts@.len(), o);
        },
        Ty::Named { item, args } => {
            let l = laid(p, word, ty, env, Seq::empty(), DEEPEST as nat)->0;
            match p.items@[item as int].kind {
                TTIRItemKind::Struct { fields, .. } => {
                    fields_above(
                        p,
                        word,
                        w1,
                        fields_of(fields@),
                        l.shape->Fields_0,
                        handed(p, args@, env),
                        deep,
                        fields@.len(),
                        o,
                    );
                },
                TTIRItemKind::Enum { variants, .. } => {
                    variants_above(
                        p,
                        word,
                        w1,
                        payloads_of(variants@),
                        l.shape->Tagged_variants,
                        handed(p, args@, env),
                        deep,
                        variants@.len(),
                        o,
                    );
                },
                _ => {},
            }
        },
        _ => {},
    }
}

proof fn fields_above(
    p: TTIRProgram,
    word: nat,
    w1: nat,
    tys: Seq<TyId>,
    offs: Seq<nat>,
    env: Seq<TyId>,
    deep: nat,
    n: nat,
    o: int,
)
    requires
        fields_point(p, word, w1, tys, offs, env, deep, n, o),
    ensures
        o >= 0,
    decreases DEEPEST_WALK + 1 - deep, 0nat, n,
{
    if fields_point(p, word, w1, tys, offs, env, deep, (n - 1) as nat, o) {
        fields_above(p, word, w1, tys, offs, env, deep, (n - 1) as nat, o);
    } else {
        points_above(p, word, w1, tys[n - 1], env, (deep + 1) as nat, o - offs[n - 1]);
    }
}

proof fn variants_above(
    p: TTIRProgram,
    word: nat,
    w1: nat,
    payloads: Seq<Seq<TyId>>,
    at: Seq<Seq<nat>>,
    env: Seq<TyId>,
    deep: nat,
    n: nat,
    o: int,
)
    requires
        variants_point(p, word, w1, payloads, at, env, deep, n, o),
    ensures
        o >= 0,
    decreases DEEPEST_WALK + 1 - deep, 1nat, n,
{
    if variants_point(p, word, w1, payloads, at, env, deep, (n - 1) as nat, o) {
        variants_above(p, word, w1, payloads, at, env, deep, (n - 1) as nat, o);
    } else {
        fields_above(p, word, w1, payloads[n - 1], at[n - 1], env, deep, payloads[n - 1].len(), o);
    }
}

proof fn steps_above(
    p: TTIRProgram,
    word: nat,
    w1: nat,
    elem: TyId,
    env: Seq<TyId>,
    stride: nat,
    deep: nat,
    n: nat,
    o: int,
)
    requires
        steps_point(p, word, w1, elem, env, stride, deep, n, o),
    ensures
        o >= 0,
    decreases DEEPEST_WALK + 1 - deep, 0nat, n,
{
    if steps_point(p, word, w1, elem, env, stride, deep, (n - 1) as nat, o) {
        steps_above(p, word, w1, elem, env, stride, deep, (n - 1) as nat, o);
    } else {
        points_above(p, word, w1, elem, env, (deep + 1) as nat, o - (n - 1) * stride);
        assert((n - 1) * stride >= 0) by (nonlinear_arith)
            requires
                n >= 1,
        ;
    }
}

/// Where element `k` of an array, `stride` apart, puts an offset `x` within
/// the element.
pub open spec fn at_step(k: int, stride: nat, x: int) -> int {
    k * stride + x
}

/// Whether `r` is one of the offsets in `one`, moved along to one of the
/// first `n` elements.
pub open spec fn stepped(one: Seq<usize>, stride: nat, n: nat, r: int) -> bool {
    exists|k: int, i: int| 0 <= k < n && 0 <= i < one.len() && r == #[trigger] at_step(k, stride, one[i] as int)
}

proof fn names_push(s: Seq<usize>, v: usize)
    ensures
        forall|o: int| names(s.push(v), o) <==> (names(s, o) || o == v as int),
{
    assert forall|o: int| names(s.push(v), o) <==> (names(s, o) || o == v as int) by {
        if names(s.push(v), o) {
            let i = choose|i: int| 0 <= i < s.push(v).len() && s.push(v)[i] as int == o;
            if i < s.len() {
                assert(s[i] == s.push(v)[i]);
            }
        }
        if names(s, o) {
            let i = choose|i: int| 0 <= i < s.len() && s[i] as int == o;
            assert(s.push(v)[i] == s[i]);
        }
        if o == v as int {
            assert(s.push(v)[s.len() as int] == v);
        }
    }
}

/// An element reported by one of the first `n` steps is reported by one
/// particular step.
proof fn steps_witness(p: TTIRProgram, word: nat, w1: nat, elem: TyId, env: Seq<TyId>, stride: nat, deep: nat, n: nat, r: int)
    requires
        steps_point(p, word, w1, elem, env, stride, deep, n, r),
    ensures
        exists|k: int| 0 <= k < n && #[trigger] points(p, word, w1, elem, env, (deep + 1) as nat, r - k * stride),
    decreases n,
{
    if steps_point(p, word, w1, elem, env, stride, deep, (n - 1) as nat, r) {
        steps_witness(p, word, w1, elem, env, stride, deep, (n - 1) as nat, r);
    } else {
        assert(points(p, word, w1, elem, env, (deep + 1) as nat, r - (n - 1) * stride));
    }
}

/// What one step reports, the first `n` steps report.
proof fn steps_from(p: TTIRProgram, word: nat, w1: nat, elem: TyId, env: Seq<TyId>, stride: nat, deep: nat, n: nat, r: int, k: int)
    requires
        deep <= DEEPEST_WALK,
        0 <= k < n,
        points(p, word, w1, elem, env, (deep + 1) as nat, r - k * stride),
    ensures
        steps_point(p, word, w1, elem, env, stride, deep, n, r),
    decreases n,
{
    if k < n - 1 {
        steps_from(p, word, w1, elem, env, stride, deep, (n - 1) as nat, r, k);
    }
}

/// With `one` the offsets an element reports within the map, the steps
/// report just the offsets of `one` moved along by whole strides.
proof fn steps_match(
    p: TTIRProgram,
    lw: nat,
    elem: TyId,
    env: Seq<TyId>,
    stride: nat,
    deep: nat,
    n: nat,
    one: Seq<usize>,
    word: nat,
    words: nat,
    base: int,
    o: int,
)
    requires
        deep <= DEEPEST_WALK,
        word >= 1,
        base >= 0,
        counted(word, words, o),
        forall|x: int| names(one, x) <==> (counted(word, words, x) && points(p, lw, word, elem, env, (deep + 1) as nat, x)),
    ensures
        steps_point(p, lw, word, elem, env, stride, deep, n, o - base) <==> stepped(one, stride, n, o - base),
{
    let r = o - base;
    if steps_point(p, lw, word, elem, env, stride, deep, n, r) {
        steps_witness(p, lw, word, elem, env, stride, deep, n, r);
        let k = choose|k: int| 0 <= k < n && #[trigger] points(p, lw, word, elem, env, (deep + 1) as nat, r - k * stride);
        let x = r - k * stride;
        points_above(p, lw, word, elem, env, (deep + 1) as nat, x);
        assert(k * stride >= 0) by (nonlinear_arith)
            requires
                k >= 0,
        ;
        vstd::arithmetic::div_mod::lemma_div_is_ordered(x, o, word as int);
        assert(names(one, x));
        let i = choose|i: int| 0 <= i < one.len() && one[i] as int == x;
        assert(r == at_step(k, stride, one[i] as int));
    }
    if stepped(one, stride, n, r) {
        let (k, i) = choose|k: int, i: int| 0 <= k < n && 0 <= i < one.len() && r == #[trigger] at_step(k, stride, one[i] as int);
        assert(names(one, one[i] as int));
        steps_from(p, lw, word, elem, env, stride, deep, n, r, k);
    }
}

/// Where a stride is past what a machine word holds, only the first element
/// is within reach.
proof fn steps_past(p: TTIRProgram, lw: nat, w1: nat, elem: TyId, env: Seq<TyId>, stride: nat, deep: nat, n: nat, r: int)
    requires
        deep <= DEEPEST_WALK,
        stride > usize::MAX,
        0 <= r <= usize::MAX,
    ensures
        steps_point(p, lw, w1, elem, env, stride, deep, n, r) <==> steps_point(
            p,
            lw,
            w1,
            elem,
            env,
            0,
            deep,
            if n > 0 { 1 } else { 0 },
            r,
        ),
{
    if steps_point(p, lw, w1, elem, env, stride, deep, n, r) {
        steps_witness(p, lw, w1, elem, env, stride, deep, n, r);
        let k = choose|k: int| 0 <= k < n && #[trigger] points(p, lw, w1, elem, env, (deep + 1) as nat, r - k * stride);
        points_above(p, lw, w1, elem, env, (deep + 1) as nat, r - k * stride);
        if k >= 1 {
            assert(k * stride >= stride) by (nonlinear_arith)
                requires
                    k >= 1,
                    stride >= 0,
            ;
        }
        assert(k == 0);
        assert(k * stride == 0 * 0) by (nonlinear_arith)
            requires
                k == 0,
        ;
        steps_from(p, lw, w1, elem, env, 0, deep, 1, r, 0);
    }
    if steps_point(p, lw, w1, elem, env, 0, deep, if n > 0 { 1 } else { 0 }, r) {
        assert(!steps_point(p, lw, w1, elem, env, 0, deep, 0, r));
        assert(points(p, lw, w1, elem, env, (deep + 1) as nat, r - (1 - 1) * 0));
        steps_from(p, lw, w1, elem, env, stride, deep, n, r, 0);
    }
}

// ---- Where the pointers are, as a walk --------------------------------------

/// Adds `base + add` to `out` where the map has a bit for it.
fn note_at(out: &mut Vec<usize>, base: usize, add: usize, word: usize, words: usize)
    requires
        word >= 1,
    ensures
        forall|o: int|
            #![trigger names(final(out)@, o)]
            names(final(out)@, o) <==> (names(old(out)@, o) || (o == base + add && counted(word as nat, words as nat, o))),
{
    let ghost before = out@;
    if add <= usize::MAX - base {
        let o = base + add;
        if o / word < words {
            proof {
                names_push(out@, o);
            }
            out.push(o);
            assert forall|x: int|
                #![trigger names(out@, x)]
                names(out@, x) <==> (names(before, x) || (x == base + add && counted(word as nat, words as nat, x))) by {
                assert(names(out@, x) <==> (names(before, x) || x == o as int));
            }
        } else {
            assert forall|x: int|
                #![trigger names(out@, x)]
                names(out@, x) <==> (names(before, x) || (x == base + add && counted(word as nat, words as nat, x))) by {
                if x == base + add {
                    assert(!counted(word as nat, words as nat, x));
                }
            }
        }
    } else {
        assert forall|x: int|
            #![trigger names(out@, x)]
            names(out@, x) <==> (names(before, x) || (x == base + add && counted(word as nat, words as nat, x))) by {
            if x == base + add {
                assert(!counted(word as nat, words as nat, x));
            }
        }
    }
}

/// Moves the offsets in `one` along by `stride` for each of `len` elements
/// starting at `base`, as far as the map reaches.
fn walk_steps(one: &Vec<usize>, base: usize, stride: usize, len: u64, word: usize, words: usize, out: &mut Vec<usize>)
    requires
        word >= 1,
    ensures
        forall|o: int|
            names(final(out)@, o) <==> (names(old(out)@, o) || (counted(word as nat, words as nat, o) && stepped(
                one@,
                stride as nat,
                len as nat,
                o - base,
            ))),
{
    let ghost out0 = out@;
    let mut step: u64 = 0;
    let mut start: usize = base;
    let mut going = true;
    while going && step < len
        invariant
            word >= 1,
            step <= len,
            going ==> start == base + step * stride,
            forall|o: int|
                names(out@, o) <==> (names(out0, o) || (counted(word as nat, words as nat, o) && stepped(
                    one@,
                    stride as nat,
                    step as nat,
                    o - base,
                ))),
            !going ==> forall|o: int|
                counted(word as nat, words as nat, o) && stepped(one@, stride as nat, len as nat, o - base) ==> stepped(
                    one@,
                    stride as nat,
                    step as nat,
                    o - base,
                ),
        decreases len - step, if going { 1int } else { 0int },
    {
        if start / word >= words {
            going = false;
            proof {
                assert forall|o: int|
                    counted(word as nat, words as nat, o) && stepped(one@, stride as nat, len as nat, o - base) implies stepped(
                    one@,
                    stride as nat,
                    step as nat,
                    o - base,
                ) by {
                    let (k, i) = choose|k: int, i: int|
                        0 <= k < len && 0 <= i < one@.len() && o - base == #[trigger] at_step(k, stride as nat, one@[i] as int);
                    if k >= step {
                        vstd::arithmetic::mul::lemma_mul_inequality(step as int, k, stride as int);
                        vstd::arithmetic::div_mod::lemma_div_is_ordered(start as int, o, word as int);
                    }
                }
            }
        } else {
            let ghost mid = out@;
            let mut i: usize = 0;
            while i < one.len()
                invariant
                    word >= 1,
                    i <= one@.len(),
                    forall|o: int|
                        #![trigger names(out@, o)]
                        names(out@, o) <==> (names(mid, o) || (counted(word as nat, words as nat, o) && exists|j: int|
                            0 <= j < i && o == start + one@[j])),
                decreases one@.len() - i,
            {
                let ghost before = out@;
                note_at(out, start, one[i], word, words);
                proof {
                    assert forall|o: int|
                        #![trigger names(out@, o)]
                        names(out@, o) <==> (names(mid, o) || (counted(word as nat, words as nat, o) && exists|j: int|
                            0 <= j < i + 1 && o == start + one@[j])) by {
                        assert(names(before, o) <==> (names(mid, o) || (counted(word as nat, words as nat, o) && exists|j: int|
                            0 <= j < i && o == start + one@[j])));
                        assert(names(out@, o) <==> (names(before, o) || (o == start + one@[i as int] && counted(
                            word as nat,
                            words as nat,
                            o,
                        ))));
                        if o == start + one@[i as int] {
                            assert(0 <= i < i + 1 && o == start + one@[i as int]);
                        }
                        if exists|j: int| 0 <= j < i + 1 && o == start + one@[j] {
                            let j = choose|j: int| 0 <= j < i + 1 && o == start + one@[j];
                            if j < i {
                                assert(0 <= j < i && o == start + one@[j]);
                            }
                        }
                    }
                }
                i = i + 1;
            }
            proof {
                assert forall|o: int|
                    counted(word as nat, words as nat, o) implies (stepped(one@, stride as nat, (step + 1) as nat, o - base) <==> (
                    stepped(one@, stride as nat, step as nat, o - base) || exists|j: int|
                        0 <= j < one@.len() && o == start + one@[j])) by {
                    if stepped(one@, stride as nat, (step + 1) as nat, o - base) {
                        let (k, j) = choose|k: int, j: int|
                            0 <= k < step + 1 && 0 <= j < one@.len() && o - base == #[trigger] at_step(
                                k,
                                stride as nat,
                                one@[j] as int,
                            );
                        if k < step {
                            assert(stepped(one@, stride as nat, step as nat, o - base));
                        } else {
                            assert(o == start + one@[j]);
                        }
                    }
                    if exists|j: int| 0 <= j < one@.len() && o == start + one@[j] {
                        let j = choose|j: int| 0 <= j < one@.len() && o == start + one@[j];
                        assert(o - base == at_step(step as int, stride as nat, one@[j] as int));
                    }
                    if stepped(one@, stride as nat, step as nat, o - base) {
                        let (k, j) = choose|k: int, j: int|
                            0 <= k < step && 0 <= j < one@.len() && o - base == #[trigger] at_step(
                                k,
                                stride as nat,
                                one@[j] as int,
                            );
                        assert(o - base == at_step(k, stride as nat, one@[j] as int));
                    }
                }
            }
            step = step + 1;
            if stride == 0 {
                going = false;
                proof {
                    assert forall|o: int|
                        counted(word as nat, words as nat, o) && stepped(one@, stride as nat, len as nat, o - base) implies stepped(
                        one@,
                        stride as nat,
                        step as nat,
                        o - base,
                    ) by {
                        let (k, j) = choose|k: int, j: int|
                            0 <= k < len && 0 <= j < one@.len() && o - base == #[trigger] at_step(
                                k,
                                stride as nat,
                                one@[j] as int,
                            );
                        assert(at_step(0, 0, one@[j] as int) == one@[j] as int);
                        assert(k * 0 == 0);
                    }
                }
            } else if start > usize::MAX - stride {
                going = false;
                proof {
                    assert forall|o: int|
                        counted(word as nat, words as nat, o) && stepped(one@, stride as nat, len as nat, o - base) implies stepped(
                        one@,
                        stride as nat,
                        step as nat,
                        o - base,
                    ) by {
                        let (k, j) = choose|k: int, j: int|
                            0 <= k < len && 0 <= j < one@.len() && o - base == #[trigger] at_step(
                                k,
                                stride as nat,
                                one@[j] as int,
                            );
                        if k >= step {
                            vstd::arithmetic::mul::lemma_mul_inequality(step as int, k, stride as int);
                            assert(step * stride == (step - 1) * stride + stride) by (nonlinear_arith);
                        }
                    }
                }
            } else {
                assert(step * stride == (step - 1) * stride + stride) by (nonlinear_arith);
                start = start + stride;
            }
        }
    }
}

/// Whether `after` is `before` with every offset the walk of `ty` placed at
/// `base` reports, among the ones the map has a bit for.
pub open spec fn grew(
    p: TTIRProgram,
    lw: nat,
    word: nat,
    words: nat,
    ty: TyId,
    env: Seq<TyId>,
    deep: nat,
    base: int,
    before: Seq<usize>,
    after: Seq<usize>,
) -> bool {
    forall|o: int|
        #![trigger names(after, o)]
        names(after, o) <==> (names(before, o) || (counted(word, words, o) && points(p, lw, word, ty, env, deep, o - base)))
}

/// Every byte offset from `base` at which a word holding an address begins,
/// among the ones the map has a bit for. Written as offsets rather than word
/// numbers because every caller has an offset in hand and none of them has a
/// word number.
fn walk(
    layouts: &Layouts,
    p: &TTIRProgram,
    ty: TyId,
    env: &[TyId],
    base: usize,
    word: usize,
    words: usize,
    out: &mut Vec<usize>,
    deep: usize,
)
    requires
        layouts.wf(),
        layouts.program() == *p,
        word >= 1,
    ensures
        grew(*p, layouts.word_size(), word as nat, words as nat, ty, env@, deep as nat, base as int, old(out)@, final(out)@),
    decreases DEEPEST_WALK + 1 - deep, 2nat, 0nat,
{
    if deep > DEEPEST_WALK || ty >= p.types.len() {
        return;
    }
    let ghost lw = layouts.word_size();
    let ghost out0 = out@;
    match &p.types[ty] {
        // The three that are one address, and the whole reason any of this
        // exists. A reference to a trait object is two words and only the
        // first of them is one the collector may follow.
        Ty::Ref { .. } => note_at(out, base, 0, word, words),
        Ty::Ptr(_) => note_at(out, base, 0, word, words),
        Ty::GC(_) => note_at(out, base, 0, word, words),
        // Nothing holds a bare one, so nothing describes one either.
        Ty::Dyn(_) => {},
        // Two words; which of them is the address differs, and naming both is
        // allowed where naming too few is not.
        Ty::Run(_) | Ty::Fn { .. } => {
            note_at(out, base, 0, word, words);
            note_at(out, base, word, word, words);
        },
        Ty::Prim(q) => match q {
            TIRPrim::Str => note_at(out, base, 0, word, words),
            _ => {},
        },
        Ty::Param { index, .. } => {
            if *index < env.len() {
                let none: Vec<TyId> = Vec::new();
                proof {
                    assert(none@ =~= Seq::<TyId>::empty());
                }
                walk(layouts, p, env[*index], none.as_slice(), base, word, words, out, deep + 1);
            }
        },
        Ty::Array { elem, len } => {
            // Worked out once for one element and then repeated: an array of
            // a million bytes would otherwise be a million walks to conclude
            // that a byte is not a pointer.
            let mut one: Vec<usize> = Vec::new();
            walk(layouts, p, *elem, env, 0, word, words, &mut one, deep + 1);
            proof {
                assert forall|x: int|
                    names(one@, x) <==> (counted(word as nat, words as nat, x) && points(
                        *p,
                        lw,
                        word as nat,
                        *elem,
                        env@,
                        (deep + 1) as nat,
                        x,
                    )) by {
                    assert(!names(Seq::<usize>::empty(), x));
                }
            }
            if one.len() == 0 {
                proof {
                    assert forall|o: int|
                        counted(word as nat, words as nat, o) && points(*p, lw, word as nat, ty, env@, deep as nat, o - base)
                        implies false by {
                        let l = laid(*p, lw, *elem, env@, Seq::empty(), DEEPEST as nat)->0;
                        steps_match(
                            *p,
                            lw,
                            *elem,
                            env@,
                            up(l.bytes, l.align),
                            deep as nat,
                            *len as nat,
                            one@,
                            word as nat,
                            words as nat,
                            base as int,
                            o,
                        );
                    }
                }
                return;
            }
            match layouts.of_in(*elem, env) {
                None => {},
                Some(held) => {
                    let ghost stride = up(held.bytes as nat, held.align as nat);
                    match crate::layout::up_to(held.bytes, held.align) {
                        Some(s) => {
                            walk_steps(&one, base, s, *len, word, words, out);
                            proof {
                                assert forall|o: int|
                                    #![trigger names(out@, o)]
                                    names(out@, o) <==> (names(out0, o) || (counted(word as nat, words as nat, o) && points(
                                        *p,
                                        lw,
                                        word as nat,
                                        ty,
                                        env@,
                                        deep as nat,
                                        o - base,
                                    ))) by {
                                    if counted(word as nat, words as nat, o) {
                                        steps_match(
                                            *p,
                                            lw,
                                            *elem,
                                            env@,
                                            stride,
                                            deep as nat,
                                            *len as nat,
                                            one@,
                                            word as nat,
                                            words as nat,
                                            base as int,
                                            o,
                                        );
                                    }
                                }
                            }
                        },
                        None => {
                            // A stride no word can hold: only the first
                            // element starts within reach.
                            let n: u64 = if *len > 0 { 1 } else { 0 };
                            walk_steps(&one, base, 0, n, word, words, out);
                            proof {
                                assert forall|o: int|
                                    #![trigger names(out@, o)]
                                    names(out@, o) <==> (names(out0, o) || (counted(word as nat, words as nat, o) && points(
                                        *p,
                                        lw,
                                        word as nat,
                                        ty,
                                        env@,
                                        deep as nat,
                                        o - base,
                                    ))) by {
                                    if counted(word as nat, words as nat, o) {
                                        if o - base < 0 {
                                            if points(*p, lw, word as nat, ty, env@, deep as nat, o - base) {
                                                points_above(*p, lw, word as nat, ty, env@, deep as nat, o - base);
                                            }
                                        } else {
                                            steps_past(
                                                *p,
                                                lw,
                                                word as nat,
                                                *elem,
                                                env@,
                                                stride,
                                                deep as nat,
                                                *len as nat,
                                                o - base,
                                            );
                                        }
                                        steps_match(
                                            *p,
                                            lw,
                                            *elem,
                                            env@,
                                            0,
                                            deep as nat,
                                            n as nat,
                                            one@,
                                            word as nat,
                                            words as nat,
                                            base as int,
                                            o,
                                        );
                                    }
                                }
                            }
                        },
                    }
                },
            }
        },
        Ty::Tuple(parts) => {
            match layouts.of_in(ty, env) {
                Some(l) => match &l.shape {
                    Shape::Fields(offs) => walk_fields(layouts, p, parts, offs, env, base, word, words, out, deep),
                    _ => {},
                },
                None => {},
            }
        },
        Ty::Named { item, args } => {
            match layouts.of_in(ty, env) {
                None => {},
                Some(l) => {
                    if *item < p.items.len() {
                        // The arguments are written at the use, so they are
                        // read in the environment of the use and become the
                        // environment of the declaration.
                        let h = layouts.handed_args(args, env);
                        match &p.items[*item].kind {
                            TTIRItemKind::Struct { fields, .. } => match &l.shape {
                                Shape::Fields(offs) => {
                                    let tys = field_types(fields);
                                    walk_fields(layouts, p, &tys, offs, h.as_slice(), base, word, words, out, deep);
                                },
                                _ => {},
                            },
                            TTIRItemKind::Enum { variants, .. } => match &l.shape {
                                Shape::Tagged { variants: at, .. } => {
                                    walk_variants(layouts, p, variants, at, h.as_slice(), base, word, words, out, deep);
                                },
                                _ => {},
                            },
                            // What it points at and what answers for it: two
                            // words, both addresses.
                            TTIRItemKind::Trait { .. } => {
                                note_at(out, base, 0, word, words);
                                note_at(out, base, word, word, words);
                            },
                            TTIRItemKind::Other { .. } => {},
                        }
                    }
                },
            }
        },
        // Neither survives a program the front end accepted, and the layouts
        // have already said so with a nothing.
        Ty::Var(_) => {},
        Ty::Error => {},
    }
}

/// The walk of each field at its offset, where it has one.
fn walk_fields(
    layouts: &Layouts,
    p: &TTIRProgram,
    tys: &Vec<TyId>,
    offs: &Vec<usize>,
    env: &[TyId],
    base: usize,
    word: usize,
    words: usize,
    out: &mut Vec<usize>,
    deep: usize,
)
    requires
        layouts.wf(),
        layouts.program() == *p,
        word >= 1,
        deep <= DEEPEST_WALK,
    ensures
        forall|o: int|
            #![trigger names(final(out)@, o)]
            names(final(out)@, o) <==> (names(old(out)@, o) || (counted(word as nat, words as nat, o) && fields_point(
                *p,
                layouts.word_size(),
                word as nat,
                tys@,
                offsets_v(offs@),
                env@,
                deep as nat,
                tys@.len(),
                o - base,
            ))),
    decreases DEEPEST_WALK + 1 - deep, 0nat, tys@.len(),
{
    let ghost lw = layouts.word_size();
    let ghost out0 = out@;
    let mut i: usize = 0;
    while i < tys.len()
        invariant
            layouts.wf(),
            layouts.program() == *p,
            word >= 1,
            deep <= DEEPEST_WALK,
            lw == layouts.word_size(),
            i <= tys@.len(),
            forall|o: int|
                #![trigger names(out@, o)]
                names(out@, o) <==> (names(out0, o) || (counted(word as nat, words as nat, o) && fields_point(
                    *p,
                    lw,
                    word as nat,
                    tys@,
                    offsets_v(offs@),
                    env@,
                    deep as nat,
                    i as nat,
                    o - base,
                ))),
        decreases tys@.len() - i,
    {
        let ghost before = out@;
        if i < offs.len() {
            let off = offs[i];
            if off <= usize::MAX - base {
                walk(layouts, p, tys[i], env, base + off, word, words, out, deep + 1);
            } else {
                proof {
                    assert forall|o: int|
                        counted(word as nat, words as nat, o) implies !points(
                        *p,
                        lw,
                        word as nat,
                        tys@[i as int],
                        env@,
                        (deep + 1) as nat,
                        o - base - off,
                    ) by {
                        if points(*p, lw, word as nat, tys@[i as int], env@, (deep + 1) as nat, o - base - off) {
                            points_above(*p, lw, word as nat, tys@[i as int], env@, (deep + 1) as nat, o - base - off);
                        }
                    }
                }
            }
        }
        i = i + 1;
    }
}

/// The walk of every variant's fields.
fn walk_variants(
    layouts: &Layouts,
    p: &TTIRProgram,
    variants: &Vec<TTIRVariant>,
    at: &Vec<Vec<usize>>,
    env: &[TyId],
    base: usize,
    word: usize,
    words: usize,
    out: &mut Vec<usize>,
    deep: usize,
)
    requires
        layouts.wf(),
        layouts.program() == *p,
        word >= 1,
        deep <= DEEPEST_WALK,
    ensures
        forall|o: int|
            #![trigger names(final(out)@, o)]
            names(final(out)@, o) <==> (names(old(out)@, o) || (counted(word as nat, words as nat, o) && variants_point(
                *p,
                layouts.word_size(),
                word as nat,
                payloads_of(variants@),
                at@.map_values(|v: Vec<usize>| offsets_v(v@)),
                env@,
                deep as nat,
                variants@.len(),
                o - base,
            ))),
    decreases DEEPEST_WALK + 1 - deep, 1nat, 0nat,
{
    let ghost lw = layouts.word_size();
    let ghost out0 = out@;
    let mut which: usize = 0;
    while which < variants.len()
        invariant
            layouts.wf(),
            layouts.program() == *p,
            word >= 1,
            deep <= DEEPEST_WALK,
            lw == layouts.word_size(),
            which <= variants@.len(),
            forall|o: int|
                #![trigger names(out@, o)]
                names(out@, o) <==> (names(out0, o) || (counted(word as nat, words as nat, o) && variants_point(
                    *p,
                    lw,
                    word as nat,
                    payloads_of(variants@),
                    at@.map_values(|v: Vec<usize>| offsets_v(v@)),
                    env@,
                    deep as nat,
                    which as nat,
                    o - base,
                ))),
        decreases variants@.len() - which,
    {
        if which < at.len() {
            let tys = payload_types(&variants[which].payload);
            walk_fields(layouts, p, &tys, &at[which], env, base, word, words, out, deep);
        }
        which = which + 1;
    }
}

// ---- The descriptor -----------------------------------------------------------

/// Byte `i` of `v`, low byte first.
pub open spec fn byte_of(v: u64, i: int) -> u8 {
    ((v >> ((8 * i) as u64)) & 0xff) as u8
}

/// Whether the eight bytes of `d` from `at` on are `v`, low byte first.
pub open spec fn le_at(d: Seq<u8>, at: int, v: u64) -> bool {
    forall|i: int| 0 <= i < 8 ==> #[trigger] byte_of(v, i) == d[at + i]
}

/// Whether bit `at` of `b` is set, low bit first.
pub open spec fn bit(b: u8, at: int) -> bool {
    (b >> (at as u8)) & 1u8 == 1u8
}

/// Whether the map in `d` names word `k`: bit `k % 8` of the map's byte
/// `k / 8`.
pub open spec fn map_bit(d: Seq<u8>, k: int) -> bool {
    bit(d[HEADER + k / 8], k % 8)
}

/// `n` divided by `d`, rounded up.
pub open spec fn ceil_div(n: nat, d: nat) -> nat {
    if n % d == 0 {
        n / d
    } else {
        n / d + 1
    }
}

/// How many bytes the map of `words` words takes: a bit each, and never
/// less than a byte.
pub open spec fn map_len(words: nat) -> nat {
    if ceil_div(words, 8) == 0 {
        1
    } else {
        ceil_div(words, 8)
    }
}

/// Whether word `k` of a value of `ty` holds an address: some offset a machine
/// word can hold, in word `k`, is one the walk reports.
pub open spec fn marked(p: TTIRProgram, lw: nat, word: nat, ty: TyId, words: nat, k: int) -> bool {
    0 <= k < words && exists|o: int|
        0 <= o <= usize::MAX && o / (word as int) == k && #[trigger] points(p, lw, word, ty, Seq::empty(), 0, o)
}

/// The header every descriptor begins with.
pub open spec fn header(d: Seq<u8>, bytes: u64, align: u64, words: u64, kind: u8, indirect: u8) -> bool {
    &&& d.len() >= HEADER
    &&& le_at(d, 0, bytes)
    &&& le_at(d, 8, align)
    &&& le_at(d, 16, words)
    &&& d[24] == kind
    &&& d[25] == indirect
    &&& forall|i: int| 26 <= i < HEADER ==> #[trigger] d[i] == 0
}

/// What `describe` writes for `ty`, whose layout is `held`, on a machine whose
/// word is `mword` bytes.
pub open spec fn descriptor(d: Seq<u8>, p: TTIRProgram, mword: nat, ty: TyId, held: LayoutV) -> bool {
    let word = if mword == 0 { 1 } else { mword };
    let words = ceil_div(held.bytes, word);
    &&& d.len() == HEADER + map_len(words)
    &&& header(
        d,
        held.bytes as u64,
        held.align as u64,
        words as u64,
        kind_byte(kind_spec(p, ty)),
        if indirect_spec(Some(held), mword) { 1 } else { 0 },
    )
    &&& forall|k: int| 0 <= k < 8 * map_len(words) ==> (#[trigger] map_bit(d, k) <==> marked(p, mword, word, ty, words, k))
}

proof fn set_bit(x: u8, c: u8, b: u8)
    requires
        c < 8,
        b < 8,
    ensures
        (((x | (1u8 << c)) >> b) & 1u8 == 1u8) <==> (((x >> b) & 1u8 == 1u8) || b == c),
{
    assert((((x | (1u8 << c)) >> b) & 1u8 == 1u8) <==> (((x >> b) & 1u8 == 1u8) || b == c)) by (bit_vector)
        requires
            c < 8,
            b < 8,
    ;
}

proof fn zero_bits(b: u8)
    requires
        b < 8,
    ensures
        !((0u8 >> b) & 1u8 == 1u8),
{
    assert(!((0u8 >> b) & 1u8 == 1u8)) by (bit_vector)
        requires
            b < 8,
    ;
}

/// `n` noughts.
fn zeros(n: usize) -> (r: Vec<u8>)
    ensures
        r@.len() == n,
        forall|i: int| 0 <= i < n ==> #[trigger] r@[i] == 0,
{
    let mut out: Vec<u8> = Vec::new();
    let mut i: usize = 0;
    while i < n
        invariant
            i <= n,
            out@.len() == i,
            forall|j: int| 0 <= j < i ==> #[trigger] out@[j] == 0,
        decreases n - i,
    {
        out.push(0);
        i = i + 1;
    }
    out
}

/// Writes `v` into the eight bytes from `at` on, low byte first.
fn put_le(out: &mut Vec<u8>, at: usize, v: u64)
    requires
        at + 8 <= old(out)@.len(),
    ensures
        final(out)@.len() == old(out)@.len(),
        le_at(final(out)@, at as int, v),
        forall|i: int| 0 <= i < old(out)@.len() && !(at <= i < at + 8) ==> #[trigger] final(out)@[i] == old(out)@[i],
{
    let ghost before = out@;
    let n = out.len();
    let mut i: usize = 0;
    while i < 8
        invariant
            at + 8 <= n,
            n == before.len(),
            i <= 8,
            out@.len() == before.len(),
            forall|j: int| 0 <= j < i ==> #[trigger] byte_of(v, j) == out@[at + j],
            forall|j: int| 0 <= j < before.len() && !(at <= j < at + i) ==> #[trigger] out@[j] == before[j],
        decreases 8 - i,
    {
        let b = ((v >> (8 * i as u64)) & 0xff) as u8;
        assert(b == byte_of(v, i as int));
        out.set(at + i, b);
        i = i + 1;
    }
}

/// The number of words `bytes` take, rounded up.
fn words_of(bytes: usize, word: usize) -> (r: usize)
    requires
        word >= 1,
    ensures
        r == ceil_div(bytes as nat, word as nat),
{
    let q = bytes / word;
    if bytes % word == 0 {
        q
    } else {
        proof {
            assert(word >= 2);
            vstd::arithmetic::div_mod::lemma_div_is_ordered_by_denominator(bytes as int, 2, word as int);
        }
        q + 1
    }
}

/// How many bytes a map of `words` words takes.
fn map_bytes(words: usize) -> (r: usize)
    ensures
        r == map_len(words as nat),
        r <= words / 8 + 1,
{
    let m = words_of(words, 8);
    if m == 0 {
        1
    } else {
        m
    }
}

/// The descriptor for one type, or nothing where the type has no layout: a
/// parameter with nothing standing in for it, or a type that holds itself.
pub fn describe(layouts: &Layouts, ttir: &TTIRProgram, machine: &Machine, ty: TyId) -> (r: Option<Vec<u8>>)
    requires
        layouts.wf(),
        layouts.program() == *ttir,
        layouts.word_size() == machine.word,
    ensures
        r is None <==> layouts.answer(ty, Seq::empty()) is None,
        r matches Some(d) ==> descriptor(d@, *ttir, machine.word as nat, ty, layouts.answer(ty, Seq::empty())->0),
{
    let held = match layouts.of(ty) {
        Some(held) => held,
        None => return None,
    };
    let word: usize = if machine.word == 0 { 1 } else { machine.word };
    let words = words_of(held.bytes, word);
    let ghost mlen = map_len(words as nat);

    let mut at: Vec<usize> = Vec::new();
    let none: Vec<TyId> = Vec::new();
    proof {
        assert(none@ =~= Seq::<TyId>::empty());
    }
    walk(layouts, ttir, ty, none.as_slice(), 0, word, words, &mut at, 0);
    proof {
        assert forall|o: int|
            names(at@, o) <==> (counted(word as nat, words as nat, o) && points(
                *ttir,
                machine.word as nat,
                word as nat,
                ty,
                Seq::empty(),
                0,
                o,
            )) by {
            assert(!names(Seq::<usize>::empty(), o));
            assert(o - 0 == o);
        }
    }

    let mut out = zeros(HEADER + map_bytes(words));
    put_le(&mut out, 0, held.bytes as u64);
    put_le(&mut out, 8, held.align as u64);
    put_le(&mut out, 16, words as u64);
    out.set(24, kind_of(ttir, ty).byte());
    let ind: u8 = if indirect(layouts, machine, ty) { 1 } else { 0 };
    out.set(25, ind);
    let ghost head = out@;
    proof {
        assert forall|k: int| 0 <= k < 8 * mlen implies !#[trigger] map_bit(out@, k) by {
            zero_bits((k % 8) as u8);
        }
    }

    let mut idx: usize = 0;
    while idx < at.len()
        invariant
            word >= 1,
            idx <= at@.len(),
            out@.len() == head.len(),
            head.len() == HEADER + mlen,
            mlen == map_len(words as nat),
            forall|i: int| 0 <= i < HEADER ==> #[trigger] out@[i] == head[i],
            forall|k: int|
                0 <= k < 8 * mlen ==> (#[trigger] map_bit(out@, k) <==> (k < words && exists|i: int|
                    0 <= i < idx && at@[i] / word == k)),
        decreases at@.len() - idx,
    {
        let which = at[idx] / word;
        let ghost before = out@;
        if which < words {
            let byte_at = HEADER + which / 8;
            let c = (which % 8) as u8;
            let b = out[byte_at] | (1u8 << c);
            out.set(byte_at, b);
            proof {
                assert forall|k: int| 0 <= k < 8 * mlen implies (#[trigger] map_bit(out@, k) <==> (k < words && exists|i: int|
                    0 <= i < idx + 1 && at@[i] / word == k)) by {
                    assert(map_bit(before, k) <==> (k < words && exists|i: int| 0 <= i < idx && at@[i] / word == k));
                    if k / 8 == which / 8 {
                        set_bit(before[byte_at as int], c, (k % 8) as u8);
                        if k % 8 == which % 8 {
                            assert(k == which);
                        }
                    } else {
                        assert(out@[HEADER + k / 8] == before[HEADER + k / 8]);
                    }
                    if k == which {
                        assert(0 <= idx < idx + 1 && at@[idx as int] / word == k);
                    }
                    if exists|i: int| 0 <= i < idx + 1 && at@[i] / word == k {
                        let i = choose|i: int| 0 <= i < idx + 1 && at@[i] / word == k;
                        if i < idx {
                            assert(0 <= i < idx && at@[i] / word == k);
                        }
                    }
                }
            }
        } else {
            proof {
                assert forall|k: int| 0 <= k < 8 * mlen implies (#[trigger] map_bit(out@, k) <==> (k < words && exists|i: int|
                    0 <= i < idx + 1 && at@[i] / word == k)) by {
                    if exists|i: int| 0 <= i < idx + 1 && at@[i] / word == k {
                        let i = choose|i: int| 0 <= i < idx + 1 && at@[i] / word == k;
                        if i < idx {
                            assert(0 <= i < idx && at@[i] / word == k);
                        }
                    }
                }
            }
        }
        idx = idx + 1;
    }
    proof {
        let lw = machine.word as nat;
        assert forall|k: int| 0 <= k < 8 * mlen implies (#[trigger] map_bit(out@, k) <==> marked(
            *ttir,
            lw,
            word as nat,
            ty,
            words as nat,
            k,
        )) by {
            if k < words && exists|i: int| 0 <= i < at@.len() && at@[i] / word == k {
                let i = choose|i: int| 0 <= i < at@.len() && at@[i] / word == k;
                assert(names(at@, at@[i] as int));
            }
            if marked(*ttir, lw, word as nat, ty, words as nat, k) {
                let o = choose|o: int|
                    0 <= o <= usize::MAX && o / (word as int) == k && #[trigger] points(*ttir, lw, word as nat, ty, Seq::empty(), 0, o);
                assert(names(at@, o));
                let i = choose|i: int| 0 <= i < at@.len() && at@[i] as int == o;
                assert(0 <= i < at@.len() && at@[i] / word == k);
            }
        }
    }
    Some(out)
}

/// A descriptor for a closure's environment, which is not a type anything
/// declared: a run of addresses, one per capture, every word of it named.
pub fn environment(words: usize, machine: &Machine) -> (r: Vec<u8>)
    requires
        words * (if machine.word == 0 { 1 } else { machine.word }) <= usize::MAX,
    ensures
        ({
            let word = if machine.word == 0 { 1 } else { machine.word };
            &&& r@.len() == HEADER + map_len(words as nat)
            &&& header(r@, (words * word) as u64, word as u64, words as u64, kind_byte(Kind::Opaque), 1)
            &&& forall|k: int| 0 <= k < 8 * map_len(words as nat) ==> (#[trigger] map_bit(r@, k) <==> k < words)
        }),
{
    let word: usize = if machine.word == 0 { 1 } else { machine.word };
    let ghost mlen = map_len(words as nat);
    let mut out = zeros(HEADER + map_bytes(words));
    put_le(&mut out, 0, (words * word) as u64);
    put_le(&mut out, 8, word as u64);
    put_le(&mut out, 16, words as u64);
    out.set(24, Kind::Opaque.byte());
    out.set(25, 1);
    let ghost head = out@;
    proof {
        assert forall|k: int| 0 <= k < 8 * mlen implies !#[trigger] map_bit(out@, k) by {
            zero_bits((k % 8) as u8);
        }
    }
    let mut at: usize = 0;
    while at < words
        invariant
            at <= words,
            out@.len() == head.len(),
            head.len() == HEADER + mlen,
            mlen == map_len(words as nat),
            forall|i: int| 0 <= i < HEADER ==> #[trigger] out@[i] == head[i],
            forall|k: int| 0 <= k < 8 * mlen ==> (#[trigger] map_bit(out@, k) <==> k < at),
        decreases words - at,
    {
        let byte_at = HEADER + at / 8;
        let c = (at % 8) as u8;
        let ghost before = out@;
        let b = out[byte_at] | (1u8 << c);
        out.set(byte_at, b);
        proof {
            assert forall|k: int| 0 <= k < 8 * mlen implies (#[trigger] map_bit(out@, k) <==> k < at + 1) by {
                assert(map_bit(before, k) <==> k < at);
                if k / 8 == at / 8 {
                    set_bit(before[byte_at as int], c, (k % 8) as u8);
                    if k % 8 == at % 8 {
                        assert(k == at);
                    }
                } else {
                    assert(out@[HEADER + k / 8] == before[HEADER + k / 8]);
                }
            }
        }
        at = at + 1;
    }
    out
}

/// What a descriptor is called: `__T`, then the type's spelling as one part
/// of a name -- the type is in the name because the name is the only place a
/// linker can be told which one is meant.
pub open spec fn symbol_spelled(spelled: &str) -> Seq<char> {
    "__T"@ + part_spelled(spelled)
}

/// No two types share a descriptor: types spelled differently get
/// descriptors named differently.
pub proof fn symbol_is_one_to_one(a: &str, b: &str)
    requires
        a.spec_bytes().len() <= usize::MAX,
        b.spec_bytes().len() <= usize::MAX,
    ensures
        symbol_spelled(a) == symbol_spelled(b) ==> a@ == b@,
{
    reveal_strlit("__T");
    if symbol_spelled(a) == symbol_spelled(b) {
        let n = symbol_spelled(a).len() as int;
        assert(part_spelled(a) =~= symbol_spelled(a).subrange(3, n));
        assert(part_spelled(b) =~= symbol_spelled(b).subrange(3, n));
        parts_are_one_to_one(a, b);
    }
}

/// The name of the descriptor of the type spelled `spelled`.
pub fn symbol(spelled: &str) -> (r: String)
    ensures
        r@ == symbol_spelled(spelled),
{
    let mut out = String::new();
    push_text(&mut out, "__T");
    part(spelled, &mut out);
    out
}

} // verus!
