//! What a type takes, and where each of its parts sits.
//!
//! Fields stay in the order they were written, each at the next offset its own
//! alignment allows, and the whole is rounded up so that a run of them keeps
//! every one aligned. An enum is a tag wide enough for the numbers the front end
//! gave its variants, then room for the widest variant, every variant's
//! payload starting at the same place.
//!
//! The answers are `Option`. `None` is a type parameter with nothing to say
//! what it stands for, a type that holds itself, a hole or an error, a trait
//! object on its own, or a size too big to count. A type that holds itself is
//! found by keeping the types being worked out on a stack, each with what its
//! type parameters stand for, and refusing one that comes round again in the
//! same standing: that is also what keeps a generic that holds itself through
//! its own argument from being looked at forever. A chain of any other kind is
//! walked to its end; the walk counts its levels against `DEEPEST`, which no
//! walk reaches, since every level holds a frame of the machine's stack.

use vstd::prelude::*;
use crate::machine::Machine;
use crate::text::{round_up, round_up_bounds};
use crate::ttir::{field_types, float_bits, payload_types, prim_values, TIRPrim, TTIRFieldDecl, TTIRItemKind, TTIRProgram, TTIRVariant, Ty, TyId};

verus! {

/// The most levels a walk can go down: one frame of the machine's stack for
/// each, so more than any machine can hold.
pub const DEEPEST: usize = usize::MAX;

#[derive(Debug, Clone, PartialEq, Eq)]
pub struct Layout {
    pub bytes: usize,
    pub align: usize,
    pub shape: Shape,
}

/// How the bytes are arranged, for the lowering that has to reach into them.
#[derive(Debug, Clone, PartialEq, Eq)]
pub enum Shape {
    /// One value, in one register.
    Scalar,
    /// Nothing to hold.
    Empty,
    /// A pointer and a length, or a pointer and a second pointer.
    Fat,
    /// One offset per field, in the order the declaration wrote them.
    Fields(Vec<usize>),
    /// Every element the same, one stride apart.
    Elements { stride: usize, len: u64 },
    /// A tag saying which variant, then the payload. The offsets are from the
    /// start of the whole value.
    Tagged { tag: usize, variants: Vec<Vec<usize>> },
}

pub ghost enum ShapeV {
    Scalar,
    Empty,
    Fat,
    Fields(Seq<nat>),
    Elements { stride: nat, len: nat },
    Tagged { tag: nat, variants: Seq<Seq<nat>> },
}

pub ghost struct LayoutV {
    pub bytes: nat,
    pub align: nat,
    pub shape: ShapeV,
}

pub open spec fn offsets_v(v: Seq<usize>) -> Seq<nat> {
    v.map_values(|x: usize| x as nat)
}

impl View for Shape {
    type V = ShapeV;

    open spec fn view(&self) -> ShapeV {
        match self {
            Shape::Scalar => ShapeV::Scalar,
            Shape::Empty => ShapeV::Empty,
            Shape::Fat => ShapeV::Fat,
            Shape::Fields(at) => ShapeV::Fields(offsets_v(at@)),
            Shape::Elements { stride, len } => ShapeV::Elements { stride: *stride as nat, len: *len as nat },
            Shape::Tagged { tag, variants } => ShapeV::Tagged {
                tag: *tag as nat,
                variants: variants@.map_values(|v: Vec<usize>| offsets_v(v@)),
            },
        }
    }
}

impl View for Layout {
    type V = LayoutV;

    open spec fn view(&self) -> LayoutV {
        LayoutV { bytes: self.bytes as nat, align: self.align as nat, shape: self.shape@ }
    }
}

pub open spec fn viewed(o: Option<Layout>) -> Option<LayoutV> {
    match o {
        Some(l) => Some(l@),
        None => None,
    }
}

// ---- What each kind of type takes ------------------------------------------

/// The next offset at or after `n` that `a` divides; nought divides nothing
/// and leaves `n` where it is.
pub open spec fn up(n: nat, a: nat) -> nat {
    if a == 0 {
        n
    } else {
        round_up(n as int, a as int) as nat
    }
}

pub open spec fn fits(n: int) -> bool {
    0 <= n <= usize::MAX
}

/// How wide a primitive number is, which its name says.
pub open spec fn prim_bytes(p: TIRPrim) -> nat {
    match p {
        TIRPrim::I8 | TIRPrim::U8 | TIRPrim::Bool => 1,
        TIRPrim::I16 | TIRPrim::U16 => 2,
        TIRPrim::I32 | TIRPrim::U32 | TIRPrim::F32 | TIRPrim::Char => 4,
        TIRPrim::I64 | TIRPrim::U64 | TIRPrim::F64 => 8,
        TIRPrim::I128 | TIRPrim::U128 => 16,
        _ => 0,
    }
}

/// One address.
pub open spec fn word_v(word: nat) -> LayoutV {
    LayoutV { bytes: word, align: word, shape: ShapeV::Scalar }
}

/// Two words side by side.
pub open spec fn fat_v(word: nat) -> LayoutV {
    LayoutV { bytes: 2 * word, align: word, shape: ShapeV::Fat }
}

/// Nothing to hold.
pub open spec fn empty_v() -> LayoutV {
    LayoutV { bytes: 0, align: 1, shape: ShapeV::Empty }
}

/// A string is a pointer and a length; `null` and `never` take no room; every
/// other primitive is as wide as its name says and aligned to itself.
pub open spec fn prim_v(p: TIRPrim, word: nat) -> LayoutV {
    match p {
        TIRPrim::Str => fat_v(word),
        TIRPrim::Null | TIRPrim::Never => empty_v(),
        _ => LayoutV { bytes: prim_bytes(p), align: prim_bytes(p), shape: ShapeV::Scalar },
    }
}

/// Whether the type at `at` is a trait object.
pub open spec fn dyn_at(p: TTIRProgram, at: TyId) -> bool {
    at < p.types@.len() && p.types@[at as int] is Dyn
}

/// The arguments of a use, worked out in the environment of the use: a
/// parameter stands for what the environment says, where it says anything.
pub open spec fn handed(p: TTIRProgram, args: Seq<TyId>, env: Seq<TyId>) -> Seq<TyId> {
    args.map_values(
        |arg: TyId|
            if arg < p.types@.len() && p.types@[arg as int] is Param && p.types@[arg as int]->index < env.len() {
                env[p.types@[arg as int]->index as int]
            } else {
                arg
            },
    )
}

/// The types of a structure's fields.
pub open spec fn fields_of(fields: Seq<TTIRFieldDecl>) -> Seq<TyId> {
    fields.map_values(|f: TTIRFieldDecl| f.ty)
}

/// What each variant of an enum holds.
pub open spec fn payloads_of(variants: Seq<TTIRVariant>) -> Seq<Seq<TyId>> {
    variants.map_values(|v: TTIRVariant| v.payload.types())
}

/// The number the front end gave each variant.
pub open spec fn values_of(variants: Seq<TTIRVariant>) -> Seq<i64> {
    variants.map_values(|v: TTIRVariant| v.value)
}

/// The smallest and the largest of some numbers; nought where there are none.
pub open spec fn lowest(values: Seq<i64>) -> int
    decreases values.len(),
{
    if values.len() == 0 {
        0
    } else if values.len() == 1 {
        values[0] as int
    } else {
        let rest = lowest(values.drop_last());
        if values.last() < rest { values.last() as int } else { rest }
    }
}

pub open spec fn highest(values: Seq<i64>) -> int
    decreases values.len(),
{
    if values.len() == 0 {
        0
    } else if values.len() == 1 {
        values[0] as int
    } else {
        let rest = highest(values.drop_last());
        if values.last() > rest { values.last() as int } else { rest }
    }
}

/// Whether every number from `low` to `high` fits in `bytes`, signed where
/// `low` is negative.
pub open spec fn tag_holds(low: int, high: int, bytes: nat) -> bool {
    let bits = (bytes * 8) as nat;
    if low < 0 {
        -vstd::arithmetic::power2::pow2((bits - 1) as nat) <= low && high <= vstd::arithmetic::power2::pow2(
            (bits - 1) as nat,
        ) - 1
    } else {
        high <= vstd::arithmetic::power2::pow2(bits) - 1
    }
}

/// How wide the tag is: the narrowest of one, two and four bytes that holds
/// every number the front end gave a variant, and eight where none of them does.
pub open spec fn tag_width(values: Seq<i64>) -> nat {
    let (low, high) = (lowest(values), highest(values));
    if tag_holds(low, high, 1) {
        1
    } else if tag_holds(low, high, 2) {
        2
    } else if tag_holds(low, high, 4) {
        4
    } else {
        8
    }
}

/// The widest of some layouts.
pub open spec fn widest(laid: Seq<LayoutV>) -> nat
    decreases laid.len(),
{
    if laid.len() == 0 {
        0
    } else {
        let rest = widest(laid.drop_last());
        if laid.last().bytes > rest { laid.last().bytes } else { rest }
    }
}

pub open spec fn max_nat(a: nat, b: nat) -> nat {
    if a > b { a } else { b }
}

// ---- The walk, as a definition ---------------------------------------------

/// What one of `ty` takes, with `env` standing for the type parameters in
/// hand and `doing` the types being worked out, each with what its
/// parameters stood for, within `fuel` levels.
pub open spec fn laid(p: TTIRProgram, word: nat, ty: TyId, env: Seq<TyId>, doing: Seq<(TyId, Seq<TyId>)>, fuel: nat) -> Option<LayoutV>
    decreases fuel, 0nat, 0nat,
{
    if fuel == 0 {
        None
    } else if doing.contains((ty, env)) {
        None
    } else if ty >= p.types@.len() {
        None
    } else {
        let d = doing.push((ty, env));
        let f = (fuel - 1) as nat;
        match p.types@[ty as int] {
            Ty::Prim(q) => Some(prim_v(q, word)),
            Ty::Param { index, .. } => if index < env.len() {
                laid(p, word, env[index as int], Seq::empty(), d, f)
            } else {
                None
            },
            Ty::Ref { inner, .. } => if dyn_at(p, inner) { Some(fat_v(word)) } else { Some(word_v(word)) },
            Ty::Ptr(inner) => if dyn_at(p, inner) { Some(fat_v(word)) } else { Some(word_v(word)) },
            Ty::GC(_) => Some(word_v(word)),
            Ty::Dyn(_) => None,
            Ty::Run(_) => Some(fat_v(word)),
            Ty::Fn { .. } => Some(fat_v(word)),
            Ty::Array { elem, len } => match laid(p, word, elem, env, d, f) {
                None => None,
                Some(one) => {
                    let stride = up(one.bytes, one.align);
                    if fits(stride as int) && fits(stride * len) {
                        Some(LayoutV { bytes: (stride * len) as nat, align: one.align, shape: ShapeV::Elements { stride, len: len as nat } })
                    } else {
                        None
                    }
                },
            },
            Ty::Tuple(parts) => fields_v(p, word, parts@, env, d, f),
            Ty::Named { item, args } => if item >= p.items@.len() {
                None
            } else {
                let h = handed(p, args@, env);
                match p.items@[item as int].kind {
                    TTIRItemKind::Struct { fields, .. } => fields_v(p, word, fields_of(fields@), h, d, f),
                    TTIRItemKind::Enum { variants, .. } => tagged_v(
                        p,
                        word,
                        payloads_of(variants@),
                        values_of(variants@),
                        h,
                        d,
                        f,
                    ),
                    TTIRItemKind::Trait { .. } => Some(fat_v(word)),
                    TTIRItemKind::Other { .. } => None,
                }
            },
            Ty::Var(_) => None,
            Ty::Error => None,
        }
    }
}

/// The offsets of the first fields, where the last of them ends, and the
/// widest alignment among them.
pub open spec fn fields_acc(p: TTIRProgram, word: nat, tys: Seq<TyId>, env: Seq<TyId>, doing: Seq<(TyId, Seq<TyId>)>, fuel: nat) -> Option<(Seq<nat>, nat, nat)>
    decreases fuel, 1nat, tys.len(),
{
    if tys.len() == 0 {
        Some((Seq::empty(), 0, 1))
    } else {
        match fields_acc(p, word, tys.drop_last(), env, doing, fuel) {
            None => None,
            Some((offs, at, align)) => match laid(p, word, tys.last(), env, doing, fuel) {
                None => None,
                Some(one) => {
                    let start = up(at, one.align);
                    if fits(start as int) && fits((start + one.bytes) as int) {
                        Some((offs.push(start), start + one.bytes, max_nat(align, one.align)))
                    } else {
                        None
                    }
                },
            },
        }
    }
}

/// One field after another, and the whole rounded up to the widest
/// alignment. A structure with no fields is nothing to hold.
pub open spec fn fields_v(p: TTIRProgram, word: nat, tys: Seq<TyId>, env: Seq<TyId>, doing: Seq<(TyId, Seq<TyId>)>, fuel: nat) -> Option<LayoutV>
    decreases fuel, 1nat, tys.len() + 1,
{
    match fields_acc(p, word, tys, env, doing, fuel) {
        None => None,
        Some((offs, at, align)) => {
            let bytes = up(at, align);
            if fits(bytes as int) {
                Some(LayoutV { bytes, align, shape: if tys.len() == 0 { ShapeV::Empty } else { ShapeV::Fields(offs) } })
            } else {
                None
            }
        },
    }
}

/// Every variant laid out on its own, and the widest alignment among them and
/// the tag.
pub open spec fn variants_acc(
    p: TTIRProgram,
    word: nat,
    payloads: Seq<Seq<TyId>>,
    tag: nat,
    env: Seq<TyId>,
    doing: Seq<(TyId, Seq<TyId>)>,
    fuel: nat,
) -> Option<(Seq<LayoutV>, nat)>
    decreases fuel, 2nat, payloads.len(),
{
    if payloads.len() == 0 {
        Some((Seq::empty(), tag))
    } else {
        match variants_acc(p, word, payloads.drop_last(), tag, env, doing, fuel) {
            None => None,
            Some((laid, align)) => match fields_v(p, word, payloads.last(), env, doing, fuel) {
                None => None,
                Some(one) => Some((laid.push(one), max_nat(align, one.align))),
            },
        }
    }
}

/// Where a variant's payload fields sit, from the start of the whole value.
pub open spec fn payload_at(one: LayoutV, at: nat) -> Seq<nat> {
    match one.shape {
        ShapeV::Fields(offs) => offs.map_values(|o: nat| at + o),
        _ => Seq::empty(),
    }
}

/// The tag, then room for the largest variant, every payload starting at the
/// first offset after the tag that the widest alignment allows. No variants
/// is nothing to hold.
pub open spec fn tagged_v(
    p: TTIRProgram,
    word: nat,
    payloads: Seq<Seq<TyId>>,
    values: Seq<i64>,
    env: Seq<TyId>,
    doing: Seq<(TyId, Seq<TyId>)>,
    fuel: nat,
) -> Option<LayoutV>
    decreases fuel, 2nat, payloads.len() + 1,
{
    if payloads.len() == 0 {
        Some(empty_v())
    } else {
        let tag = tag_width(values);
        match variants_acc(p, word, payloads, tag, env, doing, fuel) {
            None => None,
            Some((laid, align)) => {
                let at = up(tag, align);
                let end = at + widest(laid);
                if fits(at as int) && fits(end as int) && fits(up(end, align) as int) {
                    Some(
                        LayoutV {
                            bytes: up(end, align),
                            align,
                            shape: ShapeV::Tagged { tag, variants: laid.map_values(|one: LayoutV| payload_at(one, at)) },
                        },
                    )
                } else {
                    None
                }
            },
        }
    }
}

// ---- Facts about the definition --------------------------------------------

/// A list of fields that goes wrong somewhere goes wrong as a whole.
proof fn fields_acc_fails_on(p: TTIRProgram, word: nat, tys: Seq<TyId>, env: Seq<TyId>, doing: Seq<(TyId, Seq<TyId>)>, fuel: nat, i: int)
    requires
        0 <= i <= tys.len(),
        fields_acc(p, word, tys.subrange(0, i), env, doing, fuel) is None,
    ensures
        fields_acc(p, word, tys, env, doing, fuel) is None,
    decreases tys.len() - i,
{
    if i < tys.len() {
        let next = tys.subrange(0, i + 1);
        assert(next.drop_last() =~= tys.subrange(0, i));
        fields_acc_fails_on(p, word, tys, env, doing, fuel, i + 1);
    } else {
        assert(tys.subrange(0, i) =~= tys);
    }
}

/// No field begins past where the last one ends.
proof fn fields_acc_within(p: TTIRProgram, word: nat, tys: Seq<TyId>, env: Seq<TyId>, doing: Seq<(TyId, Seq<TyId>)>, fuel: nat)
    requires
        fields_acc(p, word, tys, env, doing, fuel) is Some,
    ensures
        ({
            let (offs, at, align) = fields_acc(p, word, tys, env, doing, fuel)->0;
            &&& offs.len() == tys.len()
            &&& forall|i: int| 0 <= i < offs.len() ==> offs[i] <= at
        }),
    decreases tys.len(),
{
    if tys.len() > 0 {
        fields_acc_within(p, word, tys.drop_last(), env, doing, fuel);
        let (offs, at, align) = fields_acc(p, word, tys.drop_last(), env, doing, fuel)->0;
        let one = laid(p, word, tys.last(), env, doing, fuel)->0;
        if one.align > 0 {
            round_up_bounds(at as int, one.align as int);
        }
    }
}

/// A list of variants that goes wrong somewhere goes wrong as a whole.
proof fn variants_acc_fails_on(
    p: TTIRProgram,
    word: nat,
    payloads: Seq<Seq<TyId>>,
    tag: nat,
    env: Seq<TyId>,
    doing: Seq<(TyId, Seq<TyId>)>,
    fuel: nat,
    i: int,
)
    requires
        0 <= i <= payloads.len(),
        variants_acc(p, word, payloads.subrange(0, i), tag, env, doing, fuel) is None,
    ensures
        variants_acc(p, word, payloads, tag, env, doing, fuel) is None,
    decreases payloads.len() - i,
{
    if i < payloads.len() {
        let next = payloads.subrange(0, i + 1);
        assert(next.drop_last() =~= payloads.subrange(0, i));
        variants_acc_fails_on(p, word, payloads, tag, env, doing, fuel, i + 1);
    } else {
        assert(payloads.subrange(0, i) =~= payloads);
    }
}

/// What one field of type `ty` takes: `laid`, under a name that a proof
/// over many fields does not unfold.
#[verifier::opaque]
pub open spec fn field_of(p: TTIRProgram, word: nat, ty: TyId, env: Seq<TyId>, doing: Seq<(TyId, Seq<TyId>)>, fuel: nat) -> Option<LayoutV> {
    laid(p, word, ty, env, doing, fuel)
}

/// What each of the fields of types `tys` takes.
pub open spec fn fields_laid(p: TTIRProgram, word: nat, tys: Seq<TyId>, env: Seq<TyId>, doing: Seq<(TyId, Seq<TyId>)>, fuel: nat) -> Seq<LayoutV> {
    Seq::new(tys.len(), |i: int| field_of(p, word, tys[i], env, doing, fuel)->0)
}

/// Whether fields taking `ls`, at `offs`, are laid one after another ending
/// by `end`: each begins at the first offset at or after the end of the one
/// before that its own alignment allows, so none overlaps the next, each sits
/// on its own alignment, and each ends by `end`; and `align` is no less than
/// any of their alignments.
#[verifier::opaque]
pub open spec fn in_order(offs: Seq<nat>, ls: Seq<LayoutV>, end: nat, align: nat) -> bool {
    &&& offs.len() == ls.len()
    &&& align >= 1
    &&& forall|i: int|
        0 <= i < ls.len() ==> #[trigger] offs[i] == up(if i == 0 { 0 } else { offs[i - 1] + ls[i - 1].bytes }, ls[i].align)
    &&& forall|i: int| 0 <= i < ls.len() && ls[i].align > 0 ==> #[trigger] offs[i] % ls[i].align == 0
    &&& forall|i: int, j: int| 0 <= i < j < ls.len() ==> #[trigger] offs[i] + ls[i].bytes <= #[trigger] offs[j]
    &&& forall|i: int| 0 <= i < ls.len() ==> #[trigger] offs[i] + ls[i].bytes <= end
    &&& forall|i: int| 0 <= i < ls.len() ==> (#[trigger] ls[i]).align <= align
}

#[verifier::spinoff_prover]
proof fn in_order_step(offs0: Seq<nat>, ls0: Seq<LayoutV>, at0: nat, align0: nat, one: LayoutV, o: nat)
    requires
        in_order(offs0, ls0, at0, align0),
        ls0.len() == 0 ==> at0 == 0,
        ls0.len() > 0 ==> at0 == offs0.last() + ls0.last().bytes,
        o == up(at0, one.align),
        at0 <= o,
        one.align > 0 ==> o % one.align == 0,
    ensures
        in_order(offs0.push(o), ls0.push(one), o + one.bytes, max_nat(align0, one.align)),
{
    reveal(in_order);
    let offs = offs0.push(o);
    let ls = ls0.push(one);
    let n = ls0.len() as int;
    assert forall|i: int| 0 <= i < ls.len() implies #[trigger] offs[i] == up(
        if i == 0 { 0 } else { offs[i - 1] + ls[i - 1].bytes },
        ls[i].align,
    ) by {
        if i < n {
            assert(offs[i] == offs0[i] && ls[i] == ls0[i]);
            if i > 0 {
                assert(offs[i - 1] == offs0[i - 1] && ls[i - 1] == ls0[i - 1]);
            }
        } else if i > 0 {
            assert(offs[i - 1] == offs0[i - 1] && ls[i - 1] == ls0[i - 1]);
        }
    }
    assert forall|i: int| 0 <= i < ls.len() && ls[i].align > 0 implies #[trigger] offs[i] % ls[i].align == 0 by {
        if i < n {
            assert(offs[i] == offs0[i] && ls[i] == ls0[i]);
        }
    }
    assert forall|i: int, j: int| 0 <= i < j < ls.len() implies #[trigger] offs[i] + ls[i].bytes <= #[trigger] offs[j] by {
        assert(offs[i] == offs0[i] && ls[i] == ls0[i]);
        if j < n {
            assert(offs[j] == offs0[j]);
        } else {
            assert(offs0[i] + ls0[i].bytes <= at0);
        }
    }
    assert forall|i: int| 0 <= i < ls.len() implies #[trigger] offs[i] + ls[i].bytes <= o + one.bytes by {
        if i < n {
            assert(offs[i] == offs0[i] && ls[i] == ls0[i]);
            assert(offs0[i] + ls0[i].bytes <= at0);
        }
    }
    assert forall|i: int| 0 <= i < ls.len() implies (#[trigger] ls[i]).align <= max_nat(align0, one.align) by {
        if i < n {
            assert(ls[i] == ls0[i]);
        }
    }
}

#[verifier::spinoff_prover]
proof fn fields_acc_in_order(p: TTIRProgram, word: nat, tys: Seq<TyId>, env: Seq<TyId>, doing: Seq<(TyId, Seq<TyId>)>, fuel: nat)
    requires
        fields_acc(p, word, tys, env, doing, fuel) is Some,
    ensures
        forall|i: int| 0 <= i < tys.len() ==> (#[trigger] field_of(p, word, tys[i], env, doing, fuel)) is Some,
        ({
            let (offs, at, align) = fields_acc(p, word, tys, env, doing, fuel)->0;
            &&& in_order(offs, fields_laid(p, word, tys, env, doing, fuel), at, align)
            &&& (tys.len() == 0 ==> at == 0)
            &&& (tys.len() > 0 ==> at == offs.last() + fields_laid(p, word, tys, env, doing, fuel).last().bytes)
        }),
    decreases tys.len(),
{
    let ls = fields_laid(p, word, tys, env, doing, fuel);
    if tys.len() == 0 {
        assert(ls =~= Seq::<LayoutV>::empty());
        reveal(in_order);
    } else {
        let front = tys.drop_last();
        fields_acc_in_order(p, word, front, env, doing, fuel);
        let (offs0, at0, align0) = fields_acc(p, word, front, env, doing, fuel)->0;
        let one = laid(p, word, tys.last(), env, doing, fuel)->0;
        assert(field_of(p, word, tys.last(), env, doing, fuel) == laid(p, word, tys.last(), env, doing, fuel)) by {
            reveal(field_of);
        }
        let ls0 = fields_laid(p, word, front, env, doing, fuel);
        assert(ls =~= ls0.push(one));
        let o = up(at0, one.align);
        if one.align > 0 {
            round_up_bounds(at0 as int, one.align as int);
        }
        in_order_step(offs0, ls0, at0, align0, one, o);
        assert forall|i: int| 0 <= i < tys.len() implies (#[trigger] field_of(p, word, tys[i], env, doing, fuel)) is Some by {
            if i < tys.len() - 1 {
                assert(tys[i] == front[i]);
            }
        }
    }
}

/// The fields of a structure or a tuple stay in the order they were written,
/// each at the first offset after the one before that its own alignment
/// allows: no two overlap, each sits on its own alignment, each ends within
/// the whole, the whole is aligned at least as each of them is, and its size
/// is a multiple of its alignment.
pub proof fn fields_stay_in_order(p: TTIRProgram, word: nat, tys: Seq<TyId>, env: Seq<TyId>, doing: Seq<(TyId, Seq<TyId>)>, fuel: nat)
    requires
        fields_v(p, word, tys, env, doing, fuel) is Some,
    ensures
        forall|i: int| 0 <= i < tys.len() ==> (#[trigger] field_of(p, word, tys[i], env, doing, fuel)) is Some,
        ({
            let l = fields_v(p, word, tys, env, doing, fuel)->0;
            let offs = (fields_acc(p, word, tys, env, doing, fuel)->0).0;
            &&& l.bytes % l.align == 0
            &&& in_order(offs, fields_laid(p, word, tys, env, doing, fuel), l.bytes, l.align)
            &&& l.shape == if tys.len() == 0 { ShapeV::Empty } else { ShapeV::Fields(offs) }
        }),
{
    fields_acc_in_order(p, word, tys, env, doing, fuel);
    reveal(in_order);
    let (offs, at, align) = fields_acc(p, word, tys, env, doing, fuel)->0;
    round_up_bounds(at as int, align as int);
    let ls = fields_laid(p, word, tys, env, doing, fuel);
    assert forall|i: int| 0 <= i < ls.len() implies #[trigger] offs[i] + ls[i].bytes <= up(at, align) by {
        assert(offs[i] + ls[i].bytes <= at);
    }
}

proof fn variants_acc_each(
    p: TTIRProgram,
    word: nat,
    payloads: Seq<Seq<TyId>>,
    tag: nat,
    env: Seq<TyId>,
    doing: Seq<(TyId, Seq<TyId>)>,
    fuel: nat,
)
    requires
        variants_acc(p, word, payloads, tag, env, doing, fuel) is Some,
    ensures
        ({
            let (laid, align) = variants_acc(p, word, payloads, tag, env, doing, fuel)->0;
            &&& laid.len() == payloads.len()
            &&& align >= tag
            &&& forall|v: int|
                0 <= v < payloads.len() ==> #[trigger] fields_v(p, word, payloads[v], env, doing, fuel) == Some(laid[v])
                    && laid[v].align <= align
        }),
    decreases payloads.len(),
{
    if payloads.len() > 0 {
        let front = payloads.drop_last();
        variants_acc_each(p, word, front, tag, env, doing, fuel);
        let (laid0, align0) = variants_acc(p, word, front, tag, env, doing, fuel)->0;
        let (laid, align) = variants_acc(p, word, payloads, tag, env, doing, fuel)->0;
        assert forall|v: int|
            0 <= v < payloads.len() implies #[trigger] fields_v(p, word, payloads[v], env, doing, fuel) == Some(laid[v])
                && laid[v].align <= align by {
            if v < payloads.len() - 1 {
                assert(payloads[v] == front[v]);
                assert(laid[v] == laid0[v]);
            }
        }
    }
}

/// Every variant's payload comes after the tag, which sits at the start: each
/// field of each payload begins no earlier than where the tag ends and ends
/// within the whole value; the whole is aligned at least as the tag is, and
/// its size is a multiple of its alignment.
pub proof fn payloads_follow_the_tag(
    p: TTIRProgram,
    word: nat,
    payloads: Seq<Seq<TyId>>,
    values: Seq<i64>,
    env: Seq<TyId>,
    doing: Seq<(TyId, Seq<TyId>)>,
    fuel: nat,
)
    requires
        payloads.len() > 0,
        tagged_v(p, word, payloads, values, env, doing, fuel) is Some,
    ensures
        ({
            let l = tagged_v(p, word, payloads, values, env, doing, fuel)->0;
            &&& l.align >= tag_width(values)
            &&& l.bytes % l.align == 0
            &&& l.shape is Tagged
            &&& l.shape->tag == tag_width(values)
            &&& l.shape->variants.len() == payloads.len()
            &&& forall|v: int| 0 <= v < payloads.len() ==> (#[trigger] l.shape->variants[v]).len() == payloads[v].len()
            &&& forall|v: int, k: int|
                0 <= v < payloads.len() && 0 <= k < payloads[v].len() ==> (#[trigger] field_of(
                    p,
                    word,
                    payloads[v][k],
                    env,
                    doing,
                    fuel,
                )) is Some
            &&& forall|v: int, k: int|
                0 <= v < payloads.len() && 0 <= k < payloads[v].len() ==> l.shape->tag <= #[trigger] l.shape->variants[v][k]
                    && l.shape->variants[v][k] + (field_of(p, word, payloads[v][k], env, doing, fuel)->0).bytes <= l.bytes
        }),
{
    let tag = tag_width(values);
    variants_acc_each(p, word, payloads, tag, env, doing, fuel);
    let (laid, align) = variants_acc(p, word, payloads, tag, env, doing, fuel)->0;
    let l = tagged_v(p, word, payloads, values, env, doing, fuel)->0;
    assert(tag >= 1);
    let at = up(tag, align);
    round_up_bounds(tag as int, align as int);
    let end = at + widest(laid);
    round_up_bounds(end as int, align as int);
    widest_bounds(laid);
    let variants = laid.map_values(|one: LayoutV| payload_at(one, at));
    assert(l.shape == ShapeV::Tagged { tag, variants });
    assert forall|v: int| 0 <= v < payloads.len() implies (#[trigger] l.shape->variants[v]).len() == payloads[v].len()
        && forall|k: int| 0 <= k < payloads[v].len() ==> (#[trigger] field_of(p, word, payloads[v][k], env, doing, fuel)) is Some
            && l.shape->tag <= l.shape->variants[v][k]
            && l.shape->variants[v][k] + (field_of(p, word, payloads[v][k], env, doing, fuel)->0).bytes <= l.bytes by {
        let one = laid[v];
        assert(fields_v(p, word, payloads[v], env, doing, fuel) == Some(one));
        fields_stay_in_order(p, word, payloads[v], env, doing, fuel);
        reveal(in_order);
        let offs = (fields_acc(p, word, payloads[v], env, doing, fuel)->0).0;
        if payloads[v].len() > 0 {
            assert(one.shape == ShapeV::Fields(offs));
            assert(variants[v] == offs.map_values(|o: nat| at + o));
        } else {
            assert(variants[v] =~= Seq::<nat>::empty());
        }
        let ls = fields_laid(p, word, payloads[v], env, doing, fuel);
        assert(one.bytes <= widest(laid));
        assert forall|k: int| 0 <= k < payloads[v].len() implies (#[trigger] field_of(p, word, payloads[v][k], env, doing, fuel)) is Some
            && l.shape->tag <= l.shape->variants[v][k]
            && l.shape->variants[v][k] + (field_of(p, word, payloads[v][k], env, doing, fuel)->0).bytes <= l.bytes by {
            assert(ls[k] == field_of(p, word, payloads[v][k], env, doing, fuel)->0);
            assert(offs[k] + ls[k].bytes <= one.bytes);
        }
    }
    assert forall|v: int, k: int|
        0 <= v < payloads.len() && 0 <= k < payloads[v].len() implies (#[trigger] field_of(
            p,
            word,
            payloads[v][k],
            env,
            doing,
            fuel,
        )) is Some by {
        assert(l.shape->variants[v].len() == payloads[v].len());
    }
    assert forall|v: int, k: int|
        0 <= v < payloads.len() && 0 <= k < payloads[v].len() implies l.shape->tag <= #[trigger] l.shape->variants[v][k]
            && l.shape->variants[v][k] + (field_of(p, word, payloads[v][k], env, doing, fuel)->0).bytes <= l.bytes by {
        assert(l.shape->variants[v].len() == payloads[v].len());
        assert(field_of(p, word, payloads[v][k], env, doing, fuel) is Some);
    }
    assert(l.shape is Tagged);
    assert(l.shape->tag == tag_width(values));
    assert(l.shape->variants.len() == payloads.len());
    assert(l.bytes == up(end, align) && l.align == align);
    assert(l.bytes % l.align == 0);
    assert(l.align >= tag_width(values));
}

/// A type parameter with nothing to say what it stands for has no layout.
pub proof fn an_open_parameter_has_none(p: TTIRProgram, word: nat, ty: TyId, env: Seq<TyId>, fuel: nat)
    requires
        ty < p.types@.len(),
        p.types@[ty as int] is Param,
        p.types@[ty as int]->index >= env.len(),
    ensures
        laid(p, word, ty, env, Seq::empty(), fuel) is None,
{
}

/// A structure that holds itself has no layout: `struct A { a: A }` would
/// take as much as itself and more, and the walk refuses it when it comes
/// round again, wherever among the fields it stands.
pub proof fn a_type_holding_itself_has_none(p: TTIRProgram, word: nat, ty: TyId, i: int, fuel: nat)
    requires
        ty < p.types@.len(),
        p.types@[ty as int] matches Ty::Named { item, args } && args@.len() == 0 && item < p.items@.len() && (
        p.items@[item as int].kind matches TTIRItemKind::Struct { fields, .. } && 0 <= i < fields@.len()
            && fields@[i].ty == ty),
    ensures
        laid(p, word, ty, Seq::empty(), Seq::empty(), fuel) is None,
{
    if fuel > 0 {
        let item = p.types@[ty as int]->item;
        let args = p.types@[ty as int]->args;
        let fields = p.items@[item as int].kind->fields;
        let h = handed(p, args@, Seq::empty());
        assert(h =~= Seq::<TyId>::empty());
        let d = Seq::<(TyId, Seq<TyId>)>::empty().push((ty, Seq::<TyId>::empty()));
        let f = (fuel - 1) as nat;
        let tys = fields_of(fields@);
        assert(tys[i] == ty);
        assert(d.len() == 1 && d[0] == (ty, Seq::<TyId>::empty()));
        assert(d.contains((ty, Seq::<TyId>::empty())));
        assert(laid(p, word, ty, h, d, f) is None);
        let upto = tys.subrange(0, i + 1);
        assert(upto.last() == ty);
        assert(upto.drop_last() =~= tys.subrange(0, i));
        assert(fields_acc(p, word, upto, h, d, f) is None);
        fields_acc_fails_on(p, word, tys, h, d, f, i + 1);
        assert(fields_v(p, word, tys, h, d, f) is None);
    }
}

/// A primitive that holds numbers takes the fewest bytes, of one, two,
/// four, eight or sixteen, that count every value it holds, and is aligned
/// to its size: an `i16` or a `u16` two, a `char` four. An IEEE float takes
/// its bits over eight.
pub proof fn primitives_take_their_width(p: TTIRProgram, word: nat, ty: TyId, env: Seq<TyId>, fuel: nat)
    requires
        ty < p.types@.len(),
        p.types@[ty as int] is Prim,
        fuel > 0,
    ensures
        ({
            let q = p.types@[ty as int]->Prim_0;
            let l = laid(p, word, ty, env, Seq::empty(), fuel);
            &&& (prim_values(q) matches Some((lo, hi)) ==> {
                let count = hi - lo + 1;
                &&& l is Some
                &&& l->0.shape == ShapeV::Scalar
                &&& l->0.align == l->0.bytes
                &&& (l->0.bytes == 1 || l->0.bytes == 2 || l->0.bytes == 4 || l->0.bytes == 8 || l->0.bytes == 16)
                &&& count <= vstd::arithmetic::power2::pow2(8 * l->0.bytes)
                &&& (l->0.bytes == 1 || vstd::arithmetic::power2::pow2(4 * l->0.bytes) < count)
            })
            &&& (float_bits(q) matches Some(bits) ==> l is Some && l->0.shape == ShapeV::Scalar && l->0.align
                == l->0.bytes && 8 * l->0.bytes == bits)
        }),
{
    vstd::arithmetic::power2::lemma2_to64();
    vstd::arithmetic::power2::lemma2_to64_rest();
    vstd::arithmetic::power2::lemma_pow2_adds(64, 64);
    assert(!Seq::<(TyId, Seq<TyId>)>::empty().contains((ty, env)));
}

/// Whether no field of `l` begins past where `l` ends.
pub open spec fn fields_within(l: LayoutV) -> bool {
    match l.shape {
        ShapeV::Fields(offs) => forall|q: int| 0 <= q < offs.len() ==> offs[q] <= l.bytes,
        _ => true,
    }
}

proof fn fields_v_within(p: TTIRProgram, word: nat, tys: Seq<TyId>, env: Seq<TyId>, doing: Seq<(TyId, Seq<TyId>)>, fuel: nat)
    ensures
        fields_v(p, word, tys, env, doing, fuel) matches Some(l) ==> fields_within(l),
{
    if fields_acc(p, word, tys, env, doing, fuel) is Some {
        fields_acc_within(p, word, tys, env, doing, fuel);
        let (offs, at, align) = fields_acc(p, word, tys, env, doing, fuel)->0;
        if align > 0 {
            round_up_bounds(at as int, align as int);
        }
    }
}

proof fn widest_bounds(laid: Seq<LayoutV>)
    ensures
        forall|i: int| 0 <= i < laid.len() ==> (#[trigger] laid[i]).bytes <= widest(laid),
    decreases laid.len(),
{
    if laid.len() > 0 {
        widest_bounds(laid.drop_last());
        assert forall|i: int| 0 <= i < laid.len() implies (#[trigger] laid[i]).bytes <= widest(laid) by {
            if i < laid.len() - 1 {
                assert(laid[i] == laid.drop_last()[i]);
            }
        }
    }
}

// ---- The walk --------------------------------------------------------------

/// `up`, or nothing where the answer cannot be counted.
pub(crate) fn up_to(n: usize, a: usize) -> (r: Option<usize>)
    ensures
        r == (if fits(up(n as nat, a as nat) as int) { Some(up(n as nat, a as nat) as usize) } else { None }),
{
    if a == 0 {
        return Some(n);
    }
    let q = n / a;
    proof {
        if n % a != 0 {
            assert(a >= 2);
            vstd::arithmetic::div_mod::lemma_div_is_ordered_by_denominator(n as int, 2, a as int);
        }
    }
    let whole = if n % a == 0 { q } else { q + 1 };
    proof {
        round_up_bounds(n as int, a as int);
        assert(round_up(n as int, a as int) == whole * a);
    }
    whole.checked_mul(a)
}

/// What is being worked out: each type with what its parameters stand for.
pub open spec fn walking(doing: Seq<(TyId, Vec<TyId>)>) -> Seq<(TyId, Seq<TyId>)> {
    doing.map_values(|e: (TyId, Vec<TyId>)| (e.0, e.1@))
}

/// Whether `a` and `b` name the same types in the same order.
fn same_ids(a: &[TyId], b: &[TyId]) -> (r: bool)
    ensures
        r == (a@ == b@),
{
    if a.len() != b.len() {
        return false;
    }
    let mut i: usize = 0;
    while i < a.len()
        invariant
            a@.len() == b@.len(),
            i <= a@.len(),
            forall|j: int| 0 <= j < i ==> a@[j] == b@[j],
        decreases a@.len() - i,
    {
        if a[i] != b[i] {
            return false;
        }
        i = i + 1;
    }
    proof {
        assert(a@ =~= b@);
    }
    true
}

/// Whether `doing` holds `ty` with `env` standing for its parameters.
fn holds_ty(doing: &Vec<(TyId, Vec<TyId>)>, ty: TyId, env: &[TyId]) -> (r: bool)
    ensures
        r == walking(doing@).contains((ty, env@)),
{
    let ghost w = walking(doing@);
    let mut i: usize = 0;
    while i < doing.len()
        invariant
            w == walking(doing@),
            i <= doing@.len(),
            forall|j: int| 0 <= j < i ==> w[j] != (ty, env@),
        decreases doing@.len() - i,
    {
        if doing[i].0 == ty && same_ids(doing[i].1.as_slice(), env) {
            proof {
                assert(w[i as int] == (ty, env@));
            }
            return true;
        }
        i = i + 1;
    }
    false
}

/// How wide the tag has to be for every number the front end gave a variant.
pub fn tag_bytes(values: &[i64]) -> (r: usize)
    ensures
        r == tag_width(values@),
{
    let mut low: i64 = 0;
    let mut high: i64 = 0;
    let mut i: usize = 0;
    while i < values.len()
        invariant
            i <= values@.len(),
            low == lowest(values@.subrange(0, i as int)),
            high == highest(values@.subrange(0, i as int)),
        decreases values@.len() - i,
    {
        let v = values[i];
        proof {
            let next = values@.subrange(0, i + 1);
            assert(next.drop_last() =~= values@.subrange(0, i as int));
        }
        if i == 0 {
            low = v;
            high = v;
        } else {
            if v < low {
                low = v;
            }
            if v > high {
                high = v;
            }
        }
        i = i + 1;
    }
    proof {
        assert(values@.subrange(0, values@.len() as int) =~= values@);
        vstd::arithmetic::power2::lemma2_to64();
    }
    if low < 0 {
        if low >= -128 && high <= 127 {
            1
        } else if low >= -32768 && high <= 32767 {
            2
        } else if low >= -2147483648 && high <= 2147483647 {
            4
        } else {
            8
        }
    } else {
        if high <= 255 {
            1
        } else if high <= 65535 {
            2
        } else if high <= 4294967295 {
            4
        } else {
            8
        }
    }
}

pub struct Layouts<'a> {
    ttir: &'a TTIRProgram,
    word: usize,
}

impl<'a> Layouts<'a> {
    /// The program whose types these are.
    pub closed spec fn program(&self) -> TTIRProgram {
        *self.ttir
    }

    /// How wide a pointer is.
    pub closed spec fn word_size(&self) -> nat {
        self.word as nat
    }

    pub open spec fn wf(&self) -> bool {
        2 * self.word_size() <= usize::MAX
    }

    /// What one of `ty` takes, with `env` standing for the type parameters in
    /// hand and nothing being worked out yet.
    pub open spec fn answer(&self, ty: TyId, env: Seq<TyId>) -> Option<LayoutV> {
        laid(self.program(), self.word_size(), ty, env, Seq::empty(), DEEPEST as nat)
    }

    pub fn new(ttir: &'a TTIRProgram, machine: &Machine) -> (l: Layouts<'a>)
        requires
            2 * machine.word <= usize::MAX,
        ensures
            l.program() == *ttir,
            l.word_size() == machine.word,
            l.wf(),
    {
        Layouts { ttir, word: machine.word }
    }

    /// What one of `ty` takes with `env` standing for the type parameters in
    /// hand, by their index.
    pub fn of_in(&self, ty: TyId, env: &[TyId]) -> (r: Option<Layout>)
        requires
            self.wf(),
        ensures
            viewed(r) == self.answer(ty, env@),
    {
        let mut doing: Vec<(TyId, Vec<TyId>)> = Vec::new();
        proof {
            assert(walking(doing@) =~= Seq::<(TyId, Seq<TyId>)>::empty());
        }
        self.laid_in(ty, env, &mut doing, DEEPEST)
    }

    /// What one of `ty` takes and how it is arranged.
    pub fn of(&self, ty: TyId) -> (r: Option<Layout>)
        requires
            self.wf(),
        ensures
            viewed(r) == self.answer(ty, Seq::empty()),
    {
        let none: Vec<TyId> = Vec::new();
        proof {
            assert(none@ =~= Seq::<TyId>::empty());
        }
        self.of_in(ty, none.as_slice())
    }

    pub fn bytes(&self, ty: TyId) -> (r: Option<usize>)
        requires
            self.wf(),
        ensures
            r == (match self.answer(ty, Seq::empty()) {
                Some(l) => Some(l.bytes as usize),
                None => None,
            }),
    {
        match self.of(ty) {
            Some(held) => Some(held.bytes),
            None => None,
        }
    }

    pub fn align(&self, ty: TyId) -> (r: Option<usize>)
        requires
            self.wf(),
        ensures
            r == (match self.answer(ty, Seq::empty()) {
                Some(l) => Some(l.align as usize),
                None => None,
            }),
    {
        match self.of(ty) {
            Some(held) => Some(held.align),
            None => None,
        }
    }

    /// How far apart two of them are in a run of them: the size rounded up to
    /// the alignment.
    pub fn stride(&self, ty: TyId) -> (r: Option<usize>)
        requires
            self.wf(),
        ensures
            r == (match self.answer(ty, Seq::empty()) {
                Some(l) => if fits(up(l.bytes, l.align) as int) { Some(up(l.bytes, l.align) as usize) } else { None },
                None => None,
            }),
    {
        match self.of(ty) {
            Some(held) => up_to(held.bytes, held.align),
            None => None,
        }
    }

    /// Where one field of a structure or a tuple begins.
    pub fn field(&self, ty: TyId, index: usize) -> (r: Option<usize>)
        requires
            self.wf(),
        ensures
            r == (match self.answer(ty, Seq::empty()) {
                Some(l) => match l.shape {
                    ShapeV::Fields(at) => if index < at.len() { Some(at[index as int] as usize) } else { None },
                    _ => None,
                },
                None => None,
            }),
    {
        match self.of(ty) {
            Some(held) => match held.shape {
                Shape::Fields(at) => if index < at.len() { Some(at[index]) } else { None },
                _ => None,
            },
            None => None,
        }
    }

    /// How wide the number saying which variant is.
    pub fn tag(&self, ty: TyId) -> (r: Option<usize>)
        requires
            self.wf(),
        ensures
            r == (match self.answer(ty, Seq::empty()) {
                Some(l) => match l.shape {
                    ShapeV::Tagged { tag, .. } => Some(tag as usize),
                    _ => None,
                },
                None => None,
            }),
    {
        match self.of(ty) {
            Some(held) => match held.shape {
                Shape::Tagged { tag, .. } => Some(tag),
                _ => None,
            },
            None => None,
        }
    }

    /// Where one field of one variant's payload begins, from the start of the
    /// whole value.
    pub fn payload(&self, ty: TyId, variant: usize, index: usize) -> (r: Option<usize>)
        requires
            self.wf(),
        ensures
            r == (match self.answer(ty, Seq::empty()) {
                Some(l) => match l.shape {
                    ShapeV::Tagged { variants, .. } => if variant < variants.len() && index < variants[variant as int].len() {
                        Some(variants[variant as int][index as int] as usize)
                    } else {
                        None
                    },
                    _ => None,
                },
                None => None,
            }),
    {
        match self.of(ty) {
            Some(held) => match held.shape {
                Shape::Tagged { variants, .. } => {
                    if variant < variants.len() && index < variants[variant].len() {
                        Some(variants[variant][index])
                    } else {
                        None
                    }
                },
                _ => None,
            },
            None => None,
        }
    }

    fn word_layout(&self) -> (r: Layout)
        ensures
            r@ == word_v(self.word_size()),
    {
        Layout { bytes: self.word, align: self.word, shape: Shape::Scalar }
    }

    fn fat(&self) -> (r: Layout)
        requires
            self.wf(),
        ensures
            r@ == fat_v(self.word_size()),
    {
        Layout { bytes: self.word * 2, align: self.word, shape: Shape::Fat }
    }

    fn primitive(&self, p: TIRPrim) -> (r: Layout)
        requires
            self.wf(),
        ensures
            r@ == prim_v(p, self.word_size()),
    {
        match p {
            TIRPrim::Str => self.fat(),
            TIRPrim::Null | TIRPrim::Never => Layout { bytes: 0, align: 1, shape: Shape::Empty },
            _ => {
                let bytes: usize = match p {
                    TIRPrim::I8 | TIRPrim::U8 | TIRPrim::Bool => 1,
                    TIRPrim::I16 | TIRPrim::U16 => 2,
                    TIRPrim::I32 | TIRPrim::U32 | TIRPrim::F32 | TIRPrim::Char => 4,
                    TIRPrim::I64 | TIRPrim::U64 | TIRPrim::F64 => 8,
                    _ => 16,
                };
                Layout { bytes, align: bytes, shape: Shape::Scalar }
            },
        }
    }

    fn is_dyn(&self, at: TyId) -> (r: bool)
        ensures
            r == dyn_at(self.program(), at),
    {
        if at < self.ttir.types.len() {
            match &self.ttir.types[at] {
                Ty::Dyn(_) => true,
                _ => false,
            }
        } else {
            false
        }
    }

    /// The arguments of a use, worked out in the environment of the use.
    pub(crate) fn handed_args(&self, args: &Vec<TyId>, env: &[TyId]) -> (r: Vec<TyId>)
        ensures
            r@ == handed(self.program(), args@, env@),
    {
        let mut out: Vec<TyId> = Vec::new();
        let mut i: usize = 0;
        while i < args.len()
            invariant
                i <= args@.len(),
                out@ =~= handed(self.program(), args@.subrange(0, i as int), env@),
            decreases args@.len() - i,
        {
            let arg = args[i];
            let mut one = arg;
            if arg < self.ttir.types.len() {
                match &self.ttir.types[arg] {
                    Ty::Param { index, .. } => {
                        if *index < env.len() {
                            one = env[*index];
                        }
                    },
                    _ => {},
                }
            }
            out.push(one);
            i = i + 1;
        }
        proof {
            assert(args@.subrange(0, args@.len() as int) =~= args@);
        }
        out
    }

    fn laid_in(&self, ty: TyId, env: &[TyId], doing: &mut Vec<(TyId, Vec<TyId>)>, fuel: usize) -> (r: Option<Layout>)
        requires
            self.wf(),
        ensures
            viewed(r) == laid(self.program(), self.word_size(), ty, env@, walking(old(doing)@), fuel as nat),
            final(doing)@ == old(doing)@,
        decreases fuel, 0nat, 0nat,
    {
        if fuel == 0 {
            return None;
        }
        if holds_ty(doing, ty, env) {
            return None;
        }
        if ty >= self.ttir.types.len() {
            return None;
        }
        let ghost before = doing@;
        doing.push((ty, vstd::slice::slice_to_vec(env)));
        proof {
            assert(walking(doing@) =~= walking(before).push((ty, env@)));
        }
        let f = fuel - 1;
        let made = match &self.ttir.types[ty] {
            Ty::Prim(q) => Some(self.primitive(*q)),
            Ty::Param { index, .. } => {
                if *index < env.len() {
                    let none: Vec<TyId> = Vec::new();
                    proof {
                        assert(none@ =~= Seq::<TyId>::empty());
                    }
                    self.laid_in(env[*index], none.as_slice(), doing, f)
                } else {
                    None
                }
            },
            Ty::Ref { inner, .. } => {
                if self.is_dyn(*inner) { Some(self.fat()) } else { Some(self.word_layout()) }
            },
            Ty::Ptr(inner) => {
                if self.is_dyn(*inner) { Some(self.fat()) } else { Some(self.word_layout()) }
            },
            Ty::GC(_) => Some(self.word_layout()),
            Ty::Dyn(_) => None,
            Ty::Run(_) => Some(self.fat()),
            Ty::Fn { .. } => Some(self.fat()),
            Ty::Array { elem, len } => {
                match self.laid_in(*elem, env, doing, f) {
                    None => None,
                    Some(one) => {
                        match up_to(one.bytes, one.align) {
                            None => None,
                            Some(stride) => {
                                let len = *len;
                                if stride == 0 {
                                    Some(Layout { bytes: 0, align: one.align, shape: Shape::Elements { stride, len } })
                                } else if len > usize::MAX as u64 {
                                    proof {
                                        assert(stride * len >= len) by (nonlinear_arith)
                                            requires stride >= 1;
                                    }
                                    None
                                } else {
                                    match stride.checked_mul(len as usize) {
                                        None => None,
                                        Some(bytes) => Some(Layout { bytes, align: one.align, shape: Shape::Elements { stride, len } }),
                                    }
                                }
                            },
                        }
                    },
                }
            },
            Ty::Tuple(parts) => self.fields_in(parts.as_slice(), env, doing, f),
            Ty::Named { item, args } => {
                if *item >= self.ttir.items.len() {
                    None
                } else {
                    let h = self.handed_args(args, env);
                    match &self.ttir.items[*item].kind {
                        TTIRItemKind::Struct { fields, .. } => {
                            let tys = field_types(fields);
                            self.fields_in(tys.as_slice(), h.as_slice(), doing, f)
                        },
                        TTIRItemKind::Enum { variants, .. } => {
                            let mut payloads: Vec<Vec<TyId>> = Vec::new();
                            let mut values: Vec<i64> = Vec::new();
                            let mut i: usize = 0;
                            while i < variants.len()
                                invariant
                                    i <= variants@.len(),
                                    payloads@.map_values(|v: Vec<TyId>| v@) =~= payloads_of(variants@.subrange(0, i as int)),
                                    values@ =~= values_of(variants@.subrange(0, i as int)),
                                decreases variants@.len() - i,
                            {
                                let ghost pv = payloads@.map_values(|v: Vec<TyId>| v@);
                                let ghost vv = values@;
                                payloads.push(payload_types(&variants[i].payload));
                                values.push(variants[i].value);
                                proof {
                                    let sub = variants@.subrange(0, i + 1);
                                    assert(sub =~= variants@.subrange(0, i as int).push(variants@[i as int]));
                                    assert(payloads@.map_values(|v: Vec<TyId>| v@) =~= pv.push(variants@[i as int].payload.types()));
                                    assert(payloads_of(sub) =~= payloads_of(variants@.subrange(0, i as int)).push(variants@[i as int].payload.types()));
                                    assert(values_of(sub) =~= values_of(variants@.subrange(0, i as int)).push(variants@[i as int].value));
                                }
                                i = i + 1;
                            }
                            proof {
                                assert(variants@.subrange(0, variants@.len() as int) =~= variants@);
                            }
                            self.tagged_in(&payloads, values.as_slice(), h.as_slice(), doing, f)
                        },
                        TTIRItemKind::Trait { .. } => Some(self.fat()),
                        TTIRItemKind::Other { .. } => None,
                    }
                }
            },
            Ty::Var(_) => None,
            Ty::Error => None,
        };
        doing.pop();
        proof {
            assert(doing@ =~= before);
        }
        made
    }

    fn fields_in(&self, tys: &[TyId], env: &[TyId], doing: &mut Vec<(TyId, Vec<TyId>)>, fuel: usize) -> (r: Option<Layout>)
        requires
            self.wf(),
        ensures
            viewed(r) == fields_v(self.program(), self.word_size(), tys@, env@, walking(old(doing)@), fuel as nat),
            final(doing)@ == old(doing)@,
        decreases fuel, 1nat, tys@.len() + 1,
    {
        let ghost p = self.program();
        let ghost w = self.word_size();
        let ghost d0 = doing@;
        let ghost d = walking(d0);
        let mut at: usize = 0;
        let mut align: usize = 1;
        let mut offsets: Vec<usize> = Vec::new();
        let mut i: usize = 0;
        while i < tys.len()
            invariant
                self.wf(),
                p == self.program(),
                w == self.word_size(),
                i <= tys@.len(),
                doing@ == d0,
                d0 == old(doing)@,
                d == walking(d0),
                fields_acc(p, w, tys@.subrange(0, i as int), env@, d, fuel as nat) == Some((offsets_v(offsets@), at as nat, align as nat)),
            decreases tys@.len() - i,
        {
            proof {
                let next = tys@.subrange(0, i + 1);
                assert(next.drop_last() =~= tys@.subrange(0, i as int));
                assert(next.last() == tys@[i as int]);
            }
            let one = match self.laid_in(tys[i], env, doing, fuel) {
                None => {
                    proof {
                        fields_acc_fails_on(p, w, tys@, env@, d, fuel as nat, i + 1);
                    }
                    return None;
                },
                Some(one) => one,
            };
            let start = match up_to(at, one.align) {
                None => {
                    proof {
                        fields_acc_fails_on(p, w, tys@, env@, d, fuel as nat, i + 1);
                    }
                    return None;
                },
                Some(start) => start,
            };
            let end = match start.checked_add(one.bytes) {
                None => {
                    proof {
                        fields_acc_fails_on(p, w, tys@, env@, d, fuel as nat, i + 1);
                    }
                    return None;
                },
                Some(end) => end,
            };
            offsets.push(start);
            at = end;
            if one.align > align {
                align = one.align;
            }
            proof {
                assert(offsets_v(offsets@) =~= offsets_v(offsets@.drop_last()).push(start as nat));
            }
            i = i + 1;
        }
        proof {
            assert(tys@.subrange(0, tys@.len() as int) =~= tys@);
        }
        match up_to(at, align) {
            None => None,
            Some(bytes) => {
                let shape = if tys.len() == 0 { Shape::Empty } else { Shape::Fields(offsets) };
                Some(Layout { bytes, align, shape })
            },
        }
    }

    fn tagged_in(&self, payloads: &Vec<Vec<TyId>>, values: &[i64], env: &[TyId], doing: &mut Vec<(TyId, Vec<TyId>)>, fuel: usize) -> (r: Option<Layout>)
        requires
            self.wf(),
        ensures
            viewed(r) == tagged_v(
                self.program(),
                self.word_size(),
                payloads@.map_values(|v: Vec<TyId>| v@),
                values@,
                env@,
                walking(old(doing)@),
                fuel as nat,
            ),
            final(doing)@ == old(doing)@,
        decreases fuel, 2nat, payloads@.len() + 1,
    {
        let ghost p = self.program();
        let ghost w = self.word_size();
        let ghost d0 = doing@;
        let ghost d = walking(d0);
        let ghost all = payloads@.map_values(|v: Vec<TyId>| v@);
        if payloads.len() == 0 {
            return Some(Layout { bytes: 0, align: 1, shape: Shape::Empty });
        }
        let tag = tag_bytes(values);
        let mut laid: Vec<Layout> = Vec::new();
        let mut align: usize = tag;
        let mut i: usize = 0;
        while i < payloads.len()
            invariant
                self.wf(),
                p == self.program(),
                w == self.word_size(),
                i <= payloads@.len(),
                all == payloads@.map_values(|v: Vec<TyId>| v@),
                doing@ == d0,
                d0 == old(doing)@,
                d == walking(d0),
                tag == tag_width(values@),
                variants_acc(p, w, all.subrange(0, i as int), tag as nat, env@, d, fuel as nat) == Some((laid@.map_values(|l: Layout| l@), align as nat)),
                forall|m: int| 0 <= m < laid@.len() ==> fields_within(#[trigger] laid@[m]@),
            decreases payloads@.len() - i,
        {
            proof {
                let next = all.subrange(0, i + 1);
                assert(next.drop_last() =~= all.subrange(0, i as int));
                assert(next.last() == payloads@[i as int]@);
            }
            let one = match self.fields_in(payloads[i].as_slice(), env, doing, fuel) {
                None => {
                    proof {
                        variants_acc_fails_on(p, w, all, tag as nat, env@, d, fuel as nat, i + 1);
                    }
                    return None;
                },
                Some(one) => one,
            };
            proof {
                fields_v_within(p, w, payloads@[i as int]@, env@, d, fuel as nat);
            }
            if one.align > align {
                align = one.align;
            }
            laid.push(one);
            proof {
                assert(laid@.map_values(|l: Layout| l@) =~= laid@.drop_last().map_values(|l: Layout| l@).push(one@));
            }
            i = i + 1;
        }
        proof {
            assert(all.subrange(0, all.len() as int) =~= all);
        }
        let ghost lv = laid@.map_values(|l: Layout| l@);
        let at = match up_to(tag, align) {
            None => return None,
            Some(at) => at,
        };
        let mut most: usize = 0;
        let mut k: usize = 0;
        while k < laid.len()
            invariant
                k <= laid@.len(),
                lv == laid@.map_values(|l: Layout| l@),
                most == widest(lv.subrange(0, k as int)),
            decreases laid@.len() - k,
        {
            proof {
                let next = lv.subrange(0, k + 1);
                assert(next.drop_last() =~= lv.subrange(0, k as int));
            }
            if laid[k].bytes > most {
                most = laid[k].bytes;
            }
            k = k + 1;
        }
        proof {
            assert(lv.subrange(0, lv.len() as int) =~= lv);
            widest_bounds(lv);
        }
        let end = match at.checked_add(most) {
            None => return None,
            Some(end) => end,
        };
        let bytes = match up_to(end, align) {
            None => return None,
            Some(bytes) => bytes,
        };
        let mut variants: Vec<Vec<usize>> = Vec::new();
        let mut j: usize = 0;
        while j < laid.len()
            invariant
                j <= laid@.len(),
                lv == laid@.map_values(|l: Layout| l@),
                forall|m: int| 0 <= m < lv.len() ==> (#[trigger] lv[m]).bytes <= most,
                forall|m: int| 0 <= m < laid@.len() ==> fields_within(#[trigger] laid@[m]@),
                at + most == end,
                end <= usize::MAX,
                variants@.map_values(|v: Vec<usize>| offsets_v(v@)) =~= lv.subrange(0, j as int).map_values(|one: LayoutV| payload_at(one, at as nat)),
            decreases laid@.len() - j,
        {
            let mut offs: Vec<usize> = Vec::new();
            let ghost vs0 = variants@.map_values(|v: Vec<usize>| offsets_v(v@));
            match &laid[j].shape {
                Shape::Fields(held) => {
                    let ghost bound = laid@[j as int].bytes;
                    proof {
                        assert(lv[j as int] == laid@[j as int]@);
                        assert(lv[j as int].bytes <= most);
                        assert(laid@[j as int]@.shape == ShapeV::Fields(offsets_v(held@)));
                        assert(fields_within(laid@[j as int]@));
                        let l = laid@[j as int]@;
                        assert forall|q: int| 0 <= q < held@.len() implies held@[q] <= bound by {
                            assert(offsets_v(held@)[q] == held@[q] as nat);
                            match l.shape {
                                ShapeV::Fields(o) => {
                                    assert(o == offsets_v(held@));
                                    assert(o[q] <= l.bytes);
                                },
                                _ => {},
                            }
                        }
                    }
                    let mut m: usize = 0;
                    while m < held.len()
                        invariant
                            m <= held@.len(),
                            forall|q: int| 0 <= q < held@.len() ==> held@[q] <= bound,
                            bound <= most,
                            at + most == end,
                            end <= usize::MAX,
                            offsets_v(offs@) =~= offsets_v(held@.subrange(0, m as int)).map_values(|o: nat| at as nat + o),
                        decreases held@.len() - m,
                    {
                        let ghost o0 = offs@;
                        offs.push(at + held[m]);
                        proof {
                            assert(held@.subrange(0, m + 1) =~= held@.subrange(0, m as int).push(held@[m as int]));
                            assert(offsets_v(offs@) =~= offsets_v(o0).push((at + held@[m as int]) as nat));
                        }
                        m = m + 1;
                    }
                    proof {
                        assert(held@.subrange(0, held@.len() as int) =~= held@);
                        assert(offsets_v(offs@) =~= payload_at(lv[j as int], at as nat));
                    }
                },
                _ => {
                    proof {
                        assert(lv[j as int] == laid@[j as int]@);
                        assert(offsets_v(offs@) =~= payload_at(lv[j as int], at as nat));
                    }
                },
            }
            variants.push(offs);
            proof {
                assert(lv.subrange(0, j + 1) =~= lv.subrange(0, j as int).push(lv[j as int]));
                assert(variants@.map_values(|v: Vec<usize>| offsets_v(v@)) =~= vs0.push(offsets_v(offs@)));
            }
            j = j + 1;
        }
        proof {
            assert(lv.subrange(0, lv.len() as int) =~= lv);
        }
        Some(Layout { bytes, align, shape: Shape::Tagged { tag, variants } })
    }
}

} // verus!
