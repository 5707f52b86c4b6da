//! The typed program, as much of it as the machine end reads: an arena of
//! types and the declarations they name. A type is an index into the arena,
//! and so is a declaration.

use vstd::prelude::*;

verus! {

pub type TyId = usize;

pub type TTIRItemId = usize;

/// The primitives. Every number is named after its width.
#[derive(Debug, Clone, Copy, PartialEq, Eq, Structural)]
pub enum TIRPrim {
    I8,
    I16,
    I32,
    I64,
    I128,
    U8,
    U16,
    U32,
    U64,
    U128,
    F32,
    F64,
    Bool,
    Char,
    Str,
    Null,
    Never,
}

/// The lowest and the highest value a primitive holds, where it holds
/// numbers: an `iN` every two's-complement value of N bits and a `uN` every
/// value of N bits from nought, a `bool` nought and one, a `char` the Unicode
/// scalar values up to 0x10FFFF.
pub open spec fn prim_values(q: TIRPrim) -> Option<(int, int)> {
    match q {
        TIRPrim::I8 => Some((-0x80, 0x7f)),
        TIRPrim::I16 => Some((-0x8000, 0x7fff)),
        TIRPrim::I32 => Some((-0x8000_0000, 0x7fff_ffff)),
        TIRPrim::I64 => Some((-0x8000_0000_0000_0000, 0x7fff_ffff_ffff_ffff)),
        TIRPrim::I128 => Some((-0x8000_0000_0000_0000_0000_0000_0000_0000, 0x7fff_ffff_ffff_ffff_ffff_ffff_ffff_ffff)),
        TIRPrim::U8 => Some((0, 0xff)),
        TIRPrim::U16 => Some((0, 0xffff)),
        TIRPrim::U32 => Some((0, 0xffff_ffff)),
        TIRPrim::U64 => Some((0, 0xffff_ffff_ffff_ffff)),
        TIRPrim::U128 => Some((0, 0xffff_ffff_ffff_ffff_ffff_ffff_ffff_ffff)),
        TIRPrim::Bool => Some((0, 1)),
        TIRPrim::Char => Some((0, 0x10ffff)),
        _ => None,
    }
}

/// How many bits an IEEE 754 float of a primitive has: 32 for `f32`, 64
/// for `f64`.
pub open spec fn float_bits(q: TIRPrim) -> Option<nat> {
    match q {
        TIRPrim::F32 => Some(32),
        TIRPrim::F64 => Some(64),
        _ => None,
    }
}

/// One type. A reference, a pointer and a `gc` handle are one address each;
/// a run and a fn value are two words; a type parameter stands for whatever
/// the declaration it belongs to was handed.
#[derive(Debug, Clone, PartialEq)]
pub enum Ty {
    Prim(TIRPrim),
    Param { name: String, index: usize },
    Ref { mutable: bool, inner: TyId },
    Ptr(TyId),
    GC(TyId),
    /// A trait object, by the trait's declaration.
    Dyn(TTIRItemId),
    Run(TyId),
    Fn { params: Vec<TyId>, ret: TyId },
    Array { elem: TyId, len: u64 },
    Tuple(Vec<TyId>),
    Named { item: TTIRItemId, args: Vec<TyId> },
    /// A hole the front end did not fill.
    Var(usize),
    /// What a refused body holds.
    Error,
}

#[derive(Debug, Clone, PartialEq)]
pub struct TTIRFieldDecl {
    pub name: String,
    pub ty: TyId,
}

/// What one variant holds: nothing, a list of types, or named fields.
#[derive(Debug, Clone, PartialEq)]
pub enum TTIRPayload {
    Nothing,
    Tuple(Vec<TyId>),
    Named(Vec<TTIRFieldDecl>),
}

#[derive(Debug, Clone, PartialEq)]
pub struct TTIRVariant {
    pub name: String,
    pub payload: TTIRPayload,
    /// The number the front end gave the variant, written or not.
    pub value: i64,
}

/// A declaration. What the machine end reads of a structure is its fields in
/// the order they were written, of an enum its variants, and of a trait only
/// that it is one.
#[derive(Debug, Clone, PartialEq)]
pub enum TTIRItemKind {
    Struct { name: String, generics: usize, fields: Vec<TTIRFieldDecl> },
    Enum { name: String, generics: usize, variants: Vec<TTIRVariant> },
    Trait { name: String },
    /// Anything a name can be that is not a type: a fn, a constant.
    Other { name: String },
}

#[derive(Debug, Clone, PartialEq)]
pub struct TTIRItem {
    pub kind: TTIRItemKind,
    pub line: usize,
    pub col: usize,
}

#[derive(Debug, Clone, PartialEq)]
pub struct TTIRProgram {
    pub types: Vec<Ty>,
    pub items: Vec<TTIRItem>,
}

impl TTIRProgram {
    pub fn new() -> (p: TTIRProgram)
        ensures
            p.types@.len() == 0,
            p.items@.len() == 0,
    {
        TTIRProgram { types: Vec::new(), items: Vec::new() }
    }
}

impl TTIRPayload {
    /// What one variant holds, as a list of types: the three shapes differ in
    /// what a reader writes and not in what is stored.
    pub open spec fn types(&self) -> Seq<TyId> {
        match self {
            TTIRPayload::Nothing => Seq::empty(),
            TTIRPayload::Tuple(tys) => tys@,
            TTIRPayload::Named(fields) => fields@.map_values(|f: TTIRFieldDecl| f.ty),
        }
    }
}

/// What one variant holds, as a list of types.
pub fn payload_types(payload: &TTIRPayload) -> (r: Vec<TyId>)
    ensures
        r@ == payload.types(),
{
    match payload {
        TTIRPayload::Nothing => Vec::new(),
        TTIRPayload::Tuple(tys) => {
            let mut out: Vec<TyId> = Vec::new();
            let mut i: usize = 0;
            while i < tys.len()
                invariant
                    i <= tys@.len(),
                    out@ =~= tys@.subrange(0, i as int),
                decreases tys@.len() - i,
            {
                out.push(tys[i]);
                i = i + 1;
            }
            proof {
                assert(tys@.subrange(0, tys@.len() as int) =~= tys@);
            }
            out
        },
        TTIRPayload::Named(fields) => {
            let mut out: Vec<TyId> = Vec::new();
            let mut i: usize = 0;
            while i < fields.len()
                invariant
                    i <= fields@.len(),
                    out@ =~= fields@.subrange(0, i as int).map_values(|f: TTIRFieldDecl| f.ty),
                decreases fields@.len() - i,
            {
                out.push(fields[i].ty);
                i = i + 1;
            }
            proof {
                assert(fields@.subrange(0, fields@.len() as int) =~= fields@);
            }
            out
        },
    }
}

/// The types of a structure's fields, in the order they were written.
pub fn field_types(fields: &Vec<TTIRFieldDecl>) -> (r: Vec<TyId>)
    ensures
        r@ == fields@.map_values(|f: TTIRFieldDecl| f.ty),
{
    let mut out: Vec<TyId> = Vec::new();
    let mut i: usize = 0;
    while i < fields.len()
        invariant
            i <= fields@.len(),
            out@ =~= fields@.subrange(0, i as int).map_values(|f: TTIRFieldDecl| f.ty),
        decreases fields@.len() - i,
    {
        out.push(fields[i].ty);
        i = i + 1;
    }
    proof {
        assert(fields@.subrange(0, fields@.len() as int) =~= fields@);
    }
    out
}

} // verus!
