// Where the bytes go, checked against declarations written by hand.

use fortec_mir::layout::{Layouts, Shape};
use fortec_mir::machine::x86_64;
use fortec_mir::ttir::{
    TIRPrim, TTIRFieldDecl, TTIRItem, TTIRItemId, TTIRItemKind, TTIRPayload, TTIRProgram,
    TTIRVariant, Ty, TyId,
};

struct Held {
    p: TTIRProgram,
}

impl Held {
    fn new() -> Held {
        Held { p: TTIRProgram::new() }
    }

    fn intern(&mut self, ty: Ty) -> TyId {
        self.p.types.push(ty);
        self.p.types.len() - 1
    }

    fn prim(&mut self, p: TIRPrim) -> TyId {
        self.intern(Ty::Prim(p))
    }

    fn i8(&mut self) -> TyId {
        self.prim(TIRPrim::I8)
    }

    fn i16(&mut self) -> TyId {
        self.prim(TIRPrim::I16)
    }

    fn i32(&mut self) -> TyId {
        self.prim(TIRPrim::I32)
    }

    fn i64(&mut self) -> TyId {
        self.prim(TIRPrim::I64)
    }

    fn item(&mut self, kind: TTIRItemKind) -> TTIRItemId {
        self.p.items.push(TTIRItem { kind, line: 1, col: 1 });
        self.p.items.len() - 1
    }

    fn structure(&mut self, name: &str, fields: &[TyId]) -> TTIRItemId {
        let fields = fields
            .iter()
            .enumerate()
            .map(|(at, &ty)| TTIRFieldDecl { name: format!("f{}", at), ty })
            .collect();
        self.item(TTIRItemKind::Struct { name: name.to_string(), generics: 0, fields })
    }

    fn generic(&mut self, name: &str, fields: &[TyId]) -> TTIRItemId {
        let at = self.structure(name, fields);
        if let TTIRItemKind::Struct { generics, .. } = &mut self.p.items[at].kind {
            *generics = 1;
        }
        at
    }

    fn enumeration(&mut self, name: &str, variants: &[(Vec<TyId>, i64)]) -> TTIRItemId {
        let variants = variants
            .iter()
            .enumerate()
            .map(|(at, (payload, value))| TTIRVariant {
                name: format!("V{}", at),
                payload: if payload.is_empty() {
                    TTIRPayload::Nothing
                } else {
                    TTIRPayload::Tuple(payload.clone())
                },
                value: *value,
            })
            .collect();
        self.item(TTIRItemKind::Enum { name: name.to_string(), generics: 0, variants })
    }

    fn named(&mut self, item: TTIRItemId, args: Vec<TyId>) -> TyId {
        self.intern(Ty::Named { item, args })
    }
}

fn laid(h: &Held) -> Layouts<'_> {
    Layouts::new(&h.p, &x86_64())
}

#[test]
fn a_primitive_is_as_wide_as_its_name_says() {
    let mut h = Held::new();
    let (a, b, c, d) = (h.i8(), h.i16(), h.i32(), h.i64());
    let l = laid(&h);
    assert_eq!(l.bytes(a), Some(1));
    assert_eq!(l.bytes(b), Some(2));
    assert_eq!(l.bytes(c), Some(4));
    assert_eq!(l.bytes(d), Some(8));
    assert_eq!(l.align(d), Some(8), "and is aligned to itself");
}

#[test]
fn a_char_is_four_bytes_and_a_bool_is_one() {
    let mut h = Held::new();
    let (c, b) = (h.prim(TIRPrim::Char), h.prim(TIRPrim::Bool));
    let l = laid(&h);
    assert_eq!(l.bytes(c), Some(4));
    assert_eq!(l.bytes(b), Some(1));
}

#[test]
fn null_and_never_take_no_room() {
    let mut h = Held::new();
    let (n, v) = (h.prim(TIRPrim::Null), h.prim(TIRPrim::Never));
    let l = laid(&h);
    assert_eq!(l.of(n).map(|held| held.shape), Some(Shape::Empty));
    assert_eq!(l.bytes(n), Some(0));
    assert_eq!(l.bytes(v), Some(0));
}

#[test]
fn a_reference_a_pointer_and_a_gc_handle_are_one_word() {
    let mut h = Held::new();
    let inner = h.i32();
    let r = h.intern(Ty::Ref { mutable: false, inner });
    let p = h.intern(Ty::Ptr(inner));
    let g = h.intern(Ty::GC(inner));
    let l = laid(&h);
    for ty in [r, p, g] {
        assert_eq!(l.bytes(ty), Some(8));
        assert_eq!(l.of(ty).map(|held| held.shape), Some(Shape::Scalar));
    }
}

#[test]
fn a_run_a_string_and_a_fn_value_are_two_words() {
    let mut h = Held::new();
    let elem = h.i32();
    let run = h.intern(Ty::Run(elem));
    let str_ = h.prim(TIRPrim::Str);
    let f = h.intern(Ty::Fn { params: Vec::new(), ret: elem });
    let l = laid(&h);
    for ty in [run, str_, f] {
        assert_eq!(l.bytes(ty), Some(16), "a pointer and one more word");
        assert_eq!(l.align(ty), Some(8));
        assert_eq!(l.of(ty).map(|held| held.shape), Some(Shape::Fat));
    }
}

#[test]
fn a_byte_before_a_word_leaves_the_padding_where_it_falls() {
    let mut h = Held::new();
    let (a, b) = (h.i8(), h.i64());
    let item = h.structure("Pair", &[a, b]);
    let ty = h.named(item, Vec::new());
    let l = laid(&h);
    assert_eq!(l.field(ty, 0), Some(0));
    assert_eq!(l.field(ty, 1), Some(8), "the word cannot begin at one");
    assert_eq!(l.bytes(ty), Some(16));
    assert_eq!(l.align(ty), Some(8), "the widest field's");
}

#[test]
fn the_order_written_is_the_order_laid_out() {
    let mut h = Held::new();
    let (a, b) = (h.i8(), h.i64());
    let wide_first = h.structure("Wide", &[b, a]);
    let ty = h.named(wide_first, Vec::new());
    let l = laid(&h);
    assert_eq!(l.field(ty, 0), Some(0), "the word");
    assert_eq!(l.field(ty, 1), Some(8), "and the byte after it");
    assert_eq!(l.bytes(ty), Some(16), "rounded up so a run of them stays aligned");
}

#[test]
fn a_structure_with_no_fields_takes_no_room() {
    let mut h = Held::new();
    let item = h.structure("Nothing", &[]);
    let ty = h.named(item, Vec::new());
    let l = laid(&h);
    assert_eq!(l.bytes(ty), Some(0));
    assert_eq!(l.align(ty), Some(1));
    assert_eq!(l.of(ty).map(|held| held.shape), Some(Shape::Empty));
}

#[test]
fn a_nested_structure_carries_its_alignment_outwards() {
    let mut h = Held::new();
    let (byte, word) = (h.i8(), h.i64());
    let inner = h.structure("Inner", &[byte, word]);
    let inner_ty = h.named(inner, Vec::new());
    let outer = h.structure("Outer", &[byte, inner_ty]);
    let outer_ty = h.named(outer, Vec::new());
    let l = laid(&h);
    assert_eq!(l.bytes(inner_ty), Some(16));
    assert_eq!(l.field(outer_ty, 0), Some(0), "the byte");
    assert_eq!(l.field(outer_ty, 1), Some(8), "and the inner one, on its own alignment");
    assert_eq!(l.bytes(outer_ty), Some(24));
    assert_eq!(l.align(outer_ty), Some(8), "which came from inside");
}

#[test]
fn a_tuple_is_laid_out_as_a_structure_is() {
    let mut h = Held::new();
    let (a, b) = (h.i8(), h.i64());
    let tuple = h.intern(Ty::Tuple(vec![a, b]));
    let item = h.structure("Same", &[a, b]);
    let named = h.named(item, Vec::new());
    let l = laid(&h);
    assert_eq!(l.of(tuple).map(|held| held.shape), l.of(named).map(|held| held.shape));
    assert_eq!(l.bytes(tuple), l.bytes(named));
}

#[test]
fn an_array_is_its_length_times_the_stride() {
    let mut h = Held::new();
    let elem = h.i32();
    let array = h.intern(Ty::Array { elem, len: 8 });
    let l = laid(&h);
    assert_eq!(l.bytes(array), Some(32));
    assert_eq!(l.align(array), Some(4), "the element's");
    assert_eq!(
        l.of(array).map(|held| held.shape),
        Some(Shape::Elements { stride: 4, len: 8 })
    );
}

#[test]
fn an_array_of_structures_steps_by_the_whole_structure() {
    let mut h = Held::new();
    let (byte, word) = (h.i8(), h.i64());
    let item = h.structure("Pair", &[byte, word]);
    let ty = h.named(item, Vec::new());
    let array = h.intern(Ty::Array { elem: ty, len: 3 });
    let l = laid(&h);
    assert_eq!(l.stride(ty), Some(16));
    assert_eq!(l.bytes(array), Some(48));
}

#[test]
fn an_empty_array_takes_no_room() {
    let mut h = Held::new();
    let elem = h.i32();
    let array = h.intern(Ty::Array { elem, len: 0 });
    let l = laid(&h);
    assert_eq!(l.bytes(array), Some(0));
}

#[test]
fn an_enum_is_a_tag_and_then_the_widest_variant() {
    let mut h = Held::new();
    let word = h.i64();
    let item = h.enumeration("E", &[(vec![], 0), (vec![word], 1), (vec![], 2)]);
    let ty = h.named(item, Vec::new());
    let l = laid(&h);
    assert_eq!(l.tag(ty), Some(1), "three variants need one byte");
    assert_eq!(l.payload(ty, 1, 0), Some(8), "the word waits for its alignment");
    assert_eq!(l.bytes(ty), Some(16));
    assert_eq!(l.align(ty), Some(8));
}

#[test]
fn every_variant_begins_at_the_same_offset() {
    let mut h = Held::new();
    let (a, b) = (h.i32(), h.i32());
    let item = h.enumeration("E", &[(vec![a], 0), (vec![b, a], 1)]);
    let ty = h.named(item, Vec::new());
    let l = laid(&h);
    assert_eq!(l.payload(ty, 0, 0), l.payload(ty, 1, 0), "one place to start");
    let first = l.payload(ty, 1, 0).expect("a payload");
    assert_eq!(l.payload(ty, 1, 1), Some(first + 4), "and the second beside it");
}

#[test]
fn a_variant_with_no_payload_has_no_offsets() {
    let mut h = Held::new();
    let word = h.i64();
    let item = h.enumeration("E", &[(vec![], 0), (vec![word], 1)]);
    let ty = h.named(item, Vec::new());
    let l = laid(&h);
    assert_eq!(l.payload(ty, 0, 0), None);
    assert_eq!(l.payload(ty, 1, 0), Some(8));
}

#[test]
fn the_tag_is_as_wide_as_the_numbers_the_checker_gave() {
    let mut h = Held::new();
    let small = h.enumeration("Small", &[(vec![], 0), (vec![], 255)]);
    let big = h.enumeration("Big", &[(vec![], 0), (vec![], 1000)]);
    let huge = h.enumeration("Huge", &[(vec![], 0), (vec![], 1 << 40)]);
    let (a, b, c) =
        (h.named(small, Vec::new()), h.named(big, Vec::new()), h.named(huge, Vec::new()));
    let l = laid(&h);
    assert_eq!(l.tag(a), Some(1));
    assert_eq!(l.tag(b), Some(2));
    assert_eq!(l.tag(c), Some(8));
}

#[test]
fn a_negative_discriminant_makes_the_tag_signed() {
    let mut h = Held::new();
    let unsigned = h.enumeration("U", &[(vec![], 0), (vec![], 200)]);
    let signed = h.enumeration("S", &[(vec![], -1), (vec![], 200)]);
    let (a, b) = (h.named(unsigned, Vec::new()), h.named(signed, Vec::new()));
    let l = laid(&h);
    assert_eq!(l.tag(a), Some(1), "0 to 200 is a byte");
    assert_eq!(l.tag(b), Some(2), "-1 to 200 is not");
}

#[test]
fn an_enum_with_no_variants_takes_no_room() {
    let mut h = Held::new();
    let item = h.enumeration("Nothing", &[]);
    let ty = h.named(item, Vec::new());
    let l = laid(&h);
    assert_eq!(l.bytes(ty), Some(0));
}

#[test]
fn a_type_parameter_with_nothing_standing_in_has_no_layout() {
    let mut h = Held::new();
    let param = h.intern(Ty::Param { name: "T".to_string(), index: 0 });
    let l = laid(&h);
    assert_eq!(l.of(param), None);
}

#[test]
fn a_type_parameter_is_laid_out_as_what_the_use_handed_it() {
    let mut h = Held::new();
    let param = h.intern(Ty::Param { name: "T".to_string(), index: 0 });
    let byte = h.i8();
    let item = h.generic("Held", &[param]);
    let of_word = {
        let word = h.i64();
        h.named(item, vec![word])
    };
    let of_byte = h.named(item, vec![byte]);
    let l = laid(&h);
    assert_eq!(l.bytes(of_word), Some(8));
    assert_eq!(l.bytes(of_byte), Some(1));
}

#[test]
fn two_uses_of_one_generic_do_not_share_an_answer() {
    let mut h = Held::new();
    let param = h.intern(Ty::Param { name: "T".to_string(), index: 0 });
    let item = h.generic("Held", &[param]);
    let byte = h.i8();
    let word = h.i64();
    let of_byte = h.named(item, vec![byte]);
    let of_word = h.named(item, vec![word]);
    let l = laid(&h);
    assert_eq!(l.bytes(of_word), Some(8));
    assert_eq!(l.bytes(of_byte), Some(1), "and the first did not answer for the second");
    assert_eq!(l.bytes(of_word), Some(8), "still");
}

#[test]
fn a_type_that_holds_itself_has_no_layout() {
    let mut h = Held::new();
    let item = h.item(TTIRItemKind::Struct {
        name: "Loop".to_string(),
        generics: 0,
        fields: Vec::new(),
    });
    let ty = h.named(item, Vec::new());
    if let TTIRItemKind::Struct { fields, .. } = &mut h.p.items[item].kind {
        *fields = vec![TTIRFieldDecl { name: "me".to_string(), ty }];
    }
    let l = laid(&h);
    assert_eq!(l.of(ty), None);
}

#[test]
fn a_type_that_points_at_itself_is_one_word_of_it() {
    let mut h = Held::new();
    let item = h.item(TTIRItemKind::Struct {
        name: "List".to_string(),
        generics: 0,
        fields: Vec::new(),
    });
    let ty = h.named(item, Vec::new());
    let next = h.intern(Ty::Ptr(ty));
    let value = h.i32();
    if let TTIRItemKind::Struct { fields, .. } = &mut h.p.items[item].kind {
        *fields = vec![
            TTIRFieldDecl { name: "value".to_string(), ty: value },
            TTIRFieldDecl { name: "next".to_string(), ty: next },
        ];
    }
    let l = laid(&h);
    assert_eq!(l.field(ty, 0), Some(0));
    assert_eq!(l.field(ty, 1), Some(8), "the pointer, on its own alignment");
    assert_eq!(l.bytes(ty), Some(16));
}

#[test]
fn a_hole_and_an_error_have_no_layout() {
    let mut h = Held::new();
    let hole = h.intern(Ty::Var(0));
    let wrong = h.intern(Ty::Error);
    let l = laid(&h);
    assert_eq!(l.of(hole), None);
    assert_eq!(l.of(wrong), None);
}

// A generic that holds itself through its own argument comes round again in the
// same standing, and is refused rather than looked at forever.
#[test]
fn a_generic_that_holds_itself_through_its_argument_has_no_layout() {
    let mut h = Held::new();
    let param = h.intern(Ty::Param { name: "T".to_string(), index: 0 });
    let item = h.generic("Deep", &[]);
    let me = h.named(item, vec![param]);
    if let TTIRItemKind::Struct { fields, .. } = &mut h.p.items[item].kind {
        *fields = vec![TTIRFieldDecl { name: "me".to_string(), ty: me }];
    }
    let word = h.i64();
    let used = h.named(item, vec![word]);
    let l = laid(&h);
    assert_eq!(l.of(used), None);
}

// A named payload is laid out as a tuple payload of the same types.
#[test]
fn a_variant_with_named_fields_is_laid_out_as_its_types() {
    let mut h = Held::new();
    let (b, w) = (h.i8(), h.i64());
    let item = h.item(TTIRItemKind::Enum {
        name: "N".to_string(),
        generics: 0,
        variants: vec![TTIRVariant {
            name: "V".to_string(),
            payload: TTIRPayload::Named(vec![
                TTIRFieldDecl { name: "a".to_string(), ty: b },
                TTIRFieldDecl { name: "b".to_string(), ty: w },
            ]),
            value: 0,
        }],
    });
    let ty = h.named(item, Vec::new());
    let l = laid(&h);
    assert_eq!(l.payload(ty, 0, 0), Some(8));
    assert_eq!(l.payload(ty, 0, 1), Some(16));
    assert_eq!(l.bytes(ty), Some(24));
}

// A chain of types nested hundreds deep is walked to its end.
#[test]
fn a_chain_nested_hundreds_deep_is_laid_out() {
    let mut h = Held::new();
    let mut ty = h.i8();
    for _ in 0..300 {
        ty = h.intern(Ty::Array { elem: ty, len: 1 });
    }
    let l = laid(&h);
    assert_eq!(l.bytes(ty), Some(1));
    let w = h.i64();
    let outer = h.structure("Outer", &[w, ty]);
    let named = h.named(outer, Vec::new());
    let l = laid(&h);
    assert_eq!(l.field(named, 0), Some(0));
    assert_eq!(l.field(named, 1), Some(8));
    assert_eq!(l.bytes(named), Some(16));
}

// A generic holding a type nested hundreds deep through its argument is laid
// out too: only a type that comes round again in the same standing is refused.
#[test]
fn a_generic_over_a_deep_chain_is_laid_out() {
    let mut h = Held::new();
    let param = h.intern(Ty::Param { name: "T".to_string(), index: 0 });
    let item = h.generic("Wrap", &[param]);
    let mut ty = h.i16();
    for _ in 0..200 {
        ty = h.named(item, vec![ty]);
    }
    let l = laid(&h);
    assert_eq!(l.bytes(ty), Some(2));
    assert_eq!(l.field(ty, 0), Some(0));
}
