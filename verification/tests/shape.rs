// Which words a type's descriptor calls pointers, and where each field of one
// sits. The offsets are asserted as numbers: the runtime reads the same bytes
// from the far side and nothing else checks that the two agree.

use fortec_mir::layout::Layouts;
use fortec_mir::machine::x86_64;
use fortec_mir::shape::{describe, environment, symbol, Kind, HEADER};
use fortec_mir::ttir::{
    TIRPrim, TTIRFieldDecl, TTIRItem, TTIRItemId, TTIRItemKind, TTIRPayload, TTIRProgram,
    TTIRVariant, Ty, TyId,
};

// ---- Types by hand ---------------------------------------------------------

struct Held {
    p: TTIRProgram,
}

impl Held {
    fn new() -> Held {
        Held { p: TTIRProgram::new() }
    }

    fn intern(&mut self, ty: Ty) -> TyId {
        self.p.types.push(ty);
        self.p.types.len() - 1
    }

    fn prim(&mut self, p: TIRPrim) -> TyId {
        self.intern(Ty::Prim(p))
    }

    fn i32(&mut self) -> TyId {
        self.prim(TIRPrim::I32)
    }

    fn i64(&mut self) -> TyId {
        self.prim(TIRPrim::I64)
    }

    fn refer(&mut self, inner: TyId) -> TyId {
        self.intern(Ty::Ref { mutable: false, inner })
    }

    fn pointer(&mut self, inner: TyId) -> TyId {
        self.intern(Ty::Ptr(inner))
    }

    fn item(&mut self, kind: TTIRItemKind) -> TTIRItemId {
        self.p.items.push(TTIRItem { kind, line: 1, col: 1 });
        self.p.items.len() - 1
    }

    fn strukt(&mut self, name: &str, fields: &[TyId]) -> TyId {
        let fields = fields
            .iter()
            .enumerate()
            .map(|(at, &ty)| TTIRFieldDecl { name: format!("f{}", at), ty })
            .collect();
        let item = self.item(TTIRItemKind::Struct { name: name.to_string(), generics: 0, fields });
        self.intern(Ty::Named { item, args: Vec::new() })
    }

    fn enom(&mut self, name: &str, payloads: &[Vec<TyId>]) -> TyId {
        let variants = payloads
            .iter()
            .enumerate()
            .map(|(at, payload)| TTIRVariant {
                name: format!("V{}", at),
                payload: if payload.is_empty() {
                    TTIRPayload::Nothing
                } else {
                    TTIRPayload::Tuple(payload.clone())
                },
                value: at as i64,
            })
            .collect();
        let item = self.item(TTIRItemKind::Enum { name: name.to_string(), generics: 0, variants });
        self.intern(Ty::Named { item, args: Vec::new() })
    }
}

// Pinned rather than the host's, so that a word count asserted here is the
// same count wherever the tests are run.
fn described(h: &Held, ty: TyId) -> Vec<u8> {
    let machine = x86_64();
    let layouts = Layouts::new(&h.p, &machine);
    describe(&layouts, &h.p, &machine, ty).expect("a descriptor")
}

fn word(held: &[u8], at: usize) -> usize {
    usize::from_le_bytes(held[at..at + 8].try_into().expect("eight bytes"))
}

fn points(held: &[u8], at: usize) -> bool {
    let words = word(held, 16);
    at < words && held[HEADER + at / 8] >> (at % 8) & 1 == 1
}

fn any(held: &[u8]) -> bool {
    held[HEADER..].iter().any(|byte| *byte != 0)
}

// ---- The offsets -----------------------------------------------------------

#[test]
fn every_field_is_at_the_offset_the_runtime_reads_it_from() {
    let mut h = Held::new();
    let ty = h.i64();
    let held = described(&h, ty);
    assert_eq!(word(&held, 0), 8, "the size is at nought");
    assert_eq!(word(&held, 8), 8, "the alignment is at eight");
    assert_eq!(word(&held, 16), 1, "how many words is at sixteen");
    assert_eq!(held[24], Kind::Signed.byte(), "the kind is at twenty-four");
    assert_eq!(held[25], 0, "whether it is indirect is at twenty-five");
    assert_eq!(HEADER, 32, "and the map begins at thirty-two");
}

#[test]
fn the_map_begins_on_a_word() {
    assert_eq!(HEADER % 8, 0);
}

// ---- What holds a pointer --------------------------------------------------

#[test]
fn a_number_holds_no_pointer() {
    let mut h = Held::new();
    for p in [TIRPrim::I8, TIRPrim::U64, TIRPrim::F64, TIRPrim::Bool, TIRPrim::Char] {
        let ty = h.prim(p);
        assert!(!any(&described(&h, ty)), "{:?}", p);
    }
}

#[test]
fn a_reference_and_a_pointer_are_each_one_pointer() {
    let mut h = Held::new();
    let inner = h.i32();
    for ty in [h.refer(inner), h.pointer(inner)] {
        let held = described(&h, ty);
        assert_eq!(word(&held, 16), 1);
        assert!(points(&held, 0));
    }
}

// A string is a pointer and a length, and only the first of the two is an
// address.
#[test]
fn a_string_names_its_first_word_and_not_its_second() {
    let mut h = Held::new();
    let ty = h.prim(TIRPrim::Str);
    let held = described(&h, ty);
    assert_eq!(word(&held, 16), 2);
    assert!(points(&held, 0));
    assert!(!points(&held, 1), "the length is a number");
}

// ---- Structures ------------------------------------------------------------

#[test]
fn a_structure_names_the_words_that_are_references() {
    let mut h = Held::new();
    let (n, i) = (h.i64(), h.i32());
    let r = h.refer(i);
    let ty = h.strukt("Node", &[n, r]);
    let held = described(&h, ty);
    assert_eq!(word(&held, 0), 16);
    assert!(!points(&held, 0), "the number");
    assert!(points(&held, 1), "the reference");
}

#[test]
fn a_structure_of_numbers_names_nothing_and_is_never_scanned() {
    let mut h = Held::new();
    let (a, b) = (h.i64(), h.i32());
    let ty = h.strukt("Plain", &[a, b]);
    assert!(!any(&described(&h, ty)));
}

#[test]
fn a_pointer_inside_a_nested_structure_is_found_at_its_own_offset() {
    let mut h = Held::new();
    let i = h.i32();
    let n = h.i64();
    let r = h.refer(i);
    let inner = h.strukt("Inner", &[n, r]);
    let ty = h.strukt("Outer", &[n, inner]);
    let held = described(&h, ty);
    assert_eq!(word(&held, 0), 24);
    assert!(!points(&held, 0));
    assert!(!points(&held, 1), "the inner structure's number");
    assert!(points(&held, 2), "the inner structure's reference");
}

#[test]
fn padding_before_a_field_does_not_move_it() {
    let mut h = Held::new();
    let b = h.prim(TIRPrim::I8);
    let i = h.i32();
    let r = h.refer(i);
    let ty = h.strukt("Padded", &[b, r]);
    let held = described(&h, ty);
    assert_eq!(word(&held, 0), 16, "a byte, seven of padding, and a word");
    assert!(!points(&held, 0));
    assert!(points(&held, 1));
}

// ---- Arrays and tuples -----------------------------------------------------

#[test]
fn every_element_of_an_array_of_references_is_named() {
    let mut h = Held::new();
    let i = h.i32();
    let r = h.refer(i);
    let ty = h.intern(Ty::Array { elem: r, len: 4 });
    let held = described(&h, ty);
    assert_eq!(word(&held, 16), 4);
    for at in 0..4 {
        assert!(points(&held, at), "element {}", at);
    }
}

#[test]
fn an_array_of_numbers_names_nothing() {
    let mut h = Held::new();
    let n = h.i64();
    let ty = h.intern(Ty::Array { elem: n, len: 100_000 });
    assert!(!any(&described(&h, ty)));
}

#[test]
fn a_tuple_names_the_parts_that_are_references() {
    let mut h = Held::new();
    let i = h.i32();
    let n = h.i64();
    let r = h.refer(i);
    let ty = h.intern(Ty::Tuple(vec![n, r, n]));
    let held = described(&h, ty);
    assert!(!points(&held, 0));
    assert!(points(&held, 1));
    assert!(!points(&held, 2));
}

// ---- Enums -----------------------------------------------------------------

#[test]
fn an_enum_names_every_word_that_is_a_pointer_in_any_variant() {
    let mut h = Held::new();
    let i = h.i32();
    let n = h.i64();
    let r = h.refer(i);
    // One variant holds a number where the other holds a reference.
    let ty = h.enom("Either", &[vec![n], vec![r]]);
    let held = described(&h, ty);
    assert!(any(&held), "one of the two variants holds a reference");
}

#[test]
fn an_enum_of_numbers_names_nothing() {
    let mut h = Held::new();
    let n = h.i64();
    let i = h.i32();
    let ty = h.enom("Plain", &[vec![n], vec![i], Vec::new()]);
    assert!(!any(&described(&h, ty)));
}

// ---- The kind --------------------------------------------------------------

#[test]
fn every_primitive_gets_the_kind_its_bytes_mean() {
    let mut h = Held::new();
    let cases = [
        (TIRPrim::I32, Kind::Signed),
        (TIRPrim::I8, Kind::Signed),
        (TIRPrim::U64, Kind::Unsigned),
        (TIRPrim::Bool, Kind::Unsigned),
        (TIRPrim::Char, Kind::Unsigned),
        (TIRPrim::F32, Kind::Float),
        (TIRPrim::Str, Kind::Str),
    ];
    for (p, want) in cases {
        let ty = h.prim(p);
        assert_eq!(described(&h, ty)[24], want.byte(), "{:?}", p);
    }
}

#[test]
fn a_reference_is_a_pointer_and_a_structure_is_its_bytes() {
    let mut h = Held::new();
    let i = h.i32();
    let r = h.refer(i);
    assert_eq!(described(&h, r)[24], Kind::Pointer.byte());
    let s = h.strukt("Held", &[i]);
    assert_eq!(described(&h, s)[24], Kind::Opaque.byte());
}

// ---- Indirect --------------------------------------------------------------

#[test]
fn what_arrives_by_address_says_so_and_what_does_not_does_not() {
    let mut h = Held::new();
    let i = h.i32();
    assert_eq!(described(&h, i)[25], 0, "a number is itself");
    let r = h.refer(i);
    assert_eq!(described(&h, r)[25], 0, "so is an address");
    let s = h.strukt("Wide", &[i, i, i]);
    assert_eq!(described(&h, s)[25], 1, "a structure is its address");
    let t = h.prim(TIRPrim::Str);
    assert_eq!(described(&h, t)[25], 1, "and so is anything fat");
}

// ---- A closure's environment -----------------------------------------------

#[test]
fn an_environment_is_that_many_words_and_all_of_them_pointers() {
    let held = environment(3, &x86_64());
    assert_eq!(word(&held, 0), 24);
    assert_eq!(word(&held, 8), 8);
    assert_eq!(word(&held, 16), 3);
    for at in 0..3 {
        assert!(points(&held, at), "word {}", at);
    }
    assert_eq!(held[25], 1, "it is reached by its address");
}

#[test]
fn an_environment_with_nothing_in_it_is_still_a_descriptor() {
    let held = environment(0, &x86_64());
    assert_eq!(word(&held, 16), 0);
    assert!(!any(&held));
    assert!(held.len() >= HEADER);
}

// ---- Names -----------------------------------------------------------------

// Two bodies wanting the same type have to name the same thing, and two types
// two things. The spelling is what the front end calls the type.
#[test]
fn a_type_is_named_after_its_spelling() {
    assert_eq!(symbol("i32"), "__T3i32");
    assert_ne!(symbol("i32"), symbol("i64"));
}

// ---- More than the runtime asks for -----------------------------------------

// A parameter stands for what the declaration was handed, and the map follows
// it to where the handed type puts its pointer.
#[test]
fn a_generic_field_is_described_as_what_it_was_handed() {
    let mut h = Held::new();
    let i = h.i32();
    let n = h.i64();
    let r = h.refer(i);
    let param = h.intern(Ty::Param { name: "T".to_string(), index: 0 });
    let fields = vec![
        TTIRFieldDecl { name: "a".to_string(), ty: n },
        TTIRFieldDecl { name: "b".to_string(), ty: param },
    ];
    let item = h.item(TTIRItemKind::Struct { name: "Box".to_string(), generics: 1, fields });
    let ty = h.intern(Ty::Named { item, args: vec![r] });
    let held = described(&h, ty);
    assert_eq!(word(&held, 16), 2);
    assert!(!points(&held, 0));
    assert!(points(&held, 1));
}

// A fn value is two words and both are named.
#[test]
fn a_fn_value_names_both_its_words() {
    let mut h = Held::new();
    let i = h.i32();
    let ty = h.intern(Ty::Fn { params: vec![i], ret: i });
    let held = described(&h, ty);
    assert_eq!(word(&held, 16), 2);
    assert!(points(&held, 0));
    assert!(points(&held, 1));
    assert_eq!(held.len(), HEADER + 1);
}

// A parameter nothing stands for has no layout, and so no descriptor.
#[test]
fn a_type_without_a_layout_has_no_descriptor() {
    let mut h = Held::new();
    let param = h.intern(Ty::Param { name: "T".to_string(), index: 0 });
    let machine = x86_64();
    let layouts = Layouts::new(&h.p, &machine);
    assert!(describe(&layouts, &h.p, &machine, param).is_none());
}

// Seventeen words of map take three bytes.
#[test]
fn a_long_array_gets_a_map_byte_for_every_eight_words() {
    let mut h = Held::new();
    let i = h.i32();
    let r = h.refer(i);
    let ty = h.intern(Ty::Array { elem: r, len: 17 });
    let held = described(&h, ty);
    assert_eq!(word(&held, 16), 17);
    assert_eq!(held.len(), HEADER + 3);
    assert_eq!(held[HEADER], 0xff);
    assert_eq!(held[HEADER + 1], 0xff);
    assert_eq!(held[HEADER + 2], 0x01);
}
