//! The symbols the lowering calls, for the things the language has and a
//! machine does not: a heap, a collector, a map and a set, and a release for
//! every type. The names are in one place so that they are spelled once.
//!
//! The fixed ones are one routine each, whatever the types. A release is one
//! routine per type, named after the type the way everything else is named.

use vstd::prelude::*;
use vstd::string::StringSliceAdditionalSpecFns;
use crate::spell::{decimal, part, part_spelled, parts_are_one_to_one, push_decimal, push_text};

verus! {

/// `__rt_init()`: called once, from the outermost frame of the program.
pub const INIT: &'static str = "__rt_init";

/// `__rt_alloc(bytes): ptr`: room that outlives the frame and that the
/// collector does not own.
pub const ALLOC: &'static str = "__rt_alloc";

/// `__rt_gc_alloc(bytes, shape): ptr`: room the collector does own.
pub const GC_ALLOC: &'static str = "__rt_gc_alloc";

/// `__rt_collect()`: a whole cycle, now.
pub const COLLECT: &'static str = "__rt_collect";

/// `__rt_write(slot, value)`: a pointer going into a place that is not a frame
/// slot, through the barrier.
pub const WRITE: &'static str = "__rt_write";

/// `__rt_copy(to, from, shape)`: a whole value moved where it holds pointers.
pub const COPY: &'static str = "__rt_copy";

/// `__rt_map_new(key, value): handle`, both of them descriptors; the ordered
/// kind and the hashed kind are two routines.
pub const MAP_NEW: &'static str = "__rt_map_new";

pub const HASHMAP_NEW: &'static str = "__rt_hashmap_new";

/// `__rt_map_insert(map, key, value)`.
pub const MAP_INSERT: &'static str = "__rt_map_insert";

pub const HASHMAP_INSERT: &'static str = "__rt_hashmap_insert";

/// `__rt_set_new(elem): handle`.
pub const SET_NEW: &'static str = "__rt_set_new";

pub const HASHSET_NEW: &'static str = "__rt_hashset_new";

/// `__rt_set_insert(set, elem)`.
pub const SET_INSERT: &'static str = "__rt_set_insert";

pub const HASHSET_INSERT: &'static str = "__rt_hashset_insert";

/// The cursor protocol: `valid(it, at)`, `elem(it, at)`, `step(it, at)`.
/// There is no `start`: stepping from -1 lands on the first.
pub const ITER_VALID: &'static str = "__rt_iter_valid";

pub const ITER_ELEM: &'static str = "__rt_iter_elem";

pub const ITER_STEP: &'static str = "__rt_iter_step";

/// The routine that makes a map of the kind named.
pub fn map_new(hashed: bool) -> (r: &'static str)
    ensures
        r == (if hashed { HASHMAP_NEW } else { MAP_NEW }),
{
    if hashed { HASHMAP_NEW } else { MAP_NEW }
}

/// The routine that inserts into a map of the kind named.
pub fn map_insert(hashed: bool) -> (r: &'static str)
    ensures
        r == (if hashed { HASHMAP_INSERT } else { MAP_INSERT }),
{
    if hashed { HASHMAP_INSERT } else { MAP_INSERT }
}

/// The routine that makes a set of the kind named.
pub fn set_new(hashed: bool) -> (r: &'static str)
    ensures
        r == (if hashed { HASHSET_NEW } else { SET_NEW }),
{
    if hashed { HASHSET_NEW } else { SET_NEW }
}

/// The routine that inserts into a set of the kind named.
pub fn set_insert(hashed: bool) -> (r: &'static str)
    ensures
        r == (if hashed { HASHSET_INSERT } else { SET_INSERT }),
{
    if hashed { HASHSET_INSERT } else { SET_INSERT }
}

/// The release of a type: `__D`, then the type's spelling as one part of a
/// name.
pub open spec fn glue_spelled(spelled: &str) -> Seq<char> {
    "__D"@ + part_spelled(spelled)
}

/// One release routine per type, named after the type it releases.
pub fn glue(spelled: &str) -> (r: String)
    ensures
        r@ == glue_spelled(spelled),
{
    let mut out = String::new();
    push_text(&mut out, "__D");
    part(spelled, &mut out);
    out
}

/// No two types share a release routine: types spelled differently get
/// routines named differently.
pub proof fn glue_is_one_to_one(a: &str, b: &str)
    requires
        a.spec_bytes().len() <= usize::MAX,
        b.spec_bytes().len() <= usize::MAX,
    ensures
        glue_spelled(a) == glue_spelled(b) ==> a@ == b@,
{
    reveal_strlit("__D");
    if glue_spelled(a) == glue_spelled(b) {
        let n = glue_spelled(a).len() as int;
        assert(part_spelled(a) =~= glue_spelled(a).subrange(3, n));
        assert(part_spelled(b) =~= glue_spelled(b).subrange(3, n));
        parts_are_one_to_one(a, b);
    }
}

/// What the string literal at `at` in the pool is kept under.
pub open spec fn text_named(at: nat) -> Seq<char> {
    "__S"@ + decimal(at)
}

/// What a string literal is kept under: `__S` and where it sits in the pool.
pub fn text(at: usize) -> (r: String)
    ensures
        r@ == text_named(at as nat),
{
    let mut out = String::new();
    push_text(&mut out, "__S");
    push_decimal(&mut out, at);
    out
}

} // verus!
