// The names, and the two rules about them that a link error would otherwise
// teach the hard way: they are all different, and the ones built from a type
// are built the way every other name is.

use fortec_mir::runtime::{
    glue, map_insert, map_new, set_insert, set_new, text, ALLOC, COLLECT, COPY, GC_ALLOC, HASHMAP_INSERT,
    HASHMAP_NEW, HASHSET_INSERT, HASHSET_NEW, INIT, ITER_ELEM, ITER_STEP, ITER_VALID, MAP_INSERT,
    MAP_NEW, SET_INSERT, SET_NEW, WRITE,
};

fn every_fixed_name() -> Vec<&'static str> {
    vec![
        INIT,
        ALLOC,
        GC_ALLOC,
        COLLECT,
        WRITE,
        COPY,
        MAP_NEW,
        HASHMAP_NEW,
        MAP_INSERT,
        HASHMAP_INSERT,
        SET_NEW,
        HASHSET_NEW,
        SET_INSERT,
        HASHSET_INSERT,
        ITER_VALID,
        ITER_ELEM,
        ITER_STEP,
    ]
}

#[test]
fn no_two_routines_share_a_name() {
    let held = every_fixed_name();
    for (at, name) in held.iter().enumerate() {
        assert!(!held[at + 1..].contains(name), "{} is used twice", name);
    }
}

#[test]
fn every_routine_is_under_the_runtime_prefix() {
    for name in every_fixed_name() {
        assert!(name.starts_with("__rt_"), "{} is not marked as the runtime's", name);
    }
}

#[test]
fn the_hashed_kind_is_a_different_routine() {
    assert_ne!(map_new(true), map_new(false));
    assert_ne!(map_insert(true), map_insert(false));
    assert_ne!(set_new(true), set_new(false));
    assert_ne!(set_insert(true), set_insert(false));
}

#[test]
fn the_cursor_has_three_routines_and_not_four() {
    let held = every_fixed_name();
    assert!(!held.iter().any(|name| name.ends_with("iter_start")));
    assert_eq!(held.iter().filter(|name| name.contains("iter_")).count(), 3);
}

#[test]
fn a_release_is_named_after_the_type_it_releases() {
    assert_eq!(glue("i32"), "__D3i32");
    assert_eq!(glue("t::Point"), "__D8t::Point");
}

#[test]
fn two_types_have_two_releases() {
    assert_ne!(glue("i32"), glue("i64"));
}

#[test]
fn the_length_keeps_one_name_out_of_another() {
    assert_ne!(glue("ab"), glue("a"));
    assert_ne!(glue("a1"), glue("a"));
}

// A spelling that starts with digits still cannot pass for another one: the
// length in front counts bytes, and a longer length would need more text.
#[test]
fn a_spelling_that_begins_with_digits_is_still_its_own() {
    assert_eq!(glue("1"), "__D11");
    assert_eq!(glue("11"), "__D211");
    assert_ne!(glue("1"), glue("11"));
    assert_ne!(glue("12345678901"), glue("2345678901"));
    assert_ne!(glue("é"), glue("e"));
}

#[test]
fn every_literal_in_the_pool_has_its_own_name() {
    assert_ne!(text(0), text(1));
    assert!(text(0).starts_with("__S"));
}

// A number with more than one digit is written most significant first.
#[test]
fn a_long_name_has_a_long_length_in_front() {
    assert_eq!(glue("abcdefghijkl"), "__D12abcdefghijkl");
    assert_eq!(text(407), "__S407");
}

#[test]
fn each_kind_names_its_own_routine() {
    assert_eq!(map_new(false), "__rt_map_new");
    assert_eq!(map_new(true), "__rt_hashmap_new");
    assert_eq!(set_insert(true), "__rt_hashset_insert");
    assert_eq!(map_insert(false), "__rt_map_insert");
    assert_eq!(set_new(false), "__rt_set_new");
}
