// The parts of emitting that are the same for every machine.

use fortec_mir::emit::{bytes_of, data, ordered, passing, render, symbol, Step};
use fortec_mir::mir_nodes::{MIRConstBody, MIRConstant, MIRGlobal};
use fortec_mir::machine::{aarch64, riscv64, x86_64, Class, Machine, Reg};
use fortec_mir::emit::body::Body;
use fortec_mir::fixture::Fixture;
use fortec_mir::linear::linearise;
use fortec_mir::mir_nodes::MIRTerm;
use fortec_mir::regalloc::allocate;

fn ireg(name: &'static str) -> Reg {
    Reg { name, class: Class::Int }
}

// ---- Names an assembler will take ------------------------------------------

#[test]
fn a_name_that_is_already_plain_is_left_alone() {
    assert_eq!(symbol("__rt_gc_alloc"), "__rt_gc_alloc");
    assert_eq!(symbol("__F1t1f"), "__F1t1f");
    assert_eq!(symbol("__S1"), "__S1");
}

#[test]
fn the_characters_a_spelling_holds_are_escaped() {
    assert_eq!(symbol("&"), ".26");
    assert_eq!(symbol("a::b"), "a.3a.3ab");
    assert_eq!(symbol("x[3]"), "x.5b3.5d");
    assert_eq!(symbol("Vec<i32>"), "Vec.3ci32.3e");
    assert_eq!(symbol("fn(i32):str"), "fn.28i32.29.3astr");
}

#[test]
fn no_two_names_escape_to_the_same_name() {
    let held = [
        "a.b", "a&b", "ab", "a:b", "a::b", "a.3ab", "a[b]", "a b", "a,b", "a<b>",
        "__F2rt4keep9&rt::Node", "__F2rt4keep9&rt::Nodf",
    ];
    let mut out: Vec<String> = held.iter().map(|one| symbol(one)).collect();
    out.sort();
    let all = out.len();
    out.dedup();
    assert_eq!(out.len(), all, "two of {:?} came out the same", held);
}

#[test]
fn a_dot_in_a_name_is_escaped_like_anything_else() {
    assert_eq!(symbol("a.b"), "a.2eb");
    assert_ne!(symbol("a.b"), symbol("a:b"));
}

#[test]
fn every_escaped_name_is_letters_digits_underscores_and_dots() {
    for one in ["&x", "a::b<c>[1]", "fn(i32):str", "$c2"] {
        for held in symbol(one).chars() {
            assert!(
                held.is_ascii_alphanumeric() || held == '_' || held == '.',
                "{} came out of {}",
                held,
                one
            );
        }
    }
}

// A character outside ASCII is every byte of its UTF-8 spelling, escaped.
#[test]
fn a_character_outside_ascii_is_each_of_its_bytes_escaped() {
    assert_eq!(symbol("é"), ".c3.a9");
    assert_eq!(symbol("a€"), "a.e2.82.ac");
}

// ---- Moving several registers at once --------------------------------------

fn settled(moves: &[(Reg, Reg)]) -> Vec<(&'static str, &'static str)> {
    let mut held: Vec<(&'static str, &'static str)> = Vec::new();
    for (to, from) in moves {
        for one in [to.name, from.name] {
            if !held.iter().any(|(at, _)| *at == one) {
                held.push((one, one));
            }
        }
    }
    let mut scratch = "?";
    for step in ordered(moves) {
        match step {
            Step::Move { to, from } => {
                let one = reads(&held, from.name);
                writes(&mut held, to.name, one);
            }
            Step::Save(from) => scratch = reads(&held, from.name),
            Step::Restore(to) => writes(&mut held, to.name, scratch),
        }
    }
    held
}

fn reads(held: &[(&'static str, &'static str)], name: &str) -> &'static str {
    held.iter().find(|(at, _)| *at == name).map(|(_, one)| *one).unwrap_or("?")
}

fn writes(held: &mut [(&'static str, &'static str)], name: &str, one: &'static str) {
    for entry in held.iter_mut() {
        if entry.0 == name {
            entry.1 = one;
        }
    }
}

fn holds(moves: &[(Reg, Reg)]) {
    let out = settled(moves);
    for (to, from) in moves {
        let got = out.iter().find(|(at, _)| *at == to.name).map(|(_, one)| *one);
        assert_eq!(
            got,
            Some(from.name),
            "{} should hold what {} held: {:?}",
            to.name,
            from.name,
            out
        );
    }
}

#[test]
fn a_move_to_itself_is_no_move_at_all() {
    assert!(ordered(&[(ireg("rax"), ireg("rax"))]).is_empty());
}

#[test]
fn moves_that_do_not_touch_each_other_all_happen() {
    holds(&[(ireg("rax"), ireg("rdi")), (ireg("rbx"), ireg("rsi"))]);
}

#[test]
fn a_chain_is_made_from_the_end_that_is_not_wanted() {
    holds(&[(ireg("rax"), ireg("rbx")), (ireg("rbx"), ireg("rcx"))]);
}

#[test]
fn two_registers_can_be_swapped() {
    holds(&[(ireg("rcx"), ireg("rsi")), (ireg("rsi"), ireg("rcx"))]);
}

#[test]
fn a_ring_of_three_comes_out_rotated() {
    holds(&[
        (ireg("rax"), ireg("rbx")),
        (ireg("rbx"), ireg("rcx")),
        (ireg("rcx"), ireg("rax")),
    ]);
}

#[test]
fn a_chain_and_a_ring_at_once_both_come_out_right() {
    holds(&[
        (ireg("rax"), ireg("rdi")),
        (ireg("rcx"), ireg("rsi")),
        (ireg("rsi"), ireg("rcx")),
        (ireg("rdi"), ireg("r8")),
        (ireg("r8"), ireg("r9")),
    ]);
}

#[test]
fn two_separate_rings_do_not_borrow_each_others_scratch() {
    holds(&[
        (ireg("rax"), ireg("rbx")),
        (ireg("rbx"), ireg("rax")),
        (ireg("rcx"), ireg("rdx")),
        (ireg("rdx"), ireg("rcx")),
    ]);
}

#[test]
fn nothing_is_put_aside_where_no_cycle_needs_it() {
    let held = ordered(&[(ireg("rax"), ireg("rdi")), (ireg("rdi"), ireg("r8"))]);
    assert!(!held.iter().any(|step| matches!(step, Step::Save(_))), "{:?}", held);
}

// Each move that changes something is one move or one restore; each ring
// broken is one save and one restore.
#[test]
fn each_ring_costs_one_save_and_one_restore() {
    let held = ordered(&[
        (ireg("rax"), ireg("rbx")),
        (ireg("rbx"), ireg("rcx")),
        (ireg("rcx"), ireg("rax")),
        (ireg("rdx"), ireg("rsi")),
        (ireg("rsi"), ireg("rdx")),
        (ireg("r8"), ireg("r8")),
        (ireg("r9"), ireg("rdi")),
    ]);
    let saves = held.iter().filter(|step| matches!(step, Step::Save(_))).count();
    let restores = held.iter().filter(|step| matches!(step, Step::Restore(_))).count();
    let moves = held.iter().filter(|step| matches!(step, Step::Move { .. })).count();
    assert_eq!(saves, 2, "{:?}", held);
    assert_eq!(restores, 2, "{:?}", held);
    assert_eq!(moves + restores, 6, "{:?}", held);
}

// The exact order, which is the one thing the result-based tests leave open.
#[test]
fn a_swap_puts_aside_the_first_destination_and_reads_it_back_last() {
    let held = ordered(&[(ireg("rcx"), ireg("rsi")), (ireg("rsi"), ireg("rcx"))]);
    assert_eq!(
        held,
        vec![
            Step::Save(ireg("rcx")),
            Step::Move { to: ireg("rcx"), from: ireg("rsi") },
            Step::Restore(ireg("rsi")),
        ]
    );
}

// The same name in the other file is another register, and no move at all.
#[test]
fn a_move_between_the_two_files_is_a_move() {
    let f = Reg { name: "x", class: Class::Float };
    let i = Reg { name: "x", class: Class::Int };
    assert_eq!(ordered(&[(f, i)]), vec![Step::Move { to: f, from: i }]);
}

// ---- Where the arguments go ------------------------------------------------

#[test]
fn the_two_files_are_counted_separately() {
    let m = x86_64();
    let held = passing(&m, &[Class::Int, Class::Float, Class::Int]);
    assert_eq!(held[0], Some(m.args[0]));
    assert_eq!(held[1], Some(m.fargs[0]));
    assert_eq!(held[2], Some(m.args[1]), "the float did not use up an integer one");
}

#[test]
fn a_class_that_runs_out_of_registers_says_so() {
    let m = x86_64();
    let many = vec![Class::Int; m.args.len() + 1];
    let held = passing(&m, &many);
    assert!(held.last().expect("one").is_none());
    assert!(held[..many.len() - 1].iter().all(|one| one.is_some()));
}

#[test]
fn every_machine_passes_its_first_argument_in_its_first_register() {
    for m in [x86_64(), aarch64(), riscv64()] {
        let held = passing(&m, &[Class::Int]);
        assert_eq!(held[0], Some(m.args[0]), "{}", m.name);
    }
}

// ---- The segment a global lives in ------------------------------------------

fn one(symbol: &str, bytes: Vec<u8>, align: usize) -> MIRGlobal {
    MIRGlobal { symbol: symbol.to_string(), bytes, align }
}

// `.data` and not `.rodata`, which is the whole reason this is not the pool: a
// global may be assigned to, and a store into `.rodata` faults.
#[test]
fn a_global_goes_in_a_segment_that_may_be_written_to() {
    let out = data(&[one("__G1t1g", vec![7, 0, 0, 0, 0, 0, 0, 0], 8)], false);
    assert!(out.contains(".section\t.data"), "{}", out);
    assert!(!out.contains(".rodata"), "{}", out);
    assert!(out.contains("__G1t1g:"), "{}", out);
    assert!(out.contains(".byte\t7, 0, 0, 0, 0, 0, 0, 0"), "{}", out);
    assert!(out.contains(".size\t__G1t1g, .-__G1t1g"), "{}", out);
}

// x86-64's `.align` counts bytes and the other two count the power of two.
#[test]
fn the_alignment_is_said_the_way_the_machine_says_it() {
    let held = [one("__G1t1g", vec![0; 8], 8)];
    assert!(data(&held, false).contains(".align\t8"), "{}", data(&held, false));
    assert!(data(&held, true).contains(".align\t3"), "{}", data(&held, true));
}

// Nothing at all where there are no globals.
#[test]
fn no_globals_is_no_segment() {
    assert_eq!(data(&[], false), "");
}

// ---- The pool ---------------------------------------------------------------

fn constant(symbol: &str, held: MIRConstBody) -> MIRConstant {
    MIRConstant { symbol: symbol.to_string(), held }
}

#[test]
fn a_pool_entry_is_its_label_and_a_byte_apiece() {
    let held = constant("__S0", MIRConstBody::Bytes(b"hi".to_vec()));
    assert_eq!(bytes_of(&held), "__S0:\n\t.byte\t104, 105\n");
}

#[test]
fn seventeen_bytes_take_two_lines() {
    let held = constant("__S1", MIRConstBody::Bytes((0u8..17).collect()));
    assert_eq!(
        bytes_of(&held),
        "__S1:\n\t.byte\t0, 1, 2, 3, 4, 5, 6, 7, 8, 9, 10, 11, 12, 13, 14, 15\n\t.byte\t16\n"
    );
}

#[test]
fn an_empty_entry_still_names_a_byte() {
    let held = constant("__S2", MIRConstBody::Bytes(Vec::new()));
    assert_eq!(bytes_of(&held), "__S2:\n\t.zero\t1\n");
}

#[test]
fn a_table_is_an_address_per_name_each_escaped() {
    let held = constant(
        "__V1t",
        MIRConstBody::Words(vec!["__F1f".to_string(), "a&b".to_string()]),
    );
    assert_eq!(bytes_of(&held), "__V1t:\n\t.quad\t__F1f\n\t.quad\ta.26b\n");
}

#[test]
fn each_machine_aligns_its_pool_its_own_way() {
    let held = [constant("__S0", MIRConstBody::Bytes(vec![1]))];
    let body = "\t.type\t__S0, @object\n__S0:\n\t.byte\t1\n\t.size\t__S0, .-__S0\n";
    assert_eq!(fortec_mir::emit::x86_64::pool(&held), format!("\t.section\t.rodata\n\t.align\t8\n{}", body));
    assert_eq!(fortec_mir::emit::aarch64::pool(&held), format!("\t.section\t.rodata\n\t.align\t3\n{}", body));
    assert_eq!(fortec_mir::emit::riscv64::pool(&held), format!("\t.section\t.rodata\n\t.align\t3\n{}", body));
}

#[test]
fn a_global_is_aligned_typed_labelled_and_sized() {
    let out = data(&[one("g", vec![1, 2], 16)], true);
    assert_eq!(
        out,
        "\t.section\t.data\n\t.align\t4\n\t.type\tg, @object\ng:\n\t.byte\t1, 2\n\t.size\tg, .-g\n"
    );
}

// ---- A label is a name in the whole file -----------------------------------

// fn f(a: i32): i32 { if a > 0 { 1 } else { 2 } }, and one more like it.
fn either(f: &mut Fixture) -> usize {
    let a = f.param();
    let (entry, then, els) = (f.block(), f.block(), f.block());
    let zero = f.integer(entry, 0);
    let c = f.less(entry, zero, a);
    f.term(entry, MIRTerm::Branch { cond: c, then, els });
    let one = f.integer(then, 1);
    f.term(then, MIRTerm::Return(Some(one)));
    let two = f.integer(els, 2);
    f.term(els, MIRTerm::Return(Some(two)));
    entry
}

// Both bodies of a two-body program, written out for a machine.
fn framed(m: &Machine) -> (String, Vec<String>) {
    let mut text = String::new();
    let mut said = Vec::new();
    for index in 0..2 {
        let mut f = Fixture::new();
        let entry = either(&mut f);
        let mut held = linearise(&f.body(entry));
        let at = allocate(&mut held, m);
        let b = Body::new(&held, &at, m, index);
        let (one, complaints) = if m.name == "aarch64" {
            fortec_mir::emit::aarch64::body(&b)
        } else {
            fortec_mir::emit::riscv64::body(&b)
        };
        text.push_str(&one);
        said.extend(complaints);
    }
    (text, said)
}

// Every body has a block one, and in one file they cannot all be `.L1`.
#[test]
fn two_bodies_do_not_share_a_label() {
    for m in [aarch64(), riscv64()] {
        let (text, _) = framed(&m);
        let mut labels: Vec<&str> = text
            .lines()
            .filter(|line| line.starts_with(".L") && line.ends_with(':'))
            .collect();
        let all = labels.len();
        labels.sort_unstable();
        labels.dedup();
        assert_eq!(labels.len(), all, "{}: a label is written twice", m.name);
        assert!(all > 2, "{}: this wants several", m.name);
    }
}

// A body with no vectors in it has nothing to say.
#[test]
fn an_ordinary_body_is_not_refused() {
    for m in [aarch64(), riscv64()] {
        let (_, said) = framed(&m);
        assert!(said.is_empty(), "{}: {:?}", m.name, said);
    }
}

// ---- The whole program -------------------------------------------------------

// fn f(a) { a }, with a string in the pool.
fn echoing() -> fortec_mir::mir_nodes::MIRProgram {
    let mut f = Fixture::new();
    let a = f.param();
    let entry = f.block();
    f.term(entry, MIRTerm::Return(Some(a)));
    let mut p = f.program(entry);
    p.pool.push(MIRConstant { symbol: "__S0".to_string(), held: MIRConstBody::Bytes(b"hi".to_vec()) });
    p
}

// Every body, then the note that asks for no executable stack, then the pool,
// each machine in its own file.
#[test]
fn a_program_is_its_bodies_the_stack_note_and_the_pool() {
    let note = "\t.section\t.note.GNU-stack, \"\", @progbits\n";
    for (m, align, ret) in [(x86_64(), "\t.align\t8\n", "leave"), (aarch64(), "\t.align\t3\n", "ldp"), (riscv64(), "\t.align\t3\n", "ld\t")] {
        let (text, said) = render(&echoing(), &m);
        assert!(said.is_empty(), "{:?}", said);
        let at_note = text.find(note).expect("the stack note");
        let at_body = text.find("__F1t:").expect("the body");
        let at_pool = text.find("__S0:").expect("the pool");
        assert!(at_body < at_note && at_note < at_pool, "{}", text);
        assert!(text[..at_note].contains(ret), "{}", text);
        assert!(text[at_note..].contains(align), "{}", text);
    }
}

// The x86-64 body of a program is the one its own file writes.
#[test]
fn a_program_on_x86_64_is_the_x86_64_body() {
    let (text, _) = render(&echoing(), &x86_64());
    let want = "\t.text\n\t.globl\t__F1t\n\t.type\t__F1t, @function\n__F1t:\n\
                \tpushq\t%rbp\n\tmovq\t%rsp, %rbp\n\tmovq\t%rdi, %rax\n.LB0_0:\n\
                \tleave\n\tret\n\t.size\t__F1t, .-__F1t\n\
                \t.section\t.note.GNU-stack, \"\", @progbits\n\t.section\t.rodata\n";
    assert!(text.starts_with(want), "{}", text);
}
