// What a machine description has to be true of before anything allocates
// against it.

use fortec_mir::machine::{aarch64, riscv64, x86_64, Class, Machine, Reg, Target};

fn machines() -> Vec<Machine> {
    vec![x86_64(), aarch64(), riscv64()]
}

fn allocatable(m: &Machine) -> Vec<Reg> {
    m.ints.iter().chain(m.floats.iter()).copied().collect()
}

#[test]
fn every_allocatable_register_is_saved_or_clobbered_and_not_both() {
    for m in machines() {
        for reg in allocatable(&m) {
            let saved = m.saved.contains(&reg);
            let gone = m.clobbered.contains(&reg);
            assert!(saved || gone, "{}: {} is in neither list", m.name, reg.name);
            assert!(!(saved && gone), "{}: {} is in both lists", m.name, reg.name);
        }
    }
}

#[test]
fn nothing_is_named_twice_in_a_file() {
    for m in machines() {
        let held = allocatable(&m);
        for (at, reg) in held.iter().enumerate() {
            assert!(
                !held[at + 1..].contains(reg),
                "{}: {} is in a file twice",
                m.name,
                reg.name
            );
        }
    }
}

#[test]
fn a_file_holds_only_its_own_class() {
    for m in machines() {
        for reg in &m.ints {
            assert_eq!(reg.class, Class::Int, "{}: {} is not an integer", m.name, reg.name);
        }
        for reg in &m.floats {
            assert_eq!(reg.class, Class::Float, "{}: {} is not a float", m.name, reg.name);
        }
    }
}

#[test]
fn every_argument_and_answer_register_is_allocatable() {
    for m in machines() {
        let held = allocatable(&m);
        for reg in m.args.iter().chain(m.fargs.iter()) {
            assert!(held.contains(reg), "{}: {} is passed in and never handed out", m.name, reg.name);
        }
        assert!(held.contains(&m.ret), "{}: {} answers and is never handed out", m.name, m.ret.name);
        assert!(held.contains(&m.fret), "{}: {} answers and is never handed out", m.name, m.fret.name);
    }
}

#[test]
fn the_frame_register_is_never_handed_out() {
    for m in machines() {
        assert!(
            !allocatable(&m).contains(&m.frame),
            "{}: {} holds the frame and is allocatable",
            m.name,
            m.frame.name
        );
    }
}

#[test]
fn no_argument_register_survives_a_call() {
    for m in machines() {
        for reg in m.args.iter().chain(m.fargs.iter()) {
            assert!(!m.keeps(*reg), "{}: {} is passed in and kept", m.name, reg.name);
        }
    }
}

#[test]
fn a_class_is_allocated_and_passed_out_of_its_own_file() {
    for m in machines() {
        for class in [Class::Int, Class::Float] {
            for reg in m.file(class) {
                assert_eq!(reg.class, class, "{}: {} is in the wrong file", m.name, reg.name);
            }
            for reg in m.passing(class) {
                assert_eq!(reg.class, class, "{}: {} passes the wrong class", m.name, reg.name);
            }
            assert_eq!(m.answering(class).class, class, "{}: the wrong class answers", m.name);
        }
    }
}

#[test]
fn no_scratch_register_is_also_allocatable() {
    for m in machines() {
        for held in m.scratch.iter().chain(m.fscratch.iter()) {
            assert!(
                !allocatable(&m).contains(held),
                "{}: {} is both scratch and allocatable",
                m.name,
                held.name
            );
        }
    }
}

#[test]
fn there_are_two_scratch_registers_in_each_file() {
    for m in machines() {
        assert!(m.scratch.len() >= 2, "{}: {} integer", m.name, m.scratch.len());
        assert!(m.fscratch.len() >= 2, "{}: {} float", m.name, m.fscratch.len());
    }
}

#[test]
fn no_scratch_register_is_one_a_call_keeps() {
    for m in machines() {
        for held in m.scratch.iter().chain(m.fscratch.iter()) {
            assert!(!m.keeps(*held), "{}: {} is callee-saved", m.name, held.name);
        }
    }
}

#[test]
fn neither_the_stack_pointer_nor_the_frame_pointer_is_allocatable() {
    for m in machines() {
        assert!(!allocatable(&m).contains(&m.sp), "{}: {}", m.name, m.sp.name);
        assert!(!allocatable(&m).contains(&m.frame), "{}: {}", m.name, m.frame.name);
        assert_ne!(m.sp, m.frame, "{}", m.name);
    }
}

#[test]
fn riscv_says_it_has_no_vectors() {
    assert_eq!(riscv64().vectors.bytes, 0);
}

#[test]
fn riscv_answers_where_its_first_argument_arrived() {
    assert_eq!(riscv64().ret, riscv64().args[0]);
    assert_eq!(riscv64().fret, riscv64().fargs[0]);
}

// ---- Which machine a target names ------------------------------------------

fn wide() -> Target {
    Target { name: "x86-64-v4", bytes: 64 }
}

#[test]
fn the_x86_variants_are_one_machine_with_different_vectors() {
    let wide_one = Machine::of(wide(), x86_64());
    let narrow = Machine::of(x86_64().vectors, x86_64());
    assert_eq!(wide_one.ints, narrow.ints, "the same registers");
    assert_eq!(wide_one.name, narrow.name, "the same machine");
    assert_ne!(wide_one.vectors.bytes, narrow.vectors.bytes, "different vectors");
    assert_eq!(wide_one.vectors.bytes, 64, "the target it was asked for");
}

#[test]
fn aarch64_is_its_own_machine() {
    let m = Machine::of(aarch64().vectors, x86_64());
    assert_eq!(m.name, "aarch64");
    assert_eq!(m.ret.name, "x0");
}

#[test]
fn a_target_with_no_vectors_falls_back_to_the_host() {
    let host = aarch64();
    let m = Machine::of(Target { name: "none", bytes: 0 }, host.clone());
    assert_eq!(m.name, host.name);
    assert_eq!(m.vectors.bytes, 0, "and still widens nothing");
}

#[test]
fn every_target_name_reaches_a_machine_of_its_own() {
    let host = x86_64();
    assert_eq!(Machine::of(riscv64().vectors, host.clone()).name, "riscv64");
    assert_eq!(Machine::of(aarch64().vectors, host.clone()).name, "aarch64");
    assert_eq!(Machine::of(x86_64().vectors, host.clone()).name, "x86-64");
    assert_eq!(Machine::of(wide(), host.clone()).name, "x86-64");
    assert_eq!(Machine::of(wide(), host).vectors.bytes, 64);
}

// Every rule at once, through the test the library states them with.
#[test]
fn every_machine_holds_to_every_rule() {
    for m in machines() {
        assert!(m.check(), "{} breaks a rule", m.name);
    }
}
