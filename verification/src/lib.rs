//! The machine end of the compiler: what a type takes, what the runtime is
//! called, how a body's frame is laid out, and the parts of emitting that are
//! the same for every machine.

pub mod emit;
pub mod fixture;
pub mod layout;
pub mod linear;
pub mod machine;
pub mod mir_nodes;
pub mod regalloc;
pub mod runtime;
pub mod shape;
pub mod spell;
pub mod text;
pub mod ttir;
pub mod verify;
