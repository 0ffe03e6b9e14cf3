//! An object memory and bytecode interpreter for Smalltalk-80 images.
pub mod std_ptrs;
pub mod om;
pub mod gc;
pub mod allocation;
pub mod context;
pub mod mcache;
pub mod primitive_ops;
pub mod interp;
pub mod array_store_prim;
pub mod control_prim;
pub mod io_prim;
pub mod process_prim;
pub mod int_prim;
pub mod sys_prim;
pub mod prim_table;
pub mod send;
pub mod bytecodes;
pub mod snapshot;
pub mod laws;
