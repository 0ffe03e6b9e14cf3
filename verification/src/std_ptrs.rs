//! Object pointers that the image guarantees, by their object-table index.
use vstd::prelude::*;

verus! {

pub type OOP = u32;

pub const MINUS_ONE_PTR: OOP = 0xFFFFFFFF;
pub const ZERO_PTR: OOP = 0x80000000;
pub const ONE_PTR: OOP = 0x80000001;
pub const TWO_PTR: OOP = 0x80000002;

pub const UNUSED_PTR: OOP = 0;
pub const NIL_PTR: OOP = 1;
pub const FALSE_PTR: OOP = 2;
pub const TRUE_PTR: OOP = 3;

pub const SCHED_ASS_PTR: OOP = 4;

pub const SPECIAL_SELECTORS: OOP = 24;
pub const CHAR_TABLE: OOP = 25;
/// The system dictionary (not defined in G&R).
pub const SMALLTALK: OOP = 9;
/// Root of the garbage collector's marking: the system dictionary.
pub const SYSTEM_DICTIONARY: OOP = 9;

/// Selector sent when a lookup fails.
pub const DOES_NOT_UNDERSTAND: OOP = 21;
/// Selector sent when a conditional jump finds a non-boolean.
pub const MUST_BE_BOOLEAN: OOP = 26;

/// Objects up to this index are never reference counted.
pub const LAST_REF_COUNTED_OOP: OOP = 26;

pub const CLASS_SMALL_INTEGER: OOP = 6;
pub const CLASS_STRING: OOP = 7;
pub const CLASS_ARRAY: OOP = 8;
pub const CLASS_FLOAT: OOP = 10;
pub const CLASS_METH_CTX: OOP = 11;
pub const CLASS_BLOCK_CTX: OOP = 12;
pub const CLASS_POINT: OOP = 13;
pub const CLASS_LG_POS_INT: OOP = 14;
pub const CLASS_DISPLAY_BITMAP: OOP = 15;
pub const CLASS_MSG: OOP = 16;
pub const CLASS_COMPILED_METHOD: OOP = 17;
pub const CLASS_SEMA: OOP = 19;
pub const CLASS_CHARACTER: OOP = 20;
/// Required for BitBlt.
pub const CLASS_FORM: OOP = 0x629;

/// Field of a ProcessorScheduler that holds the running process.
pub const ACTIVE_PROCESS: u8 = 1;
/// Field of a Process that holds its suspended context.
pub const SUSPENDED_CTX: u8 = 1;

/// The label under which a listing of the object table shows the class
/// `cls`: one for each class the image guarantees, "(unknown)" for any
/// other class up to `LAST_REF_COUNTED_OOP`, none beyond it.
pub open spec fn class_label_spec(cls: OOP) -> Option<&'static str> {
    if cls > LAST_REF_COUNTED_OOP {
        None
    } else if cls == CLASS_SMALL_INTEGER {
        Some("(smi)")
    } else if cls == CLASS_STRING {
        Some("(string)")
    } else if cls == CLASS_ARRAY {
        Some("(array)")
    } else if cls == CLASS_FLOAT {
        Some("(float)")
    } else if cls == CLASS_METH_CTX {
        Some("(meth_ctx)")
    } else if cls == CLASS_BLOCK_CTX {
        Some("(block_ctx)")
    } else if cls == CLASS_POINT {
        Some("(point)")
    } else if cls == CLASS_LG_POS_INT {
        Some("(lg_pos_int)")
    } else if cls == CLASS_DISPLAY_BITMAP {
        Some("(display_bitmap)")
    } else if cls == CLASS_MSG {
        Some("(message)")
    } else if cls == CLASS_COMPILED_METHOD {
        Some("(compiled_method)")
    } else if cls == CLASS_SEMA {
        Some("(sema)")
    } else if cls == CLASS_CHARACTER {
        Some("(character)")
    } else if cls == CLASS_FORM {
        Some("(form)")
    } else {
        Some("(unknown)")
    }
}

pub fn class_label(cls: OOP) -> (r: Option<&'static str>)
    ensures
        r == class_label_spec(cls),
{
    if cls > LAST_REF_COUNTED_OOP {
        None
    } else if cls == CLASS_SMALL_INTEGER {
        Some("(smi)")
    } else if cls == CLASS_STRING {
        Some("(string)")
    } else if cls == CLASS_ARRAY {
        Some("(array)")
    } else if cls == CLASS_FLOAT {
        Some("(float)")
    } else if cls == CLASS_METH_CTX {
        Some("(meth_ctx)")
    } else if cls == CLASS_BLOCK_CTX {
        Some("(block_ctx)")
    } else if cls == CLASS_POINT {
        Some("(point)")
    } else if cls == CLASS_LG_POS_INT {
        Some("(lg_pos_int)")
    } else if cls == CLASS_DISPLAY_BITMAP {
        Some("(display_bitmap)")
    } else if cls == CLASS_MSG {
        Some("(message)")
    } else if cls == CLASS_COMPILED_METHOD {
        Some("(compiled_method)")
    } else if cls == CLASS_SEMA {
        Some("(sema)")
    } else if cls == CLASS_CHARACTER {
        Some("(character)")
    } else if cls == CLASS_FORM {
        Some("(form)")
    } else {
        Some("(unknown)")
    }
}

} // verus!
