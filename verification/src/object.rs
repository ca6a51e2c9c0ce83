//! The values that a program computes with.

use vstd::prelude::*;

verus! {

/// A value of the language, as the constant pool holds it.
#[derive(PartialEq, Eq, Structural, Clone, Copy, Debug)]
pub enum Object {
    Int(i64),
    Bool(bool),
    Null,
}

} // verus!
