use vstd::prelude::*;

verus! {

/// Byte order under which a chunk of bytes is read as one instruction word.
#[derive(Clone, Copy, Debug, PartialEq, Eq, Structural)]
pub enum Endiannes {
    Little,
    Big,
    Unknown,
}

} // verus!
