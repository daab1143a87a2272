use vstd::prelude::*;

verus! {

/// How the operand of a call names its target.
#[derive(Clone, Copy, Debug, PartialEq, Eq, Structural)]
pub enum AddressingMode {
    /// The operand is the target's address.
    Absolute,
    /// The operand is the distance from the call to its target.
    Relative,
    /// Not decided; no edge can be followed under it.
    Unknown,
}

} // verus!
