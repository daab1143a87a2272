use vstd::prelude::*;
use crate::endiannes::Endiannes;

verus! {

/// What the user states about a binary, as it comes from the command
/// line, before anything is derived from it.
#[derive(Debug)]
pub struct Parameters {
    pub file_path: String,
    /// Width of one instruction in bits.
    pub instr_len: u64,
    /// Number of leading bits of an instruction that hold a call's opcode.
    pub call_opcode_len: Option<u64>,
    pub endiannes: Endiannes,
    /// First and last bit of the return opcode, where stated by hand.
    pub ret_opcode_index: Option<Vec<u64>>,
    /// First and last bit of the call opcode, where stated by hand.
    pub call_opcode_index: Option<Vec<u64>>,
    /// First and last bit of the call operand, where stated by hand.
    pub call_operand_index: Option<Vec<u64>>,
    /// Start and end of the code in the file, in bytes.
    pub file_offset: Option<Vec<usize>>,
    /// Address of the first instruction in memory.
    pub pc_offset: u64,
    /// Distance in address units between two consecutive instructions.
    pub pc_inc: Option<u64>,
    /// Number of bits by which a call operand is shifted left.
    pub left_shift_call_operand: u64,
    /// Number of ranked candidates to return.
    pub nr_cand: usize,
    /// Ranks of the call candidates to try: how many to skip, how many to take.
    pub call_search_range: Vec<usize>,
    /// Ranks of the return candidates to try: how many to skip, how many to take.
    pub ret_search_range: Vec<usize>,
    /// Number of instructions before a call target in which a return is looked for.
    pub ret_func_dist: usize,
    pub parallell: bool,
    pub include_instructions: bool,
    pub is_absolute_addressing: bool,
}

} // verus!
