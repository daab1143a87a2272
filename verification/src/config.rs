use vstd::prelude::*;
use crate::addressing_mode::AddressingMode;
use crate::cli::Parameters;
use crate::endiannes::Endiannes;
use crate::iter_instructions::{supported_width, BYTE_SIZE};

verus! {

/// The word with its `bits` lowest bits set; all 64 when `bits` is 64 or more.
pub open spec fn low_bits(bits: u64) -> u64 {
    if bits >= 64 {
        u64::MAX
    } else {
        ((1u64 << bits) - 1) as u64
    }
}

/// What the analysis is told about the binary. It is built once and only
/// read afterwards.
#[derive(Clone, Copy, Debug)]
pub struct Config {
    /// Width of one instruction in bits.
    pub instr_len: u64,
    /// Bits of an instruction that hold the opcode of a call.
    pub call_opcode_mask: u64,
    /// Bits of an instruction that are compared with a return opcode.
    pub ret_opcode_mask: u64,
    /// Bits of a call instruction that hold its operand.
    pub call_operand_mask: u64,
    /// The operand bits below the sign bit.
    pub call_operand_signed_mask: u64,
    pub endiannes: Endiannes,
    /// The byte range of the file that is analysed: start and end.
    pub file_offset: [usize; 2],
    /// Address of the first instruction; only absolute addressing reads it.
    pub pc_offset: u64,
    /// Distance in address units between two consecutive instructions.
    pub pc_inc: u64,
    /// Number of bits by which a call operand is shifted left.
    pub left_shift_call_operand: u64,
    /// Number of ranked candidates to keep.
    pub nr_cand: usize,
    /// Ranks of the call candidates to try: how many to skip, how many to take.
    pub call_search_range: [usize; 2],
    /// Ranks of the return candidates to try: how many to skip, how many to take.
    pub ret_search_range: [usize; 2],
    /// Number of instructions before a call target in which a return is looked for.
    pub ret_func_dist: usize,
    pub parallell: bool,
    pub include_instructions: bool,
    pub addressing_mode: AddressingMode,
}

impl Config {
    /// The opcode and operand masks of a call split the instruction word:
    /// together they cover its `instr_len` bits and they share none; the
    /// return mask stays inside the word.
    pub open spec fn masks_consistent(&self) -> bool {
        &&& self.call_opcode_mask & self.call_operand_mask == 0
        &&& self.call_opcode_mask | self.call_operand_mask == low_bits(self.instr_len)
        &&& self.ret_opcode_mask & !low_bits(self.instr_len) == 0
    }

    /// What every analysis step asks of a configuration.
    pub open spec fn wf(&self) -> bool {
        &&& supported_width(self.instr_len)
        &&& self.masks_consistent()
        &&& self.pc_inc > 0
        &&& self.left_shift_call_operand < 64
        &&& self.addressing_mode != AddressingMode::Unknown
    }
}

/// Why no configuration can be made from some parameters.
#[derive(Clone, Copy, Debug, PartialEq, Eq, Structural)]
pub enum ConfigError {
    /// The length of the call opcode is not given. Masks stated bit by
    /// bit are not supported.
    MissingCallOpcodeLen,
    /// The instruction width is none of 8, 16, 32 and 64 bits.
    UnsupportedInstrLen,
    /// The call opcode leaves no bit of the instruction to the operand.
    OpcodeLenTooLong,
    /// The file range is not a start and an end inside the file.
    BadFileOffset,
    /// The distance between instructions is zero.
    ZeroPcInc,
    /// The operand shift is 64 bits or more.
    ShiftTooLarge,
    /// A search range is not two numbers.
    BadSearchRange,
}

/// Whether `file_offset` names a range inside a file of `file_len` bytes.
pub open spec fn file_offset_ok(file_offset: Option<Vec<usize>>, file_len: usize) -> bool {
    match file_offset {
        Some(range) => range@.len() == 2 && range@[0] <= range@[1] <= file_len,
        None => true,
    }
}

/// The first fault of the parameters, in the order in which they are
/// checked; `None` where a configuration can be made.
pub open spec fn parameter_fault(parameters: Parameters, file_len: usize) -> Option<ConfigError> {
    if parameters.call_opcode_len.is_none() {
        Some(ConfigError::MissingCallOpcodeLen)
    } else if !supported_width(parameters.instr_len) {
        Some(ConfigError::UnsupportedInstrLen)
    } else if parameters.call_opcode_len.unwrap() >= parameters.instr_len {
        Some(ConfigError::OpcodeLenTooLong)
    } else if !file_offset_ok(parameters.file_offset, file_len) {
        Some(ConfigError::BadFileOffset)
    } else if parameters.pc_inc == Some(0u64) {
        Some(ConfigError::ZeroPcInc)
    } else if parameters.left_shift_call_operand >= 64 {
        Some(ConfigError::ShiftTooLarge)
    } else if parameters.call_search_range@.len() != 2 || parameters.ret_search_range@.len() != 2 {
        Some(ConfigError::BadSearchRange)
    } else {
        None
    }
}

/// Whether `config` is what `parameters` ask for, for a file of `file_len`
/// bytes.
///
/// The call operand takes the low `instr_len - call_opcode_len` bits of
/// the word and the call opcode the bits above them; the sign of the
/// operand is its highest bit; a return is matched on the whole word. The
/// file range defaults to the whole file and the distance between
/// instructions to their width in bytes.
pub open spec fn derived_from(config: Config, parameters: Parameters, file_len: usize) -> bool {
    let operand_bits = (parameters.instr_len - parameters.call_opcode_len.unwrap()) as u64;
    &&& config.instr_len == parameters.instr_len
    &&& config.call_operand_mask == low_bits(operand_bits)
    &&& config.call_opcode_mask == low_bits(parameters.instr_len) ^ low_bits(operand_bits)
    &&& config.call_operand_signed_mask == low_bits((operand_bits - 1) as u64)
    &&& config.ret_opcode_mask == low_bits(parameters.instr_len)
    &&& config.endiannes == parameters.endiannes
    &&& config.file_offset@ == match parameters.file_offset {
        Some(range) => range@,
        None => seq![0usize, file_len],
    }
    &&& config.pc_offset == parameters.pc_offset
    &&& config.pc_inc == match parameters.pc_inc {
        Some(step) => step,
        None => parameters.instr_len / BYTE_SIZE,
    }
    &&& config.left_shift_call_operand == parameters.left_shift_call_operand
    &&& config.nr_cand == parameters.nr_cand
    &&& config.call_search_range@ == parameters.call_search_range@
    &&& config.ret_search_range@ == parameters.ret_search_range@
    &&& config.ret_func_dist == parameters.ret_func_dist
    &&& config.parallell == parameters.parallell
    &&& config.include_instructions == parameters.include_instructions
    &&& config.addressing_mode == if parameters.is_absolute_addressing {
        AddressingMode::Absolute
    } else {
        AddressingMode::Relative
    }
}

/// The word with its `bits` lowest bits set.
pub fn low_bits_mask(bits: u64) -> (mask: u64)
    ensures
        mask == low_bits(bits),
{
    if bits >= 64 {
        u64::MAX
    } else {
        assert((1u64 << bits) >= 1) by (bit_vector)
            requires
                bits < 64,
        ;
        (1u64 << bits) - 1
    }
}

/// A word of fewer bits lies inside a word of more bits, and what is left
/// of the wider word once the narrower is taken out shares no bit with it.
pub proof fn lemma_low_bits_split(narrow: u64, wide: u64)
    requires
        narrow <= wide,
    ensures
        (low_bits(wide) ^ low_bits(narrow)) & low_bits(narrow) == 0,
        (low_bits(wide) ^ low_bits(narrow)) | low_bits(narrow) == low_bits(wide),
        low_bits(wide) & !low_bits(wide) == 0,
{
    let n = low_bits(narrow);
    let w = low_bits(wide);
    assert(n & !w == 0) by {
        if wide >= 64 {
            assert(n & !u64::MAX == 0) by (bit_vector);
        } else {
            assert((((1u64 << narrow) - 1) as u64) & !(((1u64 << wide) - 1) as u64) == 0)
                by (bit_vector)
                requires
                    narrow <= wide < 64,
            ;
        }
    }
    assert((w ^ n) & n == 0 && (w ^ n) | n == w && w & !w == 0) by (bit_vector)
        requires
            n & !w == 0,
    ;
}

impl Config {
    /// Tests whether a configuration that was put together by hand is well
    /// formed, as the analysis steps ask.
    pub fn is_valid(&self) -> (valid: bool)
        ensures
            valid == self.wf(),
    {
        let width_ok: bool = self.instr_len == 8 || self.instr_len == 16 || self.instr_len == 32
            || self.instr_len == 64;
        let word_mask: u64 = low_bits_mask(self.instr_len);
        let masks_ok: bool = self.call_opcode_mask & self.call_operand_mask == 0 && (
        self.call_opcode_mask | self.call_operand_mask) == word_mask && self.ret_opcode_mask
            & !word_mask == 0;
        let mode_ok: bool = match self.addressing_mode {
            AddressingMode::Unknown => false,
            _ => true,
        };
        width_ok && masks_ok && self.pc_inc > 0 && self.left_shift_call_operand < 64 && mode_ok
    }

    /// Derives the configuration from the parameters and the length of the
    /// file, or names the first fault that stands in the way.
    pub fn get(parameters: &Parameters, file_len: usize) -> (result: Result<Config, ConfigError>)
        ensures
            match result {
                Ok(config) => parameter_fault(*parameters, file_len).is_none() && derived_from(
                    config,
                    *parameters,
                    file_len,
                ) && config.wf(),
                Err(fault) => parameter_fault(*parameters, file_len) == Some(fault),
            },
    {
        let call_opcode_len: u64 = match parameters.call_opcode_len {
            Some(len) => len,
            None => {
                return Err(ConfigError::MissingCallOpcodeLen);
            },
        };
        let instr_len: u64 = parameters.instr_len;
        if !(instr_len == 8 || instr_len == 16 || instr_len == 32 || instr_len == 64) {
            return Err(ConfigError::UnsupportedInstrLen);
        }
        if call_opcode_len >= instr_len {
            return Err(ConfigError::OpcodeLenTooLong);
        }
        let file_offset: [usize; 2] = match &parameters.file_offset {
            Some(range) => {
                if range.len() != 2 || range[0] > range[1] || range[1] > file_len {
                    return Err(ConfigError::BadFileOffset);
                }
                [range[0], range[1]]
            },
            None => [0, file_len],
        };
        let pc_inc: u64 = match parameters.pc_inc {
            Some(step) => {
                if step == 0 {
                    return Err(ConfigError::ZeroPcInc);
                }
                step
            },
            None => instr_len / BYTE_SIZE,
        };
        if parameters.left_shift_call_operand >= 64 {
            return Err(ConfigError::ShiftTooLarge);
        }
        if parameters.call_search_range.len() != 2 || parameters.ret_search_range.len() != 2 {
            return Err(ConfigError::BadSearchRange);
        }
        let operand_bits: u64 = instr_len - call_opcode_len;
        let word_mask: u64 = low_bits_mask(instr_len);
        let call_operand_mask: u64 = low_bits_mask(operand_bits);
        proof {
            lemma_low_bits_split(operand_bits, instr_len);
        }
        let config = Config {
            instr_len,
            call_opcode_mask: word_mask ^ call_operand_mask,
            ret_opcode_mask: word_mask,
            call_operand_mask,
            call_operand_signed_mask: low_bits_mask(operand_bits - 1),
            endiannes: parameters.endiannes,
            file_offset,
            pc_offset: parameters.pc_offset,
            pc_inc,
            left_shift_call_operand: parameters.left_shift_call_operand,
            nr_cand: parameters.nr_cand,
            call_search_range: [parameters.call_search_range[0], parameters.call_search_range[1]],
            ret_search_range: [parameters.ret_search_range[0], parameters.ret_search_range[1]],
            ret_func_dist: parameters.ret_func_dist,
            parallell: parameters.parallell,
            include_instructions: parameters.include_instructions,
            addressing_mode: if parameters.is_absolute_addressing {
                AddressingMode::Absolute
            } else {
                AddressingMode::Relative
            },
        };
        proof {
            assert(config.file_offset@ =~= match parameters.file_offset {
                Some(range) => range@,
                None => seq![0usize, file_len],
            });
            assert(config.call_search_range@ =~= parameters.call_search_range@);
            assert(config.ret_search_range@ =~= parameters.ret_search_range@);
        }
        Ok(config)
    }
}

} // verus!
