use vstd::prelude::*;
use crate::config::Config;
use crate::endiannes::Endiannes;

verus! {

/// Number of bits in a byte.
pub const BYTE_SIZE: u64 = 8;

/// The instruction widths, in bits, that the decoder reads.
pub open spec fn supported_width(instr_len: u64) -> bool {
    instr_len == 8 || instr_len == 16 || instr_len == 32 || instr_len == 64
}

/// Number of bytes that one instruction of `instr_len` bits takes.
pub open spec fn instr_byte_len(instr_len: u64) -> int {
    instr_len as int / 8
}

/// The number that `bytes` spell with the least significant byte first.
pub open spec fn le_value(bytes: Seq<u8>) -> nat
    decreases bytes.len(),
{
    if bytes.len() == 0 {
        0
    } else {
        bytes[0] as nat + 256 * le_value(bytes.drop_first())
    }
}

/// The number that `bytes` spell with the most significant byte first.
pub open spec fn be_value(bytes: Seq<u8>) -> nat
    decreases bytes.len(),
{
    if bytes.len() == 0 {
        0
    } else {
        256 * be_value(bytes.drop_last()) + bytes.last() as nat
    }
}

/// The number that `bytes` spell under `endiannes`. `Unknown` is never
/// decoded; it reads as little endian here.
pub open spec fn word_value(bytes: Seq<u8>, endiannes: Endiannes) -> nat {
    if endiannes == Endiannes::Big {
        be_value(bytes)
    } else {
        le_value(bytes)
    }
}

/// Number of complete instructions of `instr_len` bits in `len` bytes.
pub open spec fn instr_count(len: nat, instr_len: u64) -> nat {
    (len as int / instr_byte_len(instr_len)) as nat
}

/// The bytes of the instruction at `index`.
pub open spec fn chunk(binary: Seq<u8>, instr_len: u64, index: int) -> Seq<u8> {
    binary.subrange(index * instr_byte_len(instr_len), (index + 1) * instr_byte_len(instr_len))
}

/// The instruction at `index`: its chunk read under `endiannes`.
pub open spec fn instr_at(binary: Seq<u8>, endiannes: Endiannes, instr_len: u64, index: int) -> u64 {
    word_value(chunk(binary, instr_len, index), endiannes) as u64
}

/// The instruction stream of `binary`: one word for each complete chunk of
/// `instr_len / 8` bytes, in order. Bytes after the last complete chunk
/// belong to no instruction.
pub open spec fn decode(binary: Seq<u8>, endiannes: Endiannes, instr_len: u64) -> Seq<u64> {
    Seq::new(
        instr_count(binary.len(), instr_len),
        |index: int| instr_at(binary, endiannes, instr_len, index),
    )
}

/// Reads 8 bytes as one word, most significant byte first.
pub fn from_be_bytes_64(data: &[u8]) -> (value: u64)
    requires
        data@.len() == 8,
    ensures
        value == be_value(data@),
{
    proof {
        reveal_with_fuel(be_value, 9);
    }
    (data[0] as u64) * 0x100_0000_0000_0000 + (data[1] as u64) * 0x1_0000_0000_0000 + (
    data[2] as u64) * 0x100_0000_0000 + (data[3] as u64) * 0x1_0000_0000 + (data[4] as u64)
        * 0x100_0000 + (data[5] as u64) * 0x1_0000 + (data[6] as u64) * 0x100 + (data[7] as u64)
}

/// Reads 4 bytes as one word, most significant byte first.
pub fn from_be_bytes_32(data: &[u8]) -> (value: u64)
    requires
        data@.len() == 4,
    ensures
        value == be_value(data@),
{
    proof {
        reveal_with_fuel(be_value, 5);
    }
    (data[0] as u64) * 0x100_0000 + (data[1] as u64) * 0x1_0000 + (data[2] as u64) * 0x100 + (
    data[3] as u64)
}

/// Reads 2 bytes as one word, most significant byte first.
pub fn from_be_bytes_16(data: &[u8]) -> (value: u64)
    requires
        data@.len() == 2,
    ensures
        value == be_value(data@),
{
    proof {
        reveal_with_fuel(be_value, 3);
    }
    (data[0] as u64) * 0x100 + (data[1] as u64)
}

/// Reads 1 byte as one word.
pub fn from_be_bytes_8(data: &[u8]) -> (value: u64)
    requires
        data@.len() == 1,
    ensures
        value == be_value(data@),
{
    proof {
        reveal_with_fuel(be_value, 2);
    }
    data[0] as u64
}

/// Reads 8 bytes as one word, least significant byte first.
pub fn from_le_bytes_64(data: &[u8]) -> (value: u64)
    requires
        data@.len() == 8,
    ensures
        value == le_value(data@),
{
    proof {
        reveal_with_fuel(le_value, 9);
    }
    (data[0] as u64) + (data[1] as u64) * 0x100 + (data[2] as u64) * 0x1_0000 + (data[3] as u64)
        * 0x100_0000 + (data[4] as u64) * 0x1_0000_0000 + (data[5] as u64) * 0x100_0000_0000 + (
    data[6] as u64) * 0x1_0000_0000_0000 + (data[7] as u64) * 0x100_0000_0000_0000
}

/// Reads 4 bytes as one word, least significant byte first.
pub fn from_le_bytes_32(data: &[u8]) -> (value: u64)
    requires
        data@.len() == 4,
    ensures
        value == le_value(data@),
{
    proof {
        reveal_with_fuel(le_value, 5);
    }
    (data[0] as u64) + (data[1] as u64) * 0x100 + (data[2] as u64) * 0x1_0000 + (data[3] as u64)
        * 0x100_0000
}

/// Reads 2 bytes as one word, least significant byte first.
pub fn from_le_bytes_16(data: &[u8]) -> (value: u64)
    requires
        data@.len() == 2,
    ensures
        value == le_value(data@),
{
    proof {
        reveal_with_fuel(le_value, 3);
    }
    (data[0] as u64) + (data[1] as u64) * 0x100
}

/// Reads 1 byte as one word.
pub fn from_le_bytes_8(data: &[u8]) -> (value: u64)
    requires
        data@.len() == 1,
    ensures
        value == le_value(data@),
{
    proof {
        reveal_with_fuel(le_value, 2);
    }
    data[0] as u64
}

/// Reads one chunk of `instr_len / 8` bytes as a word under `endiannes`.
pub fn word_from_bytes(data: &[u8], endiannes: &Endiannes, instr_len: u64) -> (value: u64)
    requires
        supported_width(instr_len),
        *endiannes != Endiannes::Unknown,
        data@.len() == instr_byte_len(instr_len),
    ensures
        value == word_value(data@, *endiannes),
{
    match endiannes {
        Endiannes::Big => {
            if instr_len == 8 {
                from_be_bytes_8(data)
            } else if instr_len == 16 {
                from_be_bytes_16(data)
            } else if instr_len == 32 {
                from_be_bytes_32(data)
            } else {
                from_be_bytes_64(data)
            }
        },
        _ => {
            if instr_len == 8 {
                from_le_bytes_8(data)
            } else if instr_len == 16 {
                from_le_bytes_16(data)
            } else if instr_len == 32 {
                from_le_bytes_32(data)
            } else {
                from_le_bytes_64(data)
            }
        },
    }
}

/// A chunk below the instruction count lies inside the bytes.
pub proof fn lemma_chunk_in_bounds(len: int, width: int, index: int)
    by (nonlinear_arith)
    requires
        0 < width,
        0 <= index < len / width,
    ensures
        0 <= index * width,
        index * width + width == (index + 1) * width,
        (index + 1) * width <= len,
{
}

/// Decoding the bytes of the instructions `lo..hi` gives that part of the
/// instruction stream.
pub proof fn lemma_decode_subrange(
    binary: Seq<u8>,
    endiannes: Endiannes,
    instr_len: u64,
    lo: int,
    hi: int,
)
    requires
        supported_width(instr_len),
        0 <= lo <= hi <= instr_count(binary.len(), instr_len),
    ensures
        0 <= lo * instr_byte_len(instr_len) <= hi * instr_byte_len(instr_len) <= binary.len(),
        decode(
            binary.subrange(lo * instr_byte_len(instr_len), hi * instr_byte_len(instr_len)),
            endiannes,
            instr_len,
        ) == decode(binary, endiannes, instr_len).subrange(lo, hi),
{
    let width = instr_byte_len(instr_len);
    assert(0 <= lo * width <= hi * width <= binary.len() && ((hi - lo) * width) / width == hi - lo
        && hi * width - lo * width == (hi - lo) * width) by (nonlinear_arith)
        requires
            0 < width,
            0 <= lo <= hi <= binary.len() as int / width,
    ;
    let part = binary.subrange(lo * width, hi * width);
    assert forall|index: int| 0 <= index < hi - lo implies chunk(part, instr_len, index) == chunk(
        binary,
        instr_len,
        lo + index,
    ) by {
        lemma_chunk_in_bounds((hi - lo) * width, width, index);
        assert((lo + index) * width == lo * width + index * width && (lo + index + 1) * width == lo
            * width + (index + 1) * width) by (nonlinear_arith);
        assert(chunk(part, instr_len, index) =~= chunk(binary, instr_len, lo + index));
    }
    assert(decode(part, endiannes, instr_len) =~= decode(binary, endiannes, instr_len).subrange(
        lo,
        hi,
    ));
}

/// Number of complete instructions in `binary`.
pub fn count_instructions(binary: &[u8], instr_len: u64) -> (count: usize)
    requires
        supported_width(instr_len),
    ensures
        count == instr_count(binary@.len(), instr_len),
{
    binary.len() / ((instr_len / BYTE_SIZE) as usize)
}

/// Decodes the instruction at `index` without materialising the stream.
pub fn instruction_at(binary: &[u8], endiannes: &Endiannes, instr_len: u64, index: usize) -> (value:
    u64)
    requires
        supported_width(instr_len),
        *endiannes != Endiannes::Unknown,
        index < instr_count(binary@.len(), instr_len),
    ensures
        value == instr_at(binary@, *endiannes, instr_len, index as int),
        value == decode(binary@, *endiannes, instr_len)[index as int],
{
    let width: usize = (instr_len / BYTE_SIZE) as usize;
    let len: usize = binary.len();
    proof {
        lemma_chunk_in_bounds(len as int, width as int, index as int);
    }
    let start: usize = index * width;
    let data = vstd::slice::slice_subrange(binary, start, start + width);
    word_from_bytes(data, endiannes, instr_len)
}

/// Decodes `binary` into its instruction stream: one word for each complete
/// chunk of `instr_len / 8` bytes, read under `endiannes`. Trailing bytes
/// that fill no chunk are dropped.
pub fn iter_instructions(binary: &[u8], endiannes: &Endiannes, instr_len: u64) -> (instructions:
    Vec<u64>)
    requires
        supported_width(instr_len),
        *endiannes != Endiannes::Unknown,
    ensures
        instructions@ == decode(binary@, *endiannes, instr_len),
{
    let count: usize = count_instructions(binary, instr_len);
    let mut instructions: Vec<u64> = Vec::new();
    let mut index: usize = 0;
    while index < count
        invariant
            supported_width(instr_len),
            *endiannes != Endiannes::Unknown,
            count == instr_count(binary@.len(), instr_len),
            index <= count,
            instructions@ == decode(binary@, *endiannes, instr_len).take(index as int),
        decreases count - index,
    {
        let value: u64 = instruction_at(binary, endiannes, instr_len, index);
        instructions.push(value);
        index += 1;
    }
    instructions
}

/// Whether some instruction of `binary`, masked by `mask`, equals `target`.
/// Decodes, masks and compares in one pass and stops at the first match.
pub fn iter_instructions_and_search(
    binary: &[u8],
    endiannes: &Endiannes,
    instr_len: u64,
    mask: u64,
    target: u64,
) -> (found: bool)
    requires
        supported_width(instr_len),
        *endiannes != Endiannes::Unknown,
    ensures
        found == exists|index: int|
            0 <= index < decode(binary@, *endiannes, instr_len).len() && #[trigger] decode(
                binary@,
                *endiannes,
                instr_len,
            )[index] & mask == target,
{
    let count: usize = count_instructions(binary, instr_len);
    let mut index: usize = 0;
    while index < count
        invariant
            supported_width(instr_len),
            *endiannes != Endiannes::Unknown,
            count == instr_count(binary@.len(), instr_len),
            index <= count,
            forall|earlier: int|
                0 <= earlier < index ==> #[trigger] decode(binary@, *endiannes, instr_len)[earlier]
                    & mask != target,
        decreases count - index,
    {
        let value: u64 = instruction_at(binary, endiannes, instr_len, index);
        if value & mask == target {
            return true;
        }
        index += 1;
    }
    false
}

/// The byte orders to try for a declared one: both where it is unknown,
/// big endian first.
pub open spec fn endiannes_to_try(declared: Endiannes) -> Seq<Endiannes> {
    if declared == Endiannes::Unknown {
        seq![Endiannes::Big, Endiannes::Little]
    } else {
        seq![declared]
    }
}

/// End of the analysed region: the configured end, or the end of the
/// bytes where they stop before it.
pub open spec fn region_end(binary: Seq<u8>, config: Config) -> int {
    if config.file_offset[1] <= binary.len() {
        config.file_offset[1] as int
    } else {
        binary.len() as int
    }
}

/// Start of the hypothesis that the first instruction begins `alignment`
/// bytes into the region; never after the region's end.
pub open spec fn region_start(binary: Seq<u8>, config: Config, alignment: int) -> int {
    if config.file_offset[0] + alignment <= region_end(binary, config) {
        config.file_offset[0] + alignment
    } else {
        region_end(binary, config)
    }
}

/// The bytes that are decoded under the hypothesis that the first
/// instruction begins `alignment` bytes into the region.
pub open spec fn aligned_region(binary: Seq<u8>, config: Config, alignment: int) -> Seq<u8> {
    binary.subrange(region_start(binary, config, alignment), region_end(binary, config))
}

/// Enumerates the hypotheses under which `binary` is decoded: every
/// alignment `0 .. instr_len / 8` of the first instruction within the
/// configured region, each with every byte order to try. The hypotheses
/// of one alignment stand together, in the order of `endiannes_to_try`.
pub fn iter_potential_instruction_configuration<'a>(binary: &'a [u8], config: &Config) -> (hypotheses:
    Vec<(&'a [u8], Endiannes)>)
    requires
        supported_width(config.instr_len),
    ensures
        hypotheses@.len() == instr_byte_len(config.instr_len) * endiannes_to_try(
            config.endiannes,
        ).len(),
        forall|k: int|
            0 <= k < hypotheses@.len() ==> (#[trigger] hypotheses@[k]).1 != Endiannes::Unknown,
        forall|alignment: int, choice: int|
            0 <= alignment < instr_byte_len(config.instr_len) && 0 <= choice < endiannes_to_try(
                config.endiannes,
            ).len() ==> {
                let hypothesis = #[trigger] hypotheses@[alignment * endiannes_to_try(
                    config.endiannes,
                ).len() + choice];
                &&& hypothesis.0@ == aligned_region(binary@, *config, alignment)
                &&& hypothesis.1 == endiannes_to_try(config.endiannes)[choice]
            },
{
    let width: usize = (config.instr_len / BYTE_SIZE) as usize;
    let end: usize = if config.file_offset[1] <= binary.len() {
        config.file_offset[1]
    } else {
        binary.len()
    };
    let ghost orders = endiannes_to_try(config.endiannes);
    let mut hypotheses: Vec<(&'a [u8], Endiannes)> = Vec::new();
    let mut alignment: usize = 0;
    while alignment < width
        invariant
            supported_width(config.instr_len),
            width == instr_byte_len(config.instr_len),
            orders == endiannes_to_try(config.endiannes),
            end == region_end(binary@, *config),
            end <= binary@.len(),
            alignment <= width,
            hypotheses@.len() == alignment * orders.len(),
            forall|k: int|
                0 <= k < hypotheses@.len() ==> {
                    &&& (#[trigger] hypotheses@[k]).0@ == aligned_region(
                        binary@,
                        *config,
                        k / (orders.len() as int),
                    )
                    &&& hypotheses@[k].1 == orders[k % (orders.len() as int)]
                },
        decreases width - alignment,
    {
        let start: usize = if config.file_offset[0] >= end || alignment > end
            - config.file_offset[0] {
            end
        } else {
            config.file_offset[0] + alignment
        };
        let slice: &'a [u8] = vstd::slice::slice_subrange(binary, start, end);
        let ghost before = hypotheses@;
        proof {
            let per = orders.len() as int;
            assert(slice@ == aligned_region(binary@, *config, alignment as int));
            assert((alignment + 1) * per == alignment * per + per) by (nonlinear_arith);
            assert forall|choice: int| 0 <= choice < per implies (alignment * per + choice) / per
                == alignment && #[trigger] ((alignment * per + choice) % per) == choice by {
                assert((alignment * per + choice) / per == alignment && (alignment * per + choice)
                    % per == choice) by (nonlinear_arith)
                    requires
                        1 <= per <= 2,
                        0 <= choice < per,
                        0 <= alignment,
                ;
            }
            assert((alignment * per + 0) % per == 0);
            if per == 2 {
                assert((alignment * per + 1) % per == 1);
            }
        }
        match config.endiannes {
            Endiannes::Unknown => {
                hypotheses.push((slice, Endiannes::Big));
                hypotheses.push((slice, Endiannes::Little));
            },
            Endiannes::Big => {
                hypotheses.push((slice, Endiannes::Big));
            },
            Endiannes::Little => {
                hypotheses.push((slice, Endiannes::Little));
            },
        }
        proof {
            assert forall|k: int| 0 <= k < hypotheses@.len() implies {
                &&& (#[trigger] hypotheses@[k]).0@ == aligned_region(
                    binary@,
                    *config,
                    k / (orders.len() as int),
                )
                &&& hypotheses@[k].1 == orders[k % (orders.len() as int)]
            } by {
                if k < before.len() {
                    assert(hypotheses@[k] == before[k]);
                }
            }
        }
        alignment += 1;
    }
    proof {
        let per = orders.len() as int;
        assert forall|alignment: int, choice: int|
            0 <= alignment < instr_byte_len(config.instr_len) && 0 <= choice < per implies {
            let hypothesis = #[trigger] hypotheses@[alignment * per + choice];
            &&& hypothesis.0@ == aligned_region(binary@, *config, alignment)
            &&& hypothesis.1 == orders[choice]
        } by {
            let k = alignment * per + choice;
            assert(0 <= k < width * per && k / per == alignment && k % per == choice)
                by (nonlinear_arith)
                requires
                    1 <= per <= 2,
                    0 <= alignment < width,
                    0 <= choice < per,
                    k == alignment * per + choice,
            ;
        }
    }
    hypotheses
}

} // verus!
