use vstd::prelude::*;
use crate::config::Config;
use crate::endiannes::Endiannes;
use crate::iter_instructions::{
    be_value, count_instructions, decode, endiannes_to_try, instr_byte_len, le_value,
    lemma_chunk_in_bounds, supported_width, word_value, BYTE_SIZE,
};

verus! {

/// An unsigned integer type that a chunk of bytes is read into: one type
/// for each instruction width.
pub trait FromBytes {
    /// The type of the words that are read.
    type Output;

    /// Number of bytes of one word.
    spec fn byte_len() -> nat;

    /// The number that a word holds.
    spec fn value(word: Self::Output) -> nat;

    /// Reads a word whose most significant byte comes first.
    fn from_be_bytes_mine(data: &[u8]) -> (word: Self::Output)
        requires
            data@.len() == Self::byte_len(),
        ensures
            Self::value(word) == be_value(data@),
    ;

    /// Reads a word whose least significant byte comes first.
    fn from_le_bytes_mine(data: &[u8]) -> (word: Self::Output)
        requires
            data@.len() == Self::byte_len(),
        ensures
            Self::value(word) == le_value(data@),
    ;

    /// Reads a word under `endiannes`; every order but big endian reads
    /// as little endian.
    fn from_bytes(data: &[u8], endiannes: &Endiannes) -> (word: Self::Output)
        requires
            data@.len() == Self::byte_len(),
        ensures
            Self::value(word) == word_value(data@, *endiannes),
    ;
}

impl FromBytes for u8 {
    type Output = u8;

    open spec fn byte_len() -> nat {
        1
    }

    open spec fn value(word: u8) -> nat {
        word as nat
    }

    fn from_bytes(data: &[u8], endiannes: &Endiannes) -> (word: u8) {
        if let Endiannes::Big = endiannes {
            Self::from_be_bytes_mine(data)
        } else {
            Self::from_le_bytes_mine(data)
        }
    }

    fn from_be_bytes_mine(data: &[u8]) -> (word: u8) {
        proof {
            reveal_with_fuel(be_value, 2);
        }
        data[0]
    }

    fn from_le_bytes_mine(data: &[u8]) -> (word: u8) {
        proof {
            reveal_with_fuel(le_value, 2);
        }
        data[0]
    }
}

impl FromBytes for u16 {
    type Output = u16;

    open spec fn byte_len() -> nat {
        2
    }

    open spec fn value(word: u16) -> nat {
        word as nat
    }

    fn from_bytes(data: &[u8], endiannes: &Endiannes) -> (word: u16) {
        if let Endiannes::Big = endiannes {
            Self::from_be_bytes_mine(data)
        } else {
            Self::from_le_bytes_mine(data)
        }
    }

    fn from_be_bytes_mine(data: &[u8]) -> (word: u16) {
        proof {
            reveal_with_fuel(be_value, 3);
        }
        (data[0] as u16) * 0x100 + (data[1] as u16)
    }

    fn from_le_bytes_mine(data: &[u8]) -> (word: u16) {
        proof {
            reveal_with_fuel(le_value, 3);
        }
        (data[0] as u16) + (data[1] as u16) * 0x100
    }
}

impl FromBytes for u32 {
    type Output = u32;

    open spec fn byte_len() -> nat {
        4
    }

    open spec fn value(word: u32) -> nat {
        word as nat
    }

    fn from_bytes(data: &[u8], endiannes: &Endiannes) -> (word: u32) {
        if let Endiannes::Big = endiannes {
            Self::from_be_bytes_mine(data)
        } else {
            Self::from_le_bytes_mine(data)
        }
    }

    fn from_be_bytes_mine(data: &[u8]) -> (word: u32) {
        proof {
            reveal_with_fuel(be_value, 5);
        }
        (data[0] as u32) * 0x100_0000 + (data[1] as u32) * 0x1_0000 + (data[2] as u32) * 0x100 + (
        data[3] as u32)
    }

    fn from_le_bytes_mine(data: &[u8]) -> (word: u32) {
        proof {
            reveal_with_fuel(le_value, 5);
        }
        (data[0] as u32) + (data[1] as u32) * 0x100 + (data[2] as u32) * 0x1_0000 + (
        data[3] as u32) * 0x100_0000
    }
}

impl FromBytes for u64 {
    type Output = u64;

    open spec fn byte_len() -> nat {
        8
    }

    open spec fn value(word: u64) -> nat {
        word as nat
    }

    fn from_bytes(data: &[u8], endiannes: &Endiannes) -> (word: u64) {
        if let Endiannes::Big = endiannes {
            Self::from_be_bytes_mine(data)
        } else {
            Self::from_le_bytes_mine(data)
        }
    }

    fn from_be_bytes_mine(data: &[u8]) -> (word: u64) {
        crate::iter_instructions::from_be_bytes_64(data)
    }

    fn from_le_bytes_mine(data: &[u8]) -> (word: u64) {
        crate::iter_instructions::from_le_bytes_64(data)
    }
}

/// `words` holds, in the word type of `T`, the instruction stream of
/// `binary`.
pub open spec fn is_stream<T: FromBytes>(
    words: Seq<T::Output>,
    binary: Seq<u8>,
    endiannes: Endiannes,
    instr_len: u64,
) -> bool {
    &&& words.len() == decode(binary, endiannes, instr_len).len()
    &&& forall|index: int|
        0 <= index < words.len() ==> T::value(#[trigger] words[index]) == decode(
            binary,
            endiannes,
            instr_len,
        )[index]
}

/// Decodes `binary` into words of the type that belongs to the
/// instruction width: one word for each complete chunk, trailing bytes
/// dropped.
pub fn extract_potential_instructions_from_binary<T: FromBytes>(
    binary: &[u8],
    endiannes: &Endiannes,
    instr_len: &u64,
) -> (words: Vec<T::Output>)
    requires
        supported_width(*instr_len),
        T::byte_len() == instr_byte_len(*instr_len),
        *endiannes != Endiannes::Unknown,
    ensures
        is_stream::<T>(words@, binary@, *endiannes, *instr_len),
{
    let width: usize = (*instr_len / BYTE_SIZE) as usize;
    let count: usize = count_instructions(binary, *instr_len);
    let len: usize = binary.len();
    let mut words: Vec<T::Output> = Vec::new();
    let mut index: usize = 0;
    while index < count
        invariant
            supported_width(*instr_len),
            T::byte_len() == instr_byte_len(*instr_len),
            width == instr_byte_len(*instr_len),
            *endiannes != Endiannes::Unknown,
            len == binary@.len(),
            count == decode(binary@, *endiannes, *instr_len).len(),
            index <= count,
            words@.len() == index,
            forall|at: int|
                0 <= at < index ==> T::value(#[trigger] words@[at]) == decode(
                    binary@,
                    *endiannes,
                    *instr_len,
                )[at],
        decreases count - index,
    {
        proof {
            lemma_chunk_in_bounds(len as int, width as int, index as int);
            crate::encode::lemma_word_fits(
                crate::iter_instructions::chunk(binary@, *instr_len, index as int),
                *endiannes,
            );
        }
        let data = vstd::slice::slice_subrange(binary, index * width, index * width + width);
        let word = match endiannes {
            Endiannes::Big => T::from_be_bytes_mine(data),
            _ => T::from_le_bytes_mine(data),
        };
        words.push(word);
        index += 1;
    }
    words
}

/// Start of the slice that is decoded for `alignment`, never after `end`.
pub open spec fn aligned_start(config: Config, end: int, alignment: int) -> int {
    if config.file_offset[0] + alignment <= end {
        config.file_offset[0] + alignment
    } else {
        end
    }
}

/// Decodes the configured region of `binary` under every hypothesis: for
/// each byte order to try, every alignment `0 .. instr_len / 8` of the
/// first instruction. All alignments of one byte order stand together.
pub fn iter_potential_instructions<T: FromBytes>(binary: &[u8], config: &Config) -> (streams: Vec<
    Vec<T::Output>,
>)
    requires
        supported_width(config.instr_len),
        T::byte_len() == instr_byte_len(config.instr_len),
    ensures
        streams@.len() == endiannes_to_try(config.endiannes).len() * instr_byte_len(
            config.instr_len,
        ),
        forall|choice: int, alignment: int|
            0 <= choice < endiannes_to_try(config.endiannes).len() && 0 <= alignment
                < instr_byte_len(config.instr_len) ==> is_stream::<T>(
                (#[trigger] streams@[choice * instr_byte_len(config.instr_len) + alignment])@,
                crate::iter_instructions::aligned_region(binary@, *config, alignment),
                endiannes_to_try(config.endiannes)[choice],
                config.instr_len,
            ),
{
    let width: usize = (config.instr_len / BYTE_SIZE) as usize;
    let end: usize = if config.file_offset[1] <= binary.len() {
        config.file_offset[1]
    } else {
        binary.len()
    };
    let (first, second): (Endiannes, Option<Endiannes>) = match config.endiannes {
        Endiannes::Unknown => (Endiannes::Big, Some(Endiannes::Little)),
        Endiannes::Big => (Endiannes::Big, None),
        Endiannes::Little => (Endiannes::Little, None),
    };
    let ghost orders = endiannes_to_try(config.endiannes);
    let rounds: usize = if second.is_some() {
        2
    } else {
        1
    };
    let mut streams: Vec<Vec<T::Output>> = Vec::new();
    let mut choice: usize = 0;
    while choice < rounds
        invariant
            supported_width(config.instr_len),
            T::byte_len() == instr_byte_len(config.instr_len),
            width == instr_byte_len(config.instr_len),
            orders == endiannes_to_try(config.endiannes),
            rounds == orders.len(),
            orders[0] == first,
            first != Endiannes::Unknown,
            second.is_some() == (rounds == 2),
            second.is_some() ==> orders[1] == second.unwrap() && second.unwrap()
                != Endiannes::Unknown,
            end == crate::iter_instructions::region_end(binary@, *config),
            end <= binary@.len(),
            choice <= rounds,
            streams@.len() == choice * width,
            forall|done: int, alignment: int|
                0 <= done < choice && 0 <= alignment < width ==> is_stream::<T>(
                    (#[trigger] streams@[done * width + alignment])@,
                    crate::iter_instructions::aligned_region(binary@, *config, alignment),
                    orders[done],
                    config.instr_len,
                ),
        decreases rounds - choice,
    {
        let endiannes: Endiannes = if choice == 0 {
            first
        } else {
            second.unwrap()
        };
        let ghost before = streams@;
        assert(choice * width + width == (choice + 1) * width) by (nonlinear_arith);
        let mut alignment: usize = 0;
        while alignment < width
            invariant
                supported_width(config.instr_len),
                T::byte_len() == instr_byte_len(config.instr_len),
                width == instr_byte_len(config.instr_len),
                endiannes == orders[choice as int],
                endiannes != Endiannes::Unknown,
                end == crate::iter_instructions::region_end(binary@, *config),
                end <= binary@.len(),
                alignment <= width,
                before.len() == choice * width,
                streams@.len() == choice * width + alignment,
                forall|k: int| 0 <= k < before.len() ==> streams@[k] == before[k],
                forall|at: int|
                    0 <= at < alignment ==> is_stream::<T>(
                        (#[trigger] streams@[choice * width + at])@,
                        crate::iter_instructions::aligned_region(binary@, *config, at),
                        endiannes,
                        config.instr_len,
                    ),
            decreases width - alignment,
        {
            let start: usize = if config.file_offset[0] >= end || alignment > end
                - config.file_offset[0] {
                end
            } else {
                config.file_offset[0] + alignment
            };
            let slice = vstd::slice::slice_subrange(binary, start, end);
            let words = extract_potential_instructions_from_binary::<T>(
                slice,
                &endiannes,
                &config.instr_len,
            );
            let ghost earlier = streams@;
            streams.push(words);
            proof {
                assert forall|at: int| 0 <= at < alignment + 1 implies is_stream::<T>(
                    (#[trigger] streams@[choice * width + at])@,
                    crate::iter_instructions::aligned_region(binary@, *config, at),
                    endiannes,
                    config.instr_len,
                ) by {
                    if at < alignment {
                        assert(streams@[choice * width + at] == earlier[choice * width + at]);
                    }
                }
            }
            alignment += 1;
        }
        proof {
            assert forall|done: int, at: int| 0 <= done < choice + 1 && 0 <= at < width implies is_stream::<
                T,
            >(
                (#[trigger] streams@[done * width + at])@,
                crate::iter_instructions::aligned_region(binary@, *config, at),
                orders[done],
                config.instr_len,
            ) by {
                if done < choice {
                    assert(0 <= done * width + at < choice * width) by (nonlinear_arith)
                        requires
                            0 <= done < choice,
                            0 <= at < width,
                    ;
                    assert(streams@[done * width + at] == before[done * width + at]);
                }
            }
        }
        choice += 1;
    }
    streams
}

} // verus!
