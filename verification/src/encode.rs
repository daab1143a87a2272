use vstd::prelude::*;
use crate::endiannes::Endiannes;
use crate::iter_instructions::{
    be_value, chunk, decode, instr_byte_len, instr_count, le_value, lemma_decode_subrange,
    supported_width, word_value,
};

verus! {

/// The `width` bytes that spell `value`, least significant byte first.
pub open spec fn le_bytes(value: nat, width: nat) -> Seq<u8>
    decreases width,
{
    if width == 0 {
        Seq::empty()
    } else {
        seq![(value % 256) as u8] + le_bytes(value / 256, (width - 1) as nat)
    }
}

/// The `width` bytes that spell `value`, most significant byte first.
pub open spec fn be_bytes(value: nat, width: nat) -> Seq<u8>
    decreases width,
{
    if width == 0 {
        Seq::empty()
    } else {
        be_bytes(value / 256, (width - 1) as nat).push((value % 256) as u8)
    }
}

/// The bytes of one instruction word under `endiannes`.
pub open spec fn word_bytes(value: u64, endiannes: Endiannes, instr_len: u64) -> Seq<u8> {
    if endiannes == Endiannes::Big {
        be_bytes(value as nat, instr_byte_len(instr_len) as nat)
    } else {
        le_bytes(value as nat, instr_byte_len(instr_len) as nat)
    }
}

/// The bytes of an instruction stream: the words' bytes, one after another.
pub open spec fn encode(instructions: Seq<u64>, endiannes: Endiannes, instr_len: u64) -> Seq<u8>
    decreases instructions.len(),
{
    if instructions.len() == 0 {
        Seq::empty()
    } else {
        encode(instructions.drop_last(), endiannes, instr_len) + word_bytes(
            instructions.last(),
            endiannes,
            instr_len,
        )
    }
}

/// 256 to the power `width`.
pub open spec fn byte_limit(width: nat) -> nat
    decreases width,
{
    if width == 0 {
        1
    } else {
        256 * byte_limit((width - 1) as nat)
    }
}

/// A little-endian number of `n` bytes is below 256 to the `n`.
pub proof fn lemma_le_value_bound(bytes: Seq<u8>)
    ensures
        le_value(bytes) < byte_limit(bytes.len()),
    decreases bytes.len(),
{
    if bytes.len() > 0 {
        lemma_le_value_bound(bytes.drop_first());
    }
}

/// A big-endian number of `n` bytes is below 256 to the `n`.
pub proof fn lemma_be_value_bound(bytes: Seq<u8>)
    ensures
        be_value(bytes) < byte_limit(bytes.len()),
    decreases bytes.len(),
{
    if bytes.len() > 0 {
        lemma_be_value_bound(bytes.drop_last());
    }
}

/// Up to 8 bytes spell a number that a `u64` holds.
pub proof fn lemma_word_fits(bytes: Seq<u8>, endiannes: Endiannes)
    requires
        bytes.len() <= 8,
    ensures
        word_value(bytes, endiannes) <= u64::MAX,
{
    reveal_with_fuel(byte_limit, 9);
    lemma_le_value_bound(bytes);
    lemma_be_value_bound(bytes);
}

/// Writing out the little-endian value of some bytes gives the bytes back.
pub proof fn lemma_le_round_trip(bytes: Seq<u8>)
    ensures
        le_bytes(le_value(bytes), bytes.len()) == bytes,
    decreases bytes.len(),
{
    if bytes.len() > 0 {
        let rest = bytes.drop_first();
        lemma_le_round_trip(rest);
        assert(le_value(bytes) % 256 == bytes[0] as nat);
        assert(le_value(bytes) / 256 == le_value(rest));
        assert(seq![bytes[0]] + rest =~= bytes);
    } else {
        assert(bytes =~= Seq::empty());
    }
}

/// Writing out the big-endian value of some bytes gives the bytes back.
pub proof fn lemma_be_round_trip(bytes: Seq<u8>)
    ensures
        be_bytes(be_value(bytes), bytes.len()) == bytes,
    decreases bytes.len(),
{
    if bytes.len() > 0 {
        let rest = bytes.drop_last();
        lemma_be_round_trip(rest);
        assert(be_value(bytes) % 256 == bytes.last() as nat);
        assert(be_value(bytes) / 256 == be_value(rest));
        assert(rest.push(bytes.last()) =~= bytes);
    } else {
        assert(bytes =~= Seq::empty());
    }
}

/// Decoding one chunk and writing the word out again gives the chunk back.
pub proof fn lemma_word_round_trip(bytes: Seq<u8>, endiannes: Endiannes, instr_len: u64)
    requires
        supported_width(instr_len),
        bytes.len() == instr_byte_len(instr_len),
    ensures
        word_bytes(word_value(bytes, endiannes) as u64, endiannes, instr_len) == bytes,
{
    lemma_word_fits(bytes, endiannes);
    lemma_le_round_trip(bytes);
    lemma_be_round_trip(bytes);
}

/// Decoding a byte sequence made of whole instructions and writing each word
/// out again under the same byte order reproduces the bytes exactly.
pub proof fn lemma_decode_encode_round_trip(binary: Seq<u8>, endiannes: Endiannes, instr_len: u64)
    requires
        supported_width(instr_len),
        binary.len() % (instr_byte_len(instr_len) as nat) == 0,
    ensures
        encode(decode(binary, endiannes, instr_len), endiannes, instr_len) == binary,
    decreases binary.len(),
{
    let width = instr_byte_len(instr_len);
    let count = instr_count(binary.len(), instr_len) as int;
    let stream = decode(binary, endiannes, instr_len);
    assert(count * width == binary.len()) by (nonlinear_arith)
        requires
            0 < width,
            count == binary.len() as int / width,
            binary.len() as int % width == 0,
    ;
    if count == 0 {
        assert(binary.len() == 0) by (nonlinear_arith)
            requires
                count == 0,
                count * width == binary.len(),
        ;
        assert(binary =~= Seq::empty());
    } else {
        let shorter = binary.subrange(0, (count - 1) * width);
        lemma_decode_subrange(binary, endiannes, instr_len, 0, count - 1);
        assert(0 * width == 0) by (nonlinear_arith);
        assert(stream.drop_last() =~= stream.subrange(0, count - 1));
        assert(((count - 1) * width) % width == 0 && (count - 1) * width + width == count * width)
            by (nonlinear_arith)
            requires
                0 < width,
                0 < count,
        ;
        lemma_decode_encode_round_trip(shorter, endiannes, instr_len);
        let last_chunk = chunk(binary, instr_len, count - 1);
        assert(last_chunk.len() == width);
        lemma_word_round_trip(last_chunk, endiannes, instr_len);
        assert(stream.last() == word_value(last_chunk, endiannes) as u64);
        assert(shorter + last_chunk =~= binary);
    }
}

} // verus!
