use vstd::prelude::*;
use vstd::arithmetic::power2::pow2;
use crate::addressing_mode::AddressingMode;
use crate::config::{low_bits, Config};
use crate::endiannes::Endiannes;
use crate::iter_instructions::{
    count_instructions, decode, instruction_at, iter_instructions_and_search,
    lemma_decode_subrange, BYTE_SIZE,
};

verus! {

/// A call edge: the index of the call instruction and the index of its
/// target, both counted in instructions from the start of the slice.
pub type Edge = (usize, usize);

/// Smallest distance between a call and its target in relative addressing;
/// nearer targets are taken for noise.
pub const MIN_RELATIVE_DISTANCE: usize = 4;

/// `bits` read as a 64-bit number in two's complement.
pub open spec fn as_signed(bits: u64) -> int {
    if bits < 0x8000_0000_0000_0000 {
        bits as int
    } else {
        bits as int - 0x1_0000_0000_0000_0000
    }
}

/// The signed value of a raw operand: where it exceeds `signed_mask` its
/// sign bit is set, and every bit outside the mask is set with it.
pub open spec fn sign_extend(operand: u64, signed_mask: u64) -> int {
    if operand > signed_mask {
        as_signed(operand | !signed_mask)
    } else {
        as_signed(operand)
    }
}

/// Quotient rounded towards zero.
pub open spec fn trunc_div(value: int, divisor: int) -> int {
    if value >= 0 {
        value / divisor
    } else {
        -((-value) / divisor)
    }
}

/// Whether `instr` is a call under the hypothesis `call_candidate`.
pub open spec fn is_call(instr: u64, call_candidate: u64, config: Config) -> bool {
    instr & config.call_opcode_mask == call_candidate
}

/// Target of a call by absolute addressing: the shifted operand is an
/// address, `pc_offset` is the address of instruction 0, and `pc_inc`
/// addresses make one instruction. `None` where the address lies before
/// the slice or the index at or after `count`.
pub open spec fn absolute_target(instr: u64, count: int, config: Config) -> Option<int> {
    let operand = instr & config.call_operand_mask;
    let address = operand * pow2(config.left_shift_call_operand as nat) - config.pc_offset;
    if 0 <= address && address / (config.pc_inc as int) < count {
        Some(address / (config.pc_inc as int))
    } else {
        None
    }
}

/// Target of a call at `source` by relative addressing: the sign-extended
/// and shifted operand, divided by `pc_inc`, is the distance in
/// instructions. `None` where the target lies outside `0..count` or within
/// `MIN_RELATIVE_DISTANCE` of the call.
pub open spec fn relative_target(instr: u64, source: int, count: int, config: Config) -> Option<
    int,
> {
    let operand = instr & config.call_operand_mask;
    let displacement = sign_extend(operand, config.call_operand_signed_mask) * pow2(
        config.left_shift_call_operand as nat,
    );
    let target = source + trunc_div(displacement, config.pc_inc as int);
    if 0 <= target < count && (source - target > MIN_RELATIVE_DISTANCE || target - source
        > MIN_RELATIVE_DISTANCE) {
        Some(target)
    } else {
        None
    }
}

/// Target of the instruction `instr` at `source`, if it is a call under
/// the hypothesis and its target is accepted.
pub open spec fn call_target(
    instr: u64,
    source: int,
    count: int,
    call_candidate: u64,
    config: Config,
) -> Option<int> {
    if !is_call(instr, call_candidate, config) {
        None
    } else if config.addressing_mode == AddressingMode::Absolute {
        absolute_target(instr, count, config)
    } else {
        relative_target(instr, source, count, config)
    }
}

/// The edges of the first `upto` instructions, in the order of their calls.
pub open spec fn scan_edges(
    instructions: Seq<u64>,
    call_candidate: u64,
    config: Config,
    upto: int,
) -> Seq<Edge>
    decreases upto,
{
    if upto <= 0 {
        Seq::empty()
    } else {
        let earlier = scan_edges(instructions, call_candidate, config, upto - 1);
        match call_target(
            instructions[upto - 1],
            upto - 1,
            instructions.len() as int,
            call_candidate,
            config,
        ) {
            Some(target) => earlier.push(((upto - 1) as usize, target as usize)),
            None => earlier,
        }
    }
}

/// All edges of an instruction stream under one call hypothesis, in the
/// order of their calls.
pub open spec fn potential_edges(instructions: Seq<u64>, call_candidate: u64, config: Config) -> Seq<
    Edge,
> {
    scan_edges(instructions, call_candidate, config, instructions.len() as int)
}

/// Edges in ascending order of their targets.
pub open spec fn sorted_by_target(edges: Seq<Edge>) -> bool {
    forall|i: int, j: int| 0 <= i <= j < edges.len() ==> edges[i].1 <= edges[j].1
}

/// What holds of an accepted edge: both ends are instructions of the
/// stream, and a relative call is more than `MIN_RELATIVE_DISTANCE` away
/// from its target.
pub open spec fn edge_in_bounds(edge: Edge, count: int, config: Config) -> bool {
    &&& edge.0 < count
    &&& edge.1 < count
    &&& config.addressing_mode != AddressingMode::Absolute ==> (edge.0 - edge.1
        > MIN_RELATIVE_DISTANCE || edge.1 - edge.0 > MIN_RELATIVE_DISTANCE)
}

/// An accepted target is an instruction of the stream, and in relative
/// addressing it is far enough from its call.
pub proof fn lemma_call_target_in_bounds(
    instr: u64,
    source: int,
    count: int,
    call_candidate: u64,
    config: Config,
)
    requires
        0 <= source < count,
        config.pc_inc > 0,
    ensures
        match call_target(instr, source, count, call_candidate, config) {
            Some(target) => {
                &&& 0 <= target < count
                &&& config.addressing_mode != AddressingMode::Absolute ==> (source - target
                    > MIN_RELATIVE_DISTANCE || target - source > MIN_RELATIVE_DISTANCE)
            },
            None => true,
        },
{
    let operand = instr & config.call_operand_mask;
    let address = operand * pow2(config.left_shift_call_operand as nat) - config.pc_offset;
    let step = config.pc_inc as int;
    if 0 <= address {
        assert(0 <= address / step) by (nonlinear_arith)
            requires
                0 <= address,
                0 < step,
        ;
    }
}

/// Every scanned edge is in bounds.
pub proof fn lemma_scan_edges_in_bounds(
    instructions: Seq<u64>,
    call_candidate: u64,
    config: Config,
    upto: int,
)
    requires
        upto <= instructions.len() <= usize::MAX,
        config.pc_inc > 0,
    ensures
        forall|k: int|
            0 <= k < scan_edges(instructions, call_candidate, config, upto).len()
                ==> edge_in_bounds(
                #[trigger] scan_edges(instructions, call_candidate, config, upto)[k],
                instructions.len() as int,
                config,
            ),
    decreases upto,
{
    if upto > 0 {
        lemma_scan_edges_in_bounds(instructions, call_candidate, config, upto - 1);
        lemma_call_target_in_bounds(
            instructions[upto - 1],
            upto - 1,
            instructions.len() as int,
            call_candidate,
            config,
        );
        let earlier = scan_edges(instructions, call_candidate, config, upto - 1);
        let edges = scan_edges(instructions, call_candidate, config, upto);
        assert forall|k: int| 0 <= k < edges.len() implies edge_in_bounds(
            #[trigger] edges[k],
            instructions.len() as int,
            config,
        ) by {
            if k < earlier.len() {
                assert(edges[k] == earlier[k]);
            }
        }
    }
}

/// The signed value of a raw operand. With `signed_mask` the operand bits
/// below the sign bit, an operand above the mask has its sign bit set: all
/// bits outside the mask are then set too, which makes the 64-bit word the
/// two's complement of the negative operand.
pub fn sign_extend_operand(operand: u64, signed_mask: u64) -> (value: i64)
    ensures
        value == sign_extend(operand, signed_mask),
{
    let bits: u64 = if operand > signed_mask {
        operand | !signed_mask
    } else {
        operand
    };
    if bits < 0x8000_0000_0000_0000 {
        bits as i64
    } else {
        ((bits - 0x8000_0000_0000_0000) as i64) + i64::MIN
    }
}

/// With an operand field of `bits` bits, sign extension reads the field as
/// a number in two's complement: an operand below `2^(bits - 1)` stands
/// for itself, a higher one for itself less `2^bits`.
pub proof fn lemma_sign_extend_is_twos_complement(operand: u64, bits: u64)
    requires
        1 <= bits <= 64,
        operand <= low_bits(bits),
    ensures
        sign_extend(operand, low_bits((bits - 1) as u64)) == if operand <= low_bits(
            (bits - 1) as u64,
        ) {
            operand as int
        } else {
            operand - pow2(bits as nat)
        },
{
    let signed_mask = low_bits((bits - 1) as u64);
    let below: u64 = (bits - 1) as u64;
    assert(signed_mask < 0x8000_0000_0000_0000) by (bit_vector)
        requires
            below < 64,
            signed_mask == ((1u64 << below) - 1) as u64,
    ;
    if operand > signed_mask {
        let extended = operand | !signed_mask;
        if bits == 64 {
            assert(signed_mask == 0x7fff_ffff_ffff_ffffu64) by (bit_vector)
                requires
                    signed_mask == ((1u64 << 63u64) - 1) as u64,
            ;
            assert(extended == operand && operand >= 0x8000_0000_0000_0000) by (bit_vector)
                requires
                    extended == operand | !signed_mask,
                    signed_mask == 0x7fff_ffff_ffff_ffffu64,
                    operand > signed_mask,
            ;
            vstd::arithmetic::power2::lemma2_to64_rest();
        } else {
            let span: u64 = 1u64 << bits;
            assert(extended >= 0x8000_0000_0000_0000 && extended - operand
                == 0x1_0000_0000_0000_0000 - span) by (bit_vector)
                requires
                    1 <= bits < 64,
                    below == bits - 1,
                    span == 1u64 << bits,
                    signed_mask == ((1u64 << below) - 1) as u64,
                    operand <= ((1u64 << bits) - 1) as u64,
                    operand > signed_mask,
                    extended == operand | !signed_mask,
            ;
            vstd::bits::lemma_u64_pow2_no_overflow(bits as nat);
            vstd::bits::lemma_u64_shl_is_mul(1, bits);
        }
    } else {
        assert(operand < 0x8000_0000_0000_0000);
    }
}

/// Two to the power `shift`, the factor of a left shift by `shift` bits.
pub fn shift_factor(shift: u64) -> (factor: u64)
    requires
        shift < 64,
    ensures
        factor == pow2(shift as nat),
        factor > 0,
{
    proof {
        vstd::arithmetic::power2::lemma_pow2_pos(shift as nat);
        vstd::bits::lemma_u64_pow2_no_overflow(shift as nat);
        vstd::bits::lemma_u64_shl_is_mul(1, shift);
    }
    1u64 << shift
}

/// Follows the operand of `instr`, found at `source` in a stream of `count`
/// instructions, to its target under the hypothesis `call_candidate`.
pub fn follow_call(
    instr: u64,
    source: usize,
    count: usize,
    call_candidate: u64,
    config: &Config,
) -> (target: Option<usize>)
    requires
        config.wf(),
        source < count,
    ensures
        match call_target(instr, source as int, count as int, call_candidate, *config) {
            Some(index) => target == Some(index as usize) && 0 <= index < count,
            None => target.is_none(),
        },
{
    if instr & config.call_opcode_mask != call_candidate {
        return None;
    }
    let operand: u64 = instr & config.call_operand_mask;
    let factor: u64 = shift_factor(config.left_shift_call_operand);
    let step: u128 = config.pc_inc as u128;
    proof {
        lemma_call_target_in_bounds(instr, source as int, count as int, call_candidate, *config);
    }
    match config.addressing_mode {
        AddressingMode::Absolute => {
            assert(operand * factor <= u128::MAX) by (nonlinear_arith)
                requires
                    operand <= u64::MAX,
                    factor <= u64::MAX,
            ;
            let shifted: u128 = (operand as u128) * (factor as u128);
            if shifted < config.pc_offset as u128 {
                return None;
            }
            let address: u128 = shifted - config.pc_offset as u128;
            let index: u128 = address / step;
            if index < count as u128 {
                Some(index as usize)
            } else {
                None
            }
        },
        _ => {
            let signed: i64 = sign_extend_operand(operand, config.call_operand_signed_mask);
            let forward: bool = signed >= 0;
            let magnitude: u128 = if forward {
                signed as u128
            } else {
                (-(signed as i128)) as u128
            };
            assert(magnitude * factor <= u128::MAX) by (nonlinear_arith)
                requires
                    magnitude <= 0x8000_0000_0000_0000,
                    factor <= u64::MAX,
            ;
            let distance: u128 = (magnitude * (factor as u128)) / step;
            proof {
                let displacement = signed * pow2(config.left_shift_call_operand as nat);
                assert(forward ==> displacement == magnitude * factor && displacement >= 0)
                    by (nonlinear_arith)
                    requires
                        forward ==> signed == magnitude && signed >= 0,
                        factor == pow2(config.left_shift_call_operand as nat),
                        displacement == signed * pow2(config.left_shift_call_operand as nat),
                ;
                assert(!forward ==> -displacement == magnitude * factor && displacement < 0)
                    by (nonlinear_arith)
                    requires
                        !forward ==> -signed == magnitude && signed < 0,
                        factor > 0,
                        factor == pow2(config.left_shift_call_operand as nat),
                        displacement == signed * pow2(config.left_shift_call_operand as nat),
                ;
                assert(trunc_div(displacement, step as int) == if forward {
                    distance as int
                } else {
                    -(distance as int)
                });
            }
            if forward {
                if distance >= count as u128 || distance <= MIN_RELATIVE_DISTANCE as u128 {
                    return None;
                }
                let reach: usize = distance as usize;
                if reach < count - source {
                    Some(source + reach)
                } else {
                    None
                }
            } else {
                if distance > source as u128 || distance <= MIN_RELATIVE_DISTANCE as u128 {
                    return None;
                }
                Some(source - distance as usize)
            }
        },
    }
}

/// Sorts `edges` by target with `sort_unstable_by_key` of std. The slice
/// documentation promises that the elements are kept and come out in
/// ascending order of the key; edges with equal targets may change places.
#[verifier::external_body]
fn sort_by_target(edges: &mut Vec<Edge>)
    ensures
        final(edges)@.to_multiset() == old(edges)@.to_multiset(),
        sorted_by_target(final(edges)@),
{
    edges.sort_unstable_by_key(|edge| edge.1);
}

/// Rearranging edges keeps each of them in bounds.
pub proof fn lemma_permutation_in_bounds(
    edges: Seq<Edge>,
    scanned: Seq<Edge>,
    count: int,
    config: Config,
)
    requires
        edges.to_multiset() == scanned.to_multiset(),
        forall|k: int| 0 <= k < scanned.len() ==> edge_in_bounds(#[trigger] scanned[k], count, config),
    ensures
        forall|k: int| 0 <= k < edges.len() ==> edge_in_bounds(#[trigger] edges[k], count, config),
{
    assert forall|k: int| 0 <= k < edges.len() implies edge_in_bounds(
        #[trigger] edges[k],
        count,
        config,
    ) by {
        edges.to_multiset_ensures();
        scanned.to_multiset_ensures();
        assert(edges.contains(edges[k]));
        assert(scanned.to_multiset().count(edges[k]) > 0);
        assert(scanned.contains(edges[k]));
        let at = choose|at: int| 0 <= at < scanned.len() && scanned[at] == edges[k];
        assert(edge_in_bounds(scanned[at], count, config));
    }
}

/// Finds the call edges of `binary` under the hypothesis that
/// `call_candidate` is the opcode of a call.
///
/// Every instruction whose opcode bits equal the candidate is followed to
/// its target; the edge is kept where the target is an instruction of the
/// slice and, in relative addressing, more than `MIN_RELATIVE_DISTANCE`
/// instructions away. An operand that leads elsewhere is no error: the
/// instruction is passed over. The edges come back in ascending order of
/// their targets.
pub fn find_potential_edges(
    binary: &[u8],
    call_candidate: u64,
    config: &Config,
    endiannes: &Endiannes,
) -> (edges: Vec<Edge>)
    requires
        config.wf(),
        *endiannes != Endiannes::Unknown,
    ensures
        edges@.to_multiset() == potential_edges(
            decode(binary@, *endiannes, config.instr_len),
            call_candidate,
            *config,
        ).to_multiset(),
        sorted_by_target(edges@),
        forall|k: int|
            0 <= k < edges.len() ==> edge_in_bounds(
                #[trigger] edges[k],
                decode(binary@, *endiannes, config.instr_len).len() as int,
                *config,
            ),
{
    let count: usize = count_instructions(binary, config.instr_len);
    let ghost instructions = decode(binary@, *endiannes, config.instr_len);
    let mut edges: Vec<Edge> = Vec::new();
    let mut index: usize = 0;
    while index < count
        invariant
            config.wf(),
            *endiannes != Endiannes::Unknown,
            instructions == decode(binary@, *endiannes, config.instr_len),
            count == instructions.len(),
            index <= count,
            edges@ == scan_edges(instructions, call_candidate, *config, index as int),
        decreases count - index,
    {
        let instr: u64 = instruction_at(binary, endiannes, config.instr_len, index);
        match follow_call(instr, index, count, call_candidate, config) {
            Some(target) => {
                edges.push((index, target));
            },
            None => {},
        }
        index += 1;
    }
    proof {
        lemma_scan_edges_in_bounds(instructions, call_candidate, *config, count as int);
    }
    let ghost scanned = edges@;
    sort_by_target(&mut edges);
    proof {
        lemma_permutation_in_bounds(edges@, scanned, count as int, *config);
    }
    edges
}

/// Whether a return under the hypothesis `ret_opcode` stands among the
/// `ret_func_dist` instructions just before `target`.
pub open spec fn return_precedes(
    instructions: Seq<u64>,
    target: int,
    ret_opcode: u64,
    config: Config,
) -> bool {
    exists|index: int|
        target - config.ret_func_dist <= index < target && 0 <= index < instructions.len()
            && #[trigger] instructions[index] & config.ret_opcode_mask == ret_opcode
}

/// Whether `target` passes for the start of a function: a return stands
/// shortly before it, or fewer than `ret_func_dist` instructions precede
/// it, as they do before the first function of a binary.
pub open spec fn is_valid_target(
    instructions: Seq<u64>,
    target: int,
    ret_opcode: u64,
    config: Config,
) -> bool {
    target < config.ret_func_dist || return_precedes(instructions, target, ret_opcode, config)
}

/// The edges among `edges` whose target is valid, in their order.
pub open spec fn valid_edges(
    instructions: Seq<u64>,
    ret_opcode: u64,
    config: Config,
    edges: Seq<Edge>,
) -> Seq<Edge> {
    edges.filter(|edge: Edge| is_valid_target(instructions, edge.1 as int, ret_opcode, config))
}

/// `part` is `whole` with some of its edges left out: nothing is added and
/// the order is kept.
pub open spec fn is_subsequence(part: Seq<Edge>, whole: Seq<Edge>) -> bool
    decreases whole.len(),
{
    if part.len() == 0 {
        true
    } else if whole.len() == 0 {
        false
    } else {
        ||| (part.last() == whole.last() && is_subsequence(part.drop_last(), whole.drop_last()))
        ||| is_subsequence(part, whole.drop_last())
    }
}

/// Filtering only removes: what is left is a subsequence of the input.
pub proof fn lemma_filter_is_subsequence(edges: Seq<Edge>, keep: spec_fn(Edge) -> bool)
    ensures
        is_subsequence(edges.filter(keep), edges),
    decreases edges.len(),
{
    reveal(Seq::filter);
    if edges.len() > 0 {
        lemma_filter_is_subsequence(edges.drop_last(), keep);
        if keep(edges.last()) {
            assert(edges.filter(keep).drop_last() =~= edges.drop_last().filter(keep));
        }
    }
}

/// Every edge of a subsequence is an edge of the whole.
pub proof fn lemma_subsequence_contained(part: Seq<Edge>, whole: Seq<Edge>)
    requires
        is_subsequence(part, whole),
    ensures
        part.len() <= whole.len(),
        forall|k: int| 0 <= k < part.len() ==> whole.contains(#[trigger] part[k]),
    decreases whole.len(),
{
    if part.len() > 0 {
        if part.last() == whole.last() && is_subsequence(part.drop_last(), whole.drop_last()) {
            lemma_subsequence_contained(part.drop_last(), whole.drop_last());
            assert forall|k: int| 0 <= k < part.len() implies whole.contains(#[trigger] part[k]) by {
                if k < part.len() - 1 {
                    assert(part.drop_last()[k] == part[k]);
                    let at = choose|at: int|
                        0 <= at < whole.drop_last().len() && whole.drop_last()[at] == part[k];
                    assert(whole[at] == part[k]);
                } else {
                    assert(whole[whole.len() - 1] == part[k]);
                }
            }
        } else {
            lemma_subsequence_contained(part, whole.drop_last());
            assert forall|k: int| 0 <= k < part.len() implies whole.contains(#[trigger] part[k]) by {
                let at = choose|at: int|
                    0 <= at < whole.drop_last().len() && whole.drop_last()[at] == part[k];
                assert(whole[at] == part[k]);
            }
        }
    }
}

/// Looks for a return under the hypothesis `ret_opcode` among the
/// `ret_func_dist` instructions just before `target`.
pub fn has_return_before(
    binary: &[u8],
    target: usize,
    ret_opcode: u64,
    config: &Config,
    endiannes: &Endiannes,
) -> (found: bool)
    requires
        config.wf(),
        *endiannes != Endiannes::Unknown,
    ensures
        found == return_precedes(
            decode(binary@, *endiannes, config.instr_len),
            target as int,
            ret_opcode,
            *config,
        ),
{
    let ghost instructions = decode(binary@, *endiannes, config.instr_len);
    let count: usize = count_instructions(binary, config.instr_len);
    let width: usize = (config.instr_len / BYTE_SIZE) as usize;
    let lo: usize = if target >= config.ret_func_dist {
        target - config.ret_func_dist
    } else {
        0
    };
    let hi: usize = if target < count {
        target
    } else {
        count
    };
    if lo >= hi {
        return false;
    }
    proof {
        lemma_decode_subrange(binary@, *endiannes, config.instr_len, lo as int, hi as int);
    }
    let len: usize = binary.len();
    let window = vstd::slice::slice_subrange(binary, lo * width, hi * width);
    let found: bool = iter_instructions_and_search(
        window,
        endiannes,
        config.instr_len,
        config.ret_opcode_mask,
        ret_opcode,
    );
    proof {
        let part = decode(window@, *endiannes, config.instr_len);
        assert(part == instructions.subrange(lo as int, hi as int));
        if found {
            let at = choose|at: int|
                0 <= at < part.len() && #[trigger] part[at] & config.ret_opcode_mask == ret_opcode;
            assert(instructions[lo + at] & config.ret_opcode_mask == ret_opcode);
        }
        if return_precedes(instructions, target as int, ret_opcode, *config) {
            let index = choose|index: int|
                target - config.ret_func_dist <= index < target && 0 <= index < instructions.len()
                    && #[trigger] instructions[index] & config.ret_opcode_mask == ret_opcode;
            assert(part[index - lo] & config.ret_opcode_mask == ret_opcode);
        }
    }
    found
}

/// Keeps the edges whose target passes for the start of a function under
/// the hypothesis that `ret_opcode` is the opcode of a return.
///
/// A target is valid where a return stands among the `ret_func_dist`
/// instructions before it, and also where fewer than `ret_func_dist`
/// instructions precede it at all. The result is the input with the other
/// edges left out.
pub fn filter_valid_edges(
    binary: &[u8],
    ret_opcode: u64,
    config: &Config,
    potential_call_edges: &Vec<Edge>,
    endiannes: &Endiannes,
) -> (valid_call_edges: Vec<Edge>)
    requires
        config.wf(),
        *endiannes != Endiannes::Unknown,
    ensures
        valid_call_edges@ == valid_edges(
            decode(binary@, *endiannes, config.instr_len),
            ret_opcode,
            *config,
            potential_call_edges@,
        ),
        is_subsequence(valid_call_edges@, potential_call_edges@),
        valid_call_edges.len() <= potential_call_edges.len(),
{
    let ghost instructions = decode(binary@, *endiannes, config.instr_len);
    let ghost keep = |edge: Edge| is_valid_target(instructions, edge.1 as int, ret_opcode, *config);
    let mut valid_call_edges: Vec<Edge> = Vec::new();
    let mut index: usize = 0;
    assert(potential_call_edges@.take(0).filter(keep) =~= Seq::empty()) by {
        reveal(Seq::filter);
    }
    while index < potential_call_edges.len()
        invariant
            config.wf(),
            *endiannes != Endiannes::Unknown,
            instructions == decode(binary@, *endiannes, config.instr_len),
            keep == |edge: Edge| is_valid_target(instructions, edge.1 as int, ret_opcode, *config),
            index <= potential_call_edges.len(),
            valid_call_edges@ == potential_call_edges@.take(index as int).filter(keep),
        decreases potential_call_edges.len() - index,
    {
        let edge: Edge = potential_call_edges[index];
        let valid: bool = edge.1 < config.ret_func_dist || has_return_before(
            binary,
            edge.1,
            ret_opcode,
            config,
            endiannes,
        );
        proof {
            reveal(Seq::filter);
            assert(potential_call_edges@.take(index + 1).drop_last() =~= potential_call_edges@.take(
                index as int,
            ));
            assert(valid == keep(edge));
        }
        if valid {
            valid_call_edges.push(edge);
        }
        index += 1;
    }
    proof {
        assert(potential_call_edges@.take(index as int) =~= potential_call_edges@);
        lemma_filter_is_subsequence(potential_call_edges@, keep);
        lemma_subsequence_contained(valid_call_edges@, potential_call_edges@);
    }
    valid_call_edges
}

} // verus!
