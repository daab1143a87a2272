use vstd::prelude::*;
use crate::candidates::{call_candidates, histogram, is_ranked_window, ret_candidates, ret_domain, Count};
use crate::config::Config;
use crate::edges::{
    filter_valid_edges, find_potential_edges, is_valid_target, potential_edges, valid_edges, Edge,
};
use crate::endiannes::Endiannes;
use crate::iter_instructions::{
    aligned_region, decode, endiannes_to_try, instr_byte_len,
    iter_potential_instruction_configuration,
};
use crate::min_heap::{offer, sorted_by_probability, Candidate, MinHeap, Probability};

verus! {

/// Taking one element out of a list takes it out of the filtered list, if
/// it passes the filter.
pub proof fn lemma_filter_remove(list: Seq<Edge>, keep: spec_fn(Edge) -> bool, at: int)
    requires
        0 <= at < list.len(),
    ensures
        list.filter(keep).len() == list.remove(at).filter(keep).len() + if keep(list[at]) {
            1int
        } else {
            0int
        },
{
    let head = list.subrange(0, at);
    let one = seq![list[at]];
    let tail = list.subrange(at + 1, list.len() as int);
    assert(list =~= head + one + tail);
    assert(list.remove(at) =~= head + tail);
    Seq::filter_distributes_over_add(head + one, tail, keep);
    Seq::filter_distributes_over_add(head, one, keep);
    Seq::filter_distributes_over_add(head, tail, keep);
    reveal_with_fuel(Seq::filter, 2);
    assert(one.drop_last() =~= Seq::<Edge>::empty());
    assert(one.last() == list[at]);
}

/// As many edges pass a filter in one order as in another.
pub proof fn lemma_filter_len_of_permutation(
    left: Seq<Edge>,
    right: Seq<Edge>,
    keep: spec_fn(Edge) -> bool,
)
    requires
        left.to_multiset() == right.to_multiset(),
    ensures
        left.filter(keep).len() == right.filter(keep).len(),
    decreases left.len(),
{
    broadcast use vstd::seq_lib::group_to_multiset_ensures;

    left.to_multiset_ensures();
    right.to_multiset_ensures();
    if left.len() == 0 {
        assert(right.len() == 0);
        assert(left =~= right);
    } else {
        let last = left.last();
        assert(left.contains(last)) by {
            assert(left[left.len() - 1] == last);
        }
        assert(right.to_multiset().count(last) > 0);
        assert(right.contains(last));
        let at = right.index_of(last);
        assert(left.drop_last() =~= left.remove(left.len() - 1));
        assert(left.drop_last().to_multiset() =~= right.remove(at).to_multiset());
        lemma_filter_len_of_permutation(left.drop_last(), right.remove(at), keep);
        lemma_filter_remove(left, keep, left.len() - 1);
        lemma_filter_remove(right, keep, at);
    }
}

/// The candidate that a call hypothesis and a return hypothesis make
/// together: the pair with the score of its edges, `None` where the counts
/// give no score.
pub open spec fn scored_pair(
    instructions: Seq<u64>,
    config: Config,
    call: Count,
    ret: Count,
) -> Option<Candidate> {
    let potential = potential_edges(instructions, call.0, config);
    let valid = valid_edges(instructions, ret.0, config, potential);
    match Probability::from_counts(valid.len() as usize, potential.len() as usize, call.1) {
        Some(probability) => Some(Candidate { probability, call_opcode: call.0, ret_opcode: ret.0 }),
        None => None,
    }
}

/// What is held after `call` was paired with the first `upto` return
/// hypotheses and each scored pair was offered.
pub open spec fn after_rets(
    held: Seq<Candidate>,
    instructions: Seq<u64>,
    config: Config,
    call: Count,
    rets: Seq<Count>,
    upto: int,
) -> Seq<Candidate>
    decreases upto,
{
    if upto <= 0 {
        held
    } else {
        let earlier = after_rets(held, instructions, config, call, rets, upto - 1);
        match scored_pair(instructions, config, call, rets[upto - 1]) {
            Some(candidate) => offer(earlier, config.nr_cand as int, candidate),
            None => earlier,
        }
    }
}

/// What is held after each of the first `upto` call hypotheses was paired
/// with every return hypothesis.
pub open spec fn after_calls(
    held: Seq<Candidate>,
    instructions: Seq<u64>,
    config: Config,
    calls: Seq<Count>,
    rets: Seq<Count>,
    upto: int,
) -> Seq<Candidate>
    decreases upto,
{
    if upto <= 0 {
        held
    } else {
        after_rets(
            after_calls(held, instructions, config, calls, rets, upto - 1),
            instructions,
            config,
            calls[upto - 1],
            rets,
            rets.len() as int,
        )
    }
}

/// `after` is what a structure that held `before` holds once `binary` was
/// analysed under one byte order with the call hypotheses `calls` and the
/// return hypotheses `rets`: these are windows of the rankings that the
/// configuration asks for, and every pair of them was scored and offered,
/// call by call and return by return.
pub open spec fn is_analysis(
    before: Seq<Candidate>,
    after: Seq<Candidate>,
    binary: Seq<u8>,
    config: Config,
    endiannes: Endiannes,
    calls: Seq<Count>,
    rets: Seq<Count>,
) -> bool {
    let instructions = decode(binary, endiannes, config.instr_len);
    &&& is_ranked_window(
        calls,
        histogram(instructions, config.call_opcode_mask, Set::full()),
        config.call_search_range[0] as int,
        config.call_search_range[1] as int,
    )
    &&& is_ranked_window(
        rets,
        histogram(
            instructions,
            config.ret_opcode_mask,
            ret_domain(binary, instructions, config.ret_opcode_mask),
        ),
        config.ret_search_range[0] as int,
        config.ret_search_range[1] as int,
    )
    &&& after == after_calls(before, instructions, config, calls, rets, calls.len() as int)
}

/// Whether `after` can come of analysing `binary` under one byte order.
/// The rankings leave the order of equally frequent values open, so there
/// may be more than one outcome.
pub open spec fn analysed(
    before: Seq<Candidate>,
    after: Seq<Candidate>,
    binary: Seq<u8>,
    config: Config,
    endiannes: Endiannes,
) -> bool {
    exists|calls: Seq<Count>, rets: Seq<Count>| #[trigger]
        is_analysis(before, after, binary, config, endiannes, calls, rets)
}

/// Scores one pair of hypotheses from the edges of the call hypothesis.
fn score_pair(
    binary: &[u8],
    config: &Config,
    endiannes: &Endiannes,
    call: Count,
    ret: Count,
    potential: &Vec<Edge>,
) -> (candidate: Option<Candidate>)
    requires
        config.wf(),
        *endiannes != Endiannes::Unknown,
        potential@.to_multiset() == potential_edges(
            decode(binary@, *endiannes, config.instr_len),
            call.0,
            *config,
        ).to_multiset(),
    ensures
        candidate == scored_pair(decode(binary@, *endiannes, config.instr_len), *config, call, ret),
{
    let ghost instructions = decode(binary@, *endiannes, config.instr_len);
    let ghost scanned = potential_edges(instructions, call.0, *config);
    let valid: Vec<Edge> = filter_valid_edges(binary, ret.0, config, potential, endiannes);
    proof {
        potential@.to_multiset_ensures();
        scanned.to_multiset_ensures();
        lemma_filter_len_of_permutation(
            potential@,
            scanned,
            |edge: Edge| is_valid_target(instructions, edge.1 as int, ret.0, *config),
        );
    }
    match Probability::new(valid.len(), potential.len(), call.1) {
        Some(probability) => Some(Candidate { probability, call_opcode: call.0, ret_opcode: ret.0 }),
        None => None,
    }
}

/// Analyses one slice under one byte order and offers what it finds to
/// `top_candidates`.
///
/// The call and the return candidates of the slice are ranked; for every
/// call candidate its edges are found, and for every return candidate the
/// valid ones among them are counted; each pair is scored from these
/// counts and offered to the structure, which keeps `nr_cand` of them.
pub fn analyse_instructions(
    binary_slice: &[u8],
    config: &Config,
    endiannes: &Endiannes,
    top_candidates: &mut MinHeap,
)
    requires
        config.wf(),
        *endiannes != Endiannes::Unknown,
    ensures
        analysed(old(top_candidates)@, final(top_candidates)@, binary_slice@, *config, *endiannes),
        old(top_candidates)@.len() <= config.nr_cand ==> final(top_candidates)@.len()
            <= config.nr_cand,
{
    let ghost instructions = decode(binary_slice@, *endiannes, config.instr_len);
    let ghost before = top_candidates@;
    let call_cand: Vec<Count> = call_candidates(binary_slice, config, endiannes);
    let ret_cand: Vec<Count> = ret_candidates(binary_slice, config, endiannes);
    let mut call_index: usize = 0;
    while call_index < call_cand.len()
        invariant
            config.wf(),
            *endiannes != Endiannes::Unknown,
            instructions == decode(binary_slice@, *endiannes, config.instr_len),
            call_index <= call_cand.len(),
            top_candidates@ == after_calls(
                before,
                instructions,
                *config,
                call_cand@,
                ret_cand@,
                call_index as int,
            ),
            before.len() <= config.nr_cand ==> top_candidates@.len() <= config.nr_cand,
        decreases call_cand.len() - call_index,
    {
        let call: Count = call_cand[call_index];
        let ghost row_start = top_candidates@;
        let potential: Vec<Edge> = find_potential_edges(binary_slice, call.0, config, endiannes);
        let mut ret_index: usize = 0;
        while ret_index < ret_cand.len()
            invariant
                config.wf(),
                *endiannes != Endiannes::Unknown,
                instructions == decode(binary_slice@, *endiannes, config.instr_len),
                ret_index <= ret_cand.len(),
                potential@.to_multiset() == potential_edges(
                    instructions,
                    call.0,
                    *config,
                ).to_multiset(),
                top_candidates@ == after_rets(
                    row_start,
                    instructions,
                    *config,
                    call,
                    ret_cand@,
                    ret_index as int,
                ),
                before.len() <= config.nr_cand ==> top_candidates@.len() <= config.nr_cand,
            decreases ret_cand.len() - ret_index,
        {
            let ret: Count = ret_cand[ret_index];
            match score_pair(binary_slice, config, endiannes, call, ret, &potential) {
                Some(candidate) => {
                    top_candidates.add_maybe(config.nr_cand, candidate);
                },
                None => {},
            }
            ret_index += 1;
        }
        call_index += 1;
    }
    assert(is_analysis(
        before,
        top_candidates@,
        binary_slice@,
        *config,
        *endiannes,
        call_cand@,
        ret_cand@,
    ));
}

/// `states` follows a whole run over `binary`: it starts with nothing
/// held, and each hypothesis of alignment and byte order, taken in the
/// order of their enumeration, leads from one state to the next by the
/// analysis of its slice.
pub open spec fn is_run(states: Seq<Seq<Candidate>>, binary: Seq<u8>, config: Config) -> bool {
    let orders = endiannes_to_try(config.endiannes);
    let per = orders.len() as int;
    &&& states.len() == instr_byte_len(config.instr_len) * per + 1
    &&& states[0] == Seq::<Candidate>::empty()
    &&& forall|alignment: int, choice: int|
        0 <= alignment < instr_byte_len(config.instr_len) && 0 <= choice < per ==> analysed(
            #[trigger] states[alignment * per + choice],
            states[alignment * per + choice + 1],
            aligned_region(binary, config, alignment),
            config,
            orders[choice],
        )
}

/// Analyses `binary` under every hypothesis of alignment and byte order,
/// one after the other, and returns the `nr_cand` best pairs of call and
/// return opcode, best first.
pub fn analyse_binary(binary: &[u8], config: &Config) -> (result: Vec<Candidate>)
    requires
        config.wf(),
    ensures
        exists|states: Seq<Seq<Candidate>>| #[trigger]
            is_run(states, binary@, *config) && result@ == states.last(),
        sorted_by_probability(result@),
        result.len() <= config.nr_cand,
{
    let hypotheses = iter_potential_instruction_configuration(binary, config);
    let mut top_candidates: MinHeap = MinHeap::default();
    let ghost mut states: Seq<Seq<Candidate>> = seq![top_candidates@];
    let mut index: usize = 0;
    while index < hypotheses.len()
        invariant
            config.wf(),
            index <= hypotheses.len(),
            forall|k: int|
                0 <= k < hypotheses@.len() ==> (#[trigger] hypotheses@[k]).1 != Endiannes::Unknown,
            states.len() == index + 1,
            states[0] == Seq::<Candidate>::empty(),
            states.last() == top_candidates@,
            top_candidates@.len() <= config.nr_cand,
            forall|k: int|
                0 <= k < index ==> analysed(
                    #[trigger] states[k],
                    states[k + 1],
                    hypotheses@[k].0@,
                    *config,
                    hypotheses@[k].1,
                ),
        decreases hypotheses.len() - index,
    {
        let (slice, endiannes) = hypotheses[index];
        let ghost earlier = states;
        analyse_instructions(slice, config, &endiannes, &mut top_candidates);
        proof {
            states = states.push(top_candidates@);
            assert forall|k: int| 0 <= k < index + 1 implies analysed(
                #[trigger] states[k],
                states[k + 1],
                hypotheses@[k].0@,
                *config,
                hypotheses@[k].1,
            ) by {
                if k < index {
                    assert(states[k] == earlier[k] && states[k + 1] == earlier[k + 1]);
                }
            }
        }
        index += 1;
    }
    proof {
        let orders = endiannes_to_try(config.endiannes);
        let per = orders.len() as int;
        let width = instr_byte_len(config.instr_len);
        assert forall|alignment: int, choice: int|
            0 <= alignment < width && 0 <= choice < per implies analysed(
            #[trigger] states[alignment * per + choice],
            states[alignment * per + choice + 1],
            aligned_region(binary@, *config, alignment),
            *config,
            orders[choice],
        ) by {
            let k = alignment * per + choice;
            assert(0 <= k < width * per) by (nonlinear_arith)
                requires
                    0 <= alignment < width,
                    0 <= choice < per,
                    k == alignment * per + choice,
            ;
            assert(hypotheses@[alignment * per + choice].1 == orders[choice]);
            assert(analysed(states[k], states[k + 1], hypotheses@[k].0@, *config, hypotheses@[k].1));
        }
        assert(is_run(states, binary@, *config));
    }
    top_candidates.get_result()
}

} // verus!
