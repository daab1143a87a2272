use vstd::prelude::*;
use itertools::Itertools;
use rustc_hash::{FxHashMap, FxHashSet};
use crate::config::Config;
use crate::endiannes::Endiannes;
use crate::iter_instructions::{count_instructions, decode, instruction_at, supported_width};

verus! {

/// A masked instruction value and the number of times it was seen.
pub type Count = (u64, usize);

/// A masked value is a candidate only where it occurs more often than this.
pub const NOISE_THRESHOLD: usize = 10;

/// Slices of more bytes than this have their return candidates drawn from
/// a sample window.
pub const SAMPLING_THRESHOLD: usize = 262144;

/// Index of the first instruction of the sample window.
pub const SAMPLE_START: usize = 8192;

/// Index after the last instruction of the sample window.
pub const SAMPLE_END: usize = 16384;

/// Room that a histogram is created with.
pub const HISTOGRAM_CAPACITY: usize = 1024;

/// Room that the set of sampled values is created with.
pub const SAMPLE_CAPACITY: usize = 8192;

/// The hasher builder of `rustc_hash`, which the histogram and the sample
/// are hashed with. Nothing is read from it.
///
/// vstd describes the maps and sets of std only for the hasher builders
/// that it knows, and this one is not among them. The functions below
/// therefore state, each for one method, that a map or set hashed by it
/// does what std documents of the method. That rests on
/// `FxBuildHasher::build_hasher`, which hands out a hasher in the same
/// state every time, so that equal keys always hash alike.
#[verifier::external_type_specification]
#[verifier::external_body]
pub struct ExFxBuildHasher(rustc_hash::FxBuildHasher);

/// `HashMap::with_capacity_and_hasher` of std, with the Fx hasher of
/// `rustc_hash`: a map without entries. The capacity is kept small, since
/// std gives up on one that it cannot allocate.
#[verifier::external_body]
fn new_histogram(capacity: usize) -> (counts: FxHashMap<u64, usize>)
    requires
        capacity <= 0x1_0000,
    ensures
        counts@ == (Map::<u64, usize>::empty()),
{
    FxHashMap::with_capacity_and_hasher(capacity, Default::default())
}

/// `HashMap::get` of std on a map hashed by `rustc_hash`: the count stored
/// under `value`, if there is one.
#[verifier::external_body]
fn histogram_get(counts: &FxHashMap<u64, usize>, value: u64) -> (count: Option<usize>)
    ensures
        count == if counts@.contains_key(value) {
            Some(counts@[value])
        } else {
            None
        },
{
    counts.get(&value).copied()
}

/// `HashMap::insert` of std on a map hashed by `rustc_hash`: afterwards
/// `value` maps to `count` and every other entry is as before.
#[verifier::external_body]
fn histogram_insert(counts: &mut FxHashMap<u64, usize>, value: u64, count: usize)
    ensures
        final(counts)@ == old(counts)@.insert(value, count),
{
    counts.insert(value, count);
}

/// `HashMap::into_iter` of std on a map hashed by `rustc_hash`, collected:
/// every entry of the map exactly once, in an order that is left open.
#[verifier::external_body]
fn histogram_entries(counts: FxHashMap<u64, usize>) -> (entries: Vec<Count>)
    ensures
        forall|i: int|
            0 <= i < entries.len() ==> counts@.contains_pair(
                (#[trigger] entries[i]).0,
                entries[i].1,
            ),
        forall|value: u64| #[trigger]
            counts@.contains_key(value) ==> exists|i: int|
                0 <= i < entries.len() && (#[trigger] entries[i]).0 == value,
        forall|i: int, j: int|
            0 <= i < j < entries.len() ==> (#[trigger] entries[i]).0 != (#[trigger] entries[j]).0,
{
    counts.into_iter().collect()
}

/// `HashSet::with_capacity_and_hasher` of std, with the Fx hasher of
/// `rustc_hash`: a set without elements. The capacity is kept small, since
/// std gives up on one that it cannot allocate.
#[verifier::external_body]
fn new_sample(capacity: usize) -> (sample: FxHashSet<u64>)
    requires
        capacity <= 0x1_0000,
    ensures
        sample@ == Set::<u64>::empty(),
{
    FxHashSet::with_capacity_and_hasher(capacity, Default::default())
}

/// `HashSet::insert` of std on a set hashed by `rustc_hash`: afterwards the
/// set holds `value` besides what it held.
#[verifier::external_body]
fn sample_insert(sample: &mut FxHashSet<u64>, value: u64)
    ensures
        final(sample)@ == old(sample)@.insert(value),
{
    sample.insert(value);
}

/// `HashSet::contains` of std on a set hashed by `rustc_hash`.
#[verifier::external_body]
fn sample_contains(sample: &FxHashSet<u64>, value: u64) -> (found: bool)
    ensures
        found == sample@.contains(value),
{
    sample.contains(&value)
}

/// `Itertools::sorted_by_key` with the count as key: the same entries in
/// ascending order of their counts. The sort is stable: entries with equal
/// counts keep the order in which they came. The entries are asked to
/// differ from each other, so that the place of each in the input is told
/// by `index_of`.
#[verifier::external_body]
fn sort_by_count(entries: Vec<Count>) -> (sorted: Vec<Count>)
    requires
        entries@.no_duplicates(),
    ensures
        sorted@.to_multiset() == entries@.to_multiset(),
        forall|i: int, j: int| 0 <= i <= j < sorted.len() ==> sorted[i].1 <= sorted[j].1,
        forall|i: int, j: int|
            0 <= i < j < sorted.len() && sorted[i].1 == sorted[j].1 ==> entries@.index_of(
                sorted[i],
            ) < entries@.index_of(sorted[j]),
{
    entries.into_iter().sorted_by_key(|entry| entry.1).collect()
}

/// Number of instructions whose value under `mask` is `value`.
pub open spec fn occurrences(instructions: Seq<u64>, mask: u64, value: u64) -> nat
    decreases instructions.len(),
{
    if instructions.len() == 0 {
        0
    } else {
        occurrences(instructions.drop_last(), mask, value) + if instructions.last() & mask
            == value {
            1nat
        } else {
            0nat
        }
    }
}

/// The histogram of an instruction stream under `mask`, kept to the values
/// in `domain`: each value that occurs maps to the number of its
/// occurrences.
pub open spec fn histogram(instructions: Seq<u64>, mask: u64, domain: Set<u64>) -> Map<u64, usize> {
    Map::new(
        |value: u64| domain.contains(value) && occurrences(instructions, mask, value) > 0,
        |value: u64| occurrences(instructions, mask, value) as usize,
    )
}

/// The masked values of the instructions in the sample window.
pub open spec fn sample_values(instructions: Seq<u64>, mask: u64) -> Set<u64> {
    Set::new(
        |value: u64|
            exists|index: int|
                SAMPLE_START <= index < SAMPLE_END && index < instructions.len()
                    && #[trigger] instructions[index] & mask == value,
    )
}

/// Whether `value` was counted often enough to be a candidate.
pub open spec fn frequent(counts: Map<u64, usize>, value: u64) -> bool {
    counts.contains_key(value) && counts[value] > NOISE_THRESHOLD
}

/// `list` holds each frequent value of `counts` once, with its count, and
/// nothing else.
pub open spec fn lists_frequent(list: Seq<Count>, counts: Map<u64, usize>) -> bool {
    &&& forall|i: int|
        0 <= i < list.len() ==> frequent(counts, (#[trigger] list[i]).0) && list[i].1
            == counts[list[i].0]
    &&& forall|value: u64| #[trigger]
        frequent(counts, value) ==> exists|i: int|
            0 <= i < list.len() && (#[trigger] list[i]).0 == value
    &&& forall|i: int, j: int|
        0 <= i < j < list.len() ==> (#[trigger] list[i]).0 != (#[trigger] list[j]).0
}

/// Counts never rise along `list`.
pub open spec fn descending(list: Seq<Count>) -> bool {
    forall|i: int, j: int| 0 <= i <= j < list.len() ==> list[i].1 >= list[j].1
}

/// `ranking` ranks the frequent values of `counts`: it lists each once and
/// the most frequent comes first. Values with equal counts may stand in
/// either order, so a histogram can have several rankings.
pub open spec fn is_ranking(ranking: Seq<Count>, counts: Map<u64, usize>) -> bool {
    lists_frequent(ranking, counts) && descending(ranking)
}

/// The ranks `skip .. skip + take` of `ranking`, as far as it reaches.
pub open spec fn window(ranking: Seq<Count>, skip: int, take: int) -> Seq<Count> {
    let start = if skip < ranking.len() {
        skip
    } else {
        ranking.len() as int
    };
    let end = if skip + take < ranking.len() {
        skip + take
    } else {
        ranking.len() as int
    };
    ranking.subrange(start, end)
}

/// `candidates` is the window `skip .. skip + take` of a ranking of `counts`.
pub open spec fn is_ranked_window(
    candidates: Seq<Count>,
    counts: Map<u64, usize>,
    skip: int,
    take: int,
) -> bool {
    exists|ranking: Seq<Count>| #[trigger]
        is_ranking(ranking, counts) && candidates == window(ranking, skip, take)
}

/// A value occurs at most as often as there are instructions.
pub proof fn lemma_occurrences_bound(instructions: Seq<u64>, mask: u64, value: u64)
    ensures
        occurrences(instructions, mask, value) <= instructions.len(),
    decreases instructions.len(),
{
    if instructions.len() > 0 {
        lemma_occurrences_bound(instructions.drop_last(), mask, value);
    }
}

/// One more instruction adds one occurrence of its masked value and none
/// of any other.
pub proof fn lemma_occurrences_step(instructions: Seq<u64>, mask: u64, value: u64, upto: int)
    requires
        0 <= upto < instructions.len(),
    ensures
        occurrences(instructions.take(upto + 1), mask, value) == occurrences(
            instructions.take(upto),
            mask,
            value,
        ) + if instructions[upto] & mask == value {
            1nat
        } else {
            0nat
        },
{
    assert(instructions.take(upto + 1).drop_last() =~= instructions.take(upto));
}

/// A value that was counted occurs somewhere.
pub proof fn lemma_occurs_somewhere(instructions: Seq<u64>, mask: u64, value: u64)
    requires
        occurrences(instructions, mask, value) > 0,
    ensures
        exists|index: int|
            0 <= index < instructions.len() && #[trigger] instructions[index] & mask == value,
    decreases instructions.len(),
{
    if instructions.last() & mask == value {
        assert(instructions[instructions.len() - 1] & mask == value);
    } else {
        lemma_occurs_somewhere(instructions.drop_last(), mask, value);
        let index = choose|index: int|
            0 <= index < instructions.drop_last().len() && #[trigger] instructions.drop_last()[index]
                & mask == value;
        assert(instructions[index] & mask == value);
    }
}

/// The values that a histogram is kept to: those of the sample, or all.
pub open spec fn domain_of(sample: Option<&FxHashSet<u64>>) -> Set<u64> {
    match sample {
        Some(values) => values@,
        None => Set::full(),
    }
}

/// Collects the masked values of the instructions in the sample window.
fn collect_sample(binary: &[u8], endiannes: &Endiannes, instr_len: u64, mask: u64) -> (sample:
    FxHashSet<u64>)
    requires
        supported_width(instr_len),
        *endiannes != Endiannes::Unknown,
    ensures
        sample@ == sample_values(decode(binary@, *endiannes, instr_len), mask),
{
    let ghost instructions = decode(binary@, *endiannes, instr_len);
    let count: usize = count_instructions(binary, instr_len);
    let end: usize = if count < SAMPLE_END {
        count
    } else {
        SAMPLE_END
    };
    let mut sample: FxHashSet<u64> = new_sample(SAMPLE_CAPACITY);
    let mut index: usize = SAMPLE_START;
    while index < end
        invariant
            supported_width(instr_len),
            *endiannes != Endiannes::Unknown,
            instructions == decode(binary@, *endiannes, instr_len),
            count == instructions.len(),
            end <= count,
            end <= SAMPLE_END,
            SAMPLE_START <= index,
            index <= end || index == SAMPLE_START,
            forall|value: u64|
                sample@.contains(value) <==> exists|at: int|
                    SAMPLE_START <= at < index && #[trigger] instructions[at] & mask == value,
        decreases end - index,
    {
        let instr: u64 = instruction_at(binary, endiannes, instr_len, index);
        let ghost before = sample@;
        sample_insert(&mut sample, instr & mask);
        assert forall|value: u64| sample@.contains(value) <==> exists|at: int|
            SAMPLE_START <= at < index + 1 && #[trigger] instructions[at] & mask == value by {
            if before.contains(value) {
                let at = choose|at: int|
                    SAMPLE_START <= at < index && #[trigger] instructions[at] & mask == value;
                assert(SAMPLE_START <= at < index + 1 && instructions[at] & mask == value);
            }
            if value == instr & mask {
                assert(instructions[index as int] & mask == value);
            }
        }
        index += 1;
    }
    assert(sample@ =~= sample_values(instructions, mask)) by {
        assert forall|value: u64| sample@.contains(value) <==> sample_values(
            instructions,
            mask,
        ).contains(value) by {
            if sample@.contains(value) {
                let at = choose|at: int|
                    SAMPLE_START <= at < index && #[trigger] instructions[at] & mask == value;
                assert(SAMPLE_START <= at < SAMPLE_END && at < instructions.len() && instructions[at]
                    & mask == value);
            }
            if sample_values(instructions, mask).contains(value) {
                let at = choose|at: int|
                    SAMPLE_START <= at < SAMPLE_END && at < instructions.len()
                        && #[trigger] instructions[at] & mask == value;
                assert(SAMPLE_START <= at < index && instructions[at] & mask == value);
            }
        }
    }
    sample
}

/// Counts the masked values of all instructions of `binary`; with a sample,
/// only the values that the sample holds.
fn count_masked(
    binary: &[u8],
    endiannes: &Endiannes,
    instr_len: u64,
    mask: u64,
    sample: Option<&FxHashSet<u64>>,
) -> (counts: FxHashMap<u64, usize>)
    requires
        supported_width(instr_len),
        *endiannes != Endiannes::Unknown,
    ensures
        counts@ == histogram(decode(binary@, *endiannes, instr_len), mask, domain_of(sample)),
{
    let ghost instructions = decode(binary@, *endiannes, instr_len);
    let ghost domain = domain_of(sample);
    let count: usize = count_instructions(binary, instr_len);
    let mut counts: FxHashMap<u64, usize> = new_histogram(HISTOGRAM_CAPACITY);
    let mut index: usize = 0;
    assert(counts@ =~= histogram(instructions.take(0), mask, domain));
    while index < count
        invariant
            supported_width(instr_len),
            *endiannes != Endiannes::Unknown,
            instructions == decode(binary@, *endiannes, instr_len),
            domain == domain_of(sample),
            count == instructions.len(),
            index <= count,
            counts@ == histogram(instructions.take(index as int), mask, domain),
        decreases count - index,
    {
        let value: u64 = instruction_at(binary, endiannes, instr_len, index) & mask;
        let counted: bool = match sample {
            Some(values) => sample_contains(values, value),
            None => true,
        };
        proof {
            lemma_occurrences_bound(instructions.take(index as int), mask, value);
            assert forall|other: u64|
                occurrences(instructions.take(index + 1), mask, other) == occurrences(
                    instructions.take(index as int),
                    mask,
                    other,
                ) + if other == value {
                    1nat
                } else {
                    0nat
                } by {
                lemma_occurrences_step(instructions, mask, other, index as int);
            }
        }
        if counted {
            match histogram_get(&counts, value) {
                Some(seen) => {
                    histogram_insert(&mut counts, value, seen + 1);
                },
                None => {
                    histogram_insert(&mut counts, value, 1);
                },
            }
        }
        assert(counts@ =~= histogram(instructions.take(index + 1), mask, domain));
        index += 1;
    }
    assert(instructions.take(index as int) =~= instructions);
    counts
}

/// Each value once makes each entry once.
pub proof fn lemma_distinct_values_no_duplicates(list: Seq<Count>)
    requires
        forall|i: int, j: int|
            0 <= i < j < list.len() ==> (#[trigger] list[i]).0 != (#[trigger] list[j]).0,
    ensures
        list.no_duplicates(),
{
    assert forall|i: int, j: int| 0 <= i < list.len() && 0 <= j < list.len() && i != j implies list[i]
        != list[j] by {
        if i < j {
            assert(list[i].0 != list[j].0);
        } else {
            assert(list[j].0 != list[i].0);
        }
    }
}

/// Putting a list of the frequent values in another order leaves it a list
/// of the frequent values.
pub proof fn lemma_permutation_lists_frequent(
    from: Seq<Count>,
    to: Seq<Count>,
    counts: Map<u64, usize>,
)
    requires
        from.to_multiset() == to.to_multiset(),
        lists_frequent(from, counts),
    ensures
        lists_frequent(to, counts),
{
    from.to_multiset_ensures();
    to.to_multiset_ensures();
    lemma_distinct_values_no_duplicates(from);
    from.lemma_multiset_has_no_duplicates();
    to.lemma_multiset_has_no_duplicates_conv();
    assert forall|i: int| 0 <= i < to.len() implies frequent(counts, (#[trigger] to[i]).0) && to[i].1
        == counts[to[i].0] by {
        assert(to.contains(to[i]));
        assert(from.to_multiset().count(to[i]) > 0);
        assert(from.contains(to[i]));
        let at = from.index_of(to[i]);
        assert(from[at] == to[i]);
    }
    assert forall|value: u64| #[trigger] frequent(counts, value) implies exists|i: int|
        0 <= i < to.len() && (#[trigger] to[i]).0 == value by {
        let at = choose|at: int| 0 <= at < from.len() && (#[trigger] from[at]).0 == value;
        assert(from.contains(from[at]));
        assert(to.to_multiset().count(from[at]) > 0);
        assert(to.contains(from[at]));
        let i = to.index_of(from[at]);
        assert(to[i].0 == value);
    }
    assert forall|i: int, j: int| 0 <= i < j < to.len() implies (#[trigger] to[i]).0 != (
    #[trigger] to[j]).0 by {
        if to[i].0 == to[j].0 {
            assert(to[i].1 == counts[to[i].0]);
            assert(to[j].1 == counts[to[j].0]);
            assert(to[i] == to[j]);
        }
    }
}

/// `entries` holds each entry of `counts` once and nothing else.
pub open spec fn lists_entries(entries: Seq<Count>, counts: Map<u64, usize>) -> bool {
    &&& forall|i: int|
        0 <= i < entries.len() ==> counts.contains_pair((#[trigger] entries[i]).0, entries[i].1)
    &&& forall|value: u64| #[trigger]
        counts.contains_key(value) ==> exists|i: int|
            0 <= i < entries.len() && (#[trigger] entries[i]).0 == value
    &&& forall|i: int, j: int|
        0 <= i < j < entries.len() ==> (#[trigger] entries[i]).0 != (#[trigger] entries[j]).0
}

/// Whether an entry was counted often enough.
pub open spec fn above_noise(entry: Count) -> bool {
    entry.1 > NOISE_THRESHOLD
}

/// What is left after filtering are the entries of the list that pass.
pub proof fn lemma_filter_members(list: Seq<Count>, keep: spec_fn(Count) -> bool, entry: Count)
    ensures
        list.filter(keep).contains(entry) <==> list.contains(entry) && keep(entry),
    decreases list.len(),
{
    reveal(Seq::filter);
    if list.len() > 0 {
        let shorter = list.drop_last();
        lemma_filter_members(shorter, keep, entry);
        let kept = shorter.filter(keep);
        if list.contains(entry) {
            let at = list.index_of(entry);
            if at < shorter.len() {
                assert(shorter[at] == entry);
            }
        }
        if shorter.contains(entry) {
            let at = shorter.index_of(entry);
            assert(list[at] == entry);
        }
        if keep(list.last()) {
            let longer = kept.push(list.last());
            assert(longer[kept.len() as int] == list.last());
            if kept.contains(entry) {
                let at = kept.index_of(entry);
                assert(longer[at] == entry);
            }
            if longer.contains(entry) {
                let at = longer.index_of(entry);
                if at < kept.len() {
                    assert(kept[at] == entry);
                }
            }
        }
        assert(list[list.len() - 1] == list.last());
    }
}

/// Filtering a list with each value once leaves each value at most once.
pub proof fn lemma_filter_distinct(list: Seq<Count>, keep: spec_fn(Count) -> bool)
    requires
        forall|i: int, j: int|
            0 <= i < j < list.len() ==> (#[trigger] list[i]).0 != (#[trigger] list[j]).0,
    ensures
        forall|i: int, j: int|
            0 <= i < j < list.filter(keep).len() ==> (#[trigger] list.filter(keep)[i]).0 != (
            #[trigger] list.filter(keep)[j]).0,
    decreases list.len(),
{
    reveal(Seq::filter);
    if list.len() > 0 {
        let shorter = list.drop_last();
        let kept = shorter.filter(keep);
        assert forall|i: int, j: int| 0 <= i < j < shorter.len() implies (#[trigger] shorter[i]).0
            != (#[trigger] shorter[j]).0 by {
            assert(list[i].0 != list[j].0);
        }
        lemma_filter_distinct(shorter, keep);
        if keep(list.last()) {
            let longer = list.filter(keep);
            assert forall|i: int, j: int| 0 <= i < j < longer.len() implies (#[trigger] longer[i]).0
                != (#[trigger] longer[j]).0 by {
                if j < kept.len() {
                    assert(kept[i].0 != kept[j].0);
                } else {
                    lemma_filter_members(shorter, keep, kept[i]);
                    assert(kept.contains(kept[i]));
                    let at = shorter.index_of(kept[i]);
                    assert(list[at].0 != list[list.len() - 1].0);
                }
            }
        }
    }
}

/// The entries of a histogram that are above the noise threshold list its
/// frequent values.
pub proof fn lemma_filter_lists_frequent(entries: Seq<Count>, counts: Map<u64, usize>)
    requires
        lists_entries(entries, counts),
    ensures
        lists_frequent(entries.filter(|entry: Count| above_noise(entry)), counts),
{
    let keep = |entry: Count| above_noise(entry);
    let kept = entries.filter(keep);
    assert forall|k: int| 0 <= k < kept.len() implies frequent(counts, (#[trigger] kept[k]).0)
        && kept[k].1 == counts[kept[k].0] by {
        lemma_filter_members(entries, keep, kept[k]);
        assert(kept.contains(kept[k]));
        let at = entries.index_of(kept[k]);
        assert(counts.contains_pair(entries[at].0, entries[at].1));
    }
    assert forall|value: u64| #[trigger] frequent(counts, value) implies exists|k: int|
        0 <= k < kept.len() && (#[trigger] kept[k]).0 == value by {
        let at = choose|at: int| 0 <= at < entries.len() && (#[trigger] entries[at]).0 == value;
        assert(counts.contains_pair(entries[at].0, entries[at].1));
        lemma_filter_members(entries, keep, entries[at]);
        assert(entries.contains(entries[at]));
        let k = kept.index_of(entries[at]);
        assert(kept[k].0 == value);
    }
    lemma_filter_distinct(entries, keep);
}

/// The entries that were counted more often than the noise threshold, in
/// their order.
fn keep_frequent(entries: &Vec<Count>) -> (kept: Vec<Count>)
    ensures
        kept@ == entries@.filter(|entry: Count| above_noise(entry)),
{
    let ghost keep = |entry: Count| above_noise(entry);
    let mut kept: Vec<Count> = Vec::new();
    let mut index: usize = 0;
    assert(entries@.take(0).filter(keep) =~= Seq::empty()) by {
        reveal(Seq::filter);
    }
    while index < entries.len()
        invariant
            index <= entries.len(),
            keep == |entry: Count| above_noise(entry),
            kept@ == entries@.take(index as int).filter(keep),
        decreases entries.len() - index,
    {
        let entry: Count = entries[index];
        proof {
            reveal(Seq::filter);
            assert(entries@.take(index + 1).drop_last() =~= entries@.take(index as int));
        }
        if entry.1 > NOISE_THRESHOLD {
            kept.push(entry);
        }
        index += 1;
    }
    assert(entries@.take(index as int) =~= entries@);
    kept
}

/// The ranks `skip .. skip + take` of a list that is sorted by rising
/// count, counted from its end.
fn window_from_end(sorted: &Vec<Count>, skip: usize, take: usize) -> (candidates: Vec<Count>)
    ensures
        candidates@ == window(sorted@.reverse(), skip as int, take as int),
{
    let ghost ranking = sorted@.reverse();
    let total: usize = sorted.len();
    let start: usize = if skip < total {
        skip
    } else {
        total
    };
    let end: usize = if take < total - start {
        start + take
    } else {
        total
    };
    let mut candidates: Vec<Count> = Vec::new();
    let mut rank: usize = start;
    while rank < end
        invariant
            start <= rank <= end <= total,
            total == sorted.len(),
            ranking == sorted@.reverse(),
            candidates@ == ranking.subrange(start as int, rank as int),
        decreases end - rank,
    {
        candidates.push(sorted[total - 1 - rank]);
        assert(candidates@ =~= ranking.subrange(start as int, rank + 1));
        rank += 1;
    }
    candidates
}

/// Ranks the frequent values of a histogram and hands out the ranks
/// `skip .. skip + take`.
fn ranked_window(counts: FxHashMap<u64, usize>, skip: usize, take: usize) -> (candidates: Vec<
    Count,
>)
    ensures
        is_ranked_window(candidates@, counts@, skip as int, take as int),
{
    let ghost view = counts@;
    let entries: Vec<Count> = histogram_entries(counts);
    assert(lists_entries(entries@, view));
    let kept: Vec<Count> = keep_frequent(&entries);
    proof {
        lemma_filter_lists_frequent(entries@, view);
        lemma_distinct_values_no_duplicates(kept@);
    }
    let sorted: Vec<Count> = sort_by_count(kept);
    proof {
        sorted@.lemma_reverse_to_multiset();
        lemma_permutation_lists_frequent(kept@, sorted@.reverse(), view);
        assert(descending(sorted@.reverse()));
        assert(is_ranking(sorted@.reverse(), view));
    }
    window_from_end(&sorted, skip, take)
}

/// The values that return candidates are drawn from: in a slice of more
/// than `SAMPLING_THRESHOLD` bytes those of the sample window, else all.
pub open spec fn ret_domain(binary: Seq<u8>, instructions: Seq<u64>, mask: u64) -> Set<u64> {
    if binary.len() > SAMPLING_THRESHOLD {
        sample_values(instructions, mask)
    } else {
        Set::full()
    }
}

/// Ranks the values that the instructions of `binary` take under the call
/// opcode mask and returns the ranks asked for by `call_search_range`.
///
/// The whole slice is counted. Values seen `NOISE_THRESHOLD` times or
/// fewer are left out; the others are ranked by falling count, and of that
/// ranking the window that starts after `call_search_range[0]` ranks and
/// holds up to `call_search_range[1]` of them is returned, each value with
/// its count. Which of two values with equal counts ranks first is left
/// open.
pub fn call_candidates(binary: &[u8], config: &Config, endiannes: &Endiannes) -> (candidates: Vec<
    Count,
>)
    requires
        config.wf(),
        *endiannes != Endiannes::Unknown,
    ensures
        is_ranked_window(
            candidates@,
            histogram(
                decode(binary@, *endiannes, config.instr_len),
                config.call_opcode_mask,
                Set::full(),
            ),
            config.call_search_range[0] as int,
            config.call_search_range[1] as int,
        ),
{
    let counts: FxHashMap<u64, usize> = count_masked(
        binary,
        endiannes,
        config.instr_len,
        config.call_opcode_mask,
        None,
    );
    ranked_window(counts, config.call_search_range[0], config.call_search_range[1])
}

/// Ranks the values that the instructions of `binary` take under the
/// return opcode mask and returns the ranks asked for by
/// `ret_search_range`.
///
/// It works as `call_candidates` does, but for one thing: in a slice of
/// more than `SAMPLING_THRESHOLD` bytes only the values that occur in the
/// sample window, the instructions `SAMPLE_START .. SAMPLE_END`, are
/// counted. A return opcode that the window does not hold is then missed.
pub fn ret_candidates(binary: &[u8], config: &Config, endiannes: &Endiannes) -> (candidates: Vec<
    Count,
>)
    requires
        config.wf(),
        *endiannes != Endiannes::Unknown,
    ensures
        is_ranked_window(
            candidates@,
            histogram(
                decode(binary@, *endiannes, config.instr_len),
                config.ret_opcode_mask,
                ret_domain(
                    binary@,
                    decode(binary@, *endiannes, config.instr_len),
                    config.ret_opcode_mask,
                ),
            ),
            config.ret_search_range[0] as int,
            config.ret_search_range[1] as int,
        ),
{
    let counts: FxHashMap<u64, usize> = if binary.len() > SAMPLING_THRESHOLD {
        let sample: FxHashSet<u64> = collect_sample(
            binary,
            endiannes,
            config.instr_len,
            config.ret_opcode_mask,
        );
        count_masked(binary, endiannes, config.instr_len, config.ret_opcode_mask, Some(&sample))
    } else {
        count_masked(binary, endiannes, config.instr_len, config.ret_opcode_mask, None)
    };
    ranked_window(counts, config.ret_search_range[0], config.ret_search_range[1])
}

/// Where all instructions take one of two values under the mask, and
/// both values are frequent, the first rank goes to the value that occurs
/// more often: the window of one rank from the top holds exactly that
/// value with its count.
pub proof fn lemma_more_frequent_ranks_first(
    candidates: Seq<Count>,
    instructions: Seq<u64>,
    mask: u64,
    more: u64,
    less: u64,
)
    requires
        instructions.len() <= usize::MAX,
        forall|index: int|
            0 <= index < instructions.len() ==> #[trigger] instructions[index] & mask == more
                || instructions[index] & mask == less,
        occurrences(instructions, mask, more) > occurrences(instructions, mask, less),
        occurrences(instructions, mask, less) > NOISE_THRESHOLD,
        is_ranked_window(candidates, histogram(instructions, mask, Set::full()), 0, 1),
    ensures
        candidates == seq![(more, occurrences(instructions, mask, more) as usize)],
{
    let counts = histogram(instructions, mask, Set::full());
    let ranking = choose|ranking: Seq<Count>| #[trigger]
        is_ranking(ranking, counts) && candidates == window(ranking, 0, 1);
    lemma_occurrences_bound(instructions, mask, more);
    lemma_occurrences_bound(instructions, mask, less);
    assert(frequent(counts, more));
    assert(frequent(counts, less));
    let first = choose|i: int| 0 <= i < ranking.len() && (#[trigger] ranking[i]).0 == more;
    assert(ranking[first].1 == counts[more]);
    assert(frequent(counts, ranking[0].0));
    lemma_occurs_somewhere(instructions, mask, ranking[0].0);
    if ranking[0].0 == less {
        assert(ranking[0].1 == counts[less]);
        assert(ranking[0].1 >= ranking[first].1);
    }
    assert(ranking[0].0 == more);
    assert(candidates =~= seq![ranking[0]]);
}

/// A value of the sample is counted in the sampled histogram as it is in
/// the full one.
pub proof fn lemma_sample_keeps_counts(
    instructions: Seq<u64>,
    mask: u64,
    sample: Set<u64>,
    value: u64,
)
    requires
        sample.contains(value),
    ensures
        histogram(instructions, mask, sample).contains_key(value) == histogram(
            instructions,
            mask,
            Set::full(),
        ).contains_key(value),
        histogram(instructions, mask, sample).contains_key(value) ==> histogram(
            instructions,
            mask,
            sample,
        )[value] == histogram(instructions, mask, Set::full())[value],
{
}

/// Where every frequent value of the stream occurs in the sample, counting
/// only the sampled values changes nothing: the sampled histogram and the
/// full one have the same rankings, and so the same windows.
pub proof fn lemma_sampling_keeps_rankings(instructions: Seq<u64>, mask: u64, sample: Set<u64>)
    requires
        forall|value: u64| #[trigger]
            frequent(histogram(instructions, mask, Set::full()), value) ==> sample.contains(value),
    ensures
        forall|ranking: Seq<Count>|
            is_ranking(ranking, histogram(instructions, mask, sample)) == is_ranking(
                ranking,
                histogram(instructions, mask, Set::full()),
            ),
        forall|candidates: Seq<Count>, skip: int, take: int|
            is_ranked_window(candidates, histogram(instructions, mask, sample), skip, take)
                == is_ranked_window(
                candidates,
                histogram(instructions, mask, Set::full()),
                skip,
                take,
            ),
{
    let sampled = histogram(instructions, mask, sample);
    let full = histogram(instructions, mask, Set::full());
    assert forall|value: u64| frequent(sampled, value) == frequent(full, value) by {
        if frequent(full, value) {
            assert(sample.contains(value));
        }
    }
    assert forall|ranking: Seq<Count>| is_ranking(ranking, sampled) == is_ranking(
        ranking,
        full,
    ) by {
        if lists_frequent(ranking, sampled) {
            assert forall|value: u64| #[trigger] frequent(full, value) implies exists|i: int|
                0 <= i < ranking.len() && (#[trigger] ranking[i]).0 == value by {
                assert(frequent(sampled, value));
            }
            assert(lists_frequent(ranking, full));
        }
        if lists_frequent(ranking, full) {
            assert forall|value: u64| #[trigger] frequent(sampled, value) implies exists|i: int|
                0 <= i < ranking.len() && (#[trigger] ranking[i]).0 == value by {
                assert(frequent(full, value));
            }
            assert(lists_frequent(ranking, sampled));
        }
    }
    assert forall|candidates: Seq<Count>, skip: int, take: int|
        is_ranked_window(candidates, sampled, skip, take) == is_ranked_window(
            candidates,
            full,
            skip,
            take,
        ) by {
        if is_ranked_window(candidates, sampled, skip, take) {
            let ranking = choose|ranking: Seq<Count>| #[trigger]
                is_ranking(ranking, sampled) && candidates == window(ranking, skip, take);
            assert(is_ranking(ranking, full));
        }
        if is_ranked_window(candidates, full, skip, take) {
            let ranking = choose|ranking: Seq<Count>| #[trigger]
                is_ranking(ranking, full) && candidates == window(ranking, skip, take);
            assert(is_ranking(ranking, sampled));
        }
    }
}

} // verus!
