use vstd::prelude::*;

verus! {

/// The largest count that a probability is made from. No slice holds more
/// instructions.
pub const MAX_COUNT: u64 = 0x7fff_ffff_ffff_ffff;

/// The score of a pair of call and return opcodes: a ratio that weighs the
/// valid edges twice as heavily as the potential ones,
/// `(2 * valid / calls + potential / calls) / 3`. It is kept exactly, as
/// the fraction `(2 * valid + potential) / (3 * calls)`.
#[derive(Clone, Copy, Debug)]
pub struct Probability {
    weighted_edges: u128,
    call_count: u64,
}

impl Probability {
    /// The numerator `2 * valid + potential`.
    pub closed spec fn numerator(self) -> int {
        self.weighted_edges as int
    }

    /// The denominator `3 * calls`.
    pub closed spec fn denominator(self) -> int {
        3 * self.call_count
    }

    /// A probability has a positive denominator and comes from counts of
    /// at most `MAX_COUNT`.
    pub closed spec fn wf(self) -> bool {
        &&& 0 < self.call_count <= MAX_COUNT
        &&& self.weighted_edges <= 3 * MAX_COUNT
    }

    #[verifier::type_invariant]
    spec fn type_inv(self) -> bool {
        self.wf()
    }

    /// Whether this ratio is at least `other`.
    pub open spec fn at_least(self, other: Probability) -> bool {
        self.numerator() * other.denominator() >= other.numerator() * self.denominator()
    }

    /// The score made from the counts of valid edges, of potential edges
    /// and of call instructions; `None` without a call and where a count
    /// is above `MAX_COUNT`.
    pub closed spec fn from_counts(
        valid_edge_count: usize,
        potential_edge_count: usize,
        call_count: usize,
    ) -> Option<Probability> {
        if 0 < call_count <= MAX_COUNT && valid_edge_count <= MAX_COUNT && potential_edge_count
            <= MAX_COUNT {
            Some(
                Probability {
                    weighted_edges: (2 * valid_edge_count + potential_edge_count) as u128,
                    call_count: call_count as u64,
                },
            )
        } else {
            None
        }
    }

    /// What `from_counts` makes: a well-formed score with the numerator
    /// `2 * valid + potential` and the denominator `3 * calls`, for every
    /// positive number of calls and counts up to `MAX_COUNT`.
    pub proof fn lemma_from_counts(
        valid_edge_count: usize,
        potential_edge_count: usize,
        call_count: usize,
    )
        ensures
            Self::from_counts(valid_edge_count, potential_edge_count, call_count).is_some() == (0
                < call_count <= MAX_COUNT && valid_edge_count <= MAX_COUNT && potential_edge_count
                <= MAX_COUNT),
            Self::from_counts(valid_edge_count, potential_edge_count, call_count).is_some() ==> {
                let score = Self::from_counts(
                    valid_edge_count,
                    potential_edge_count,
                    call_count,
                ).unwrap();
                &&& score.wf()
                &&& score.numerator() == 2 * valid_edge_count + potential_edge_count
                &&& score.denominator() == 3 * call_count
            },
    {
    }

    /// Scores a pair of opcodes from its counts of valid edges, of
    /// potential edges and of call instructions. There is no score without
    /// a call, nor from a count above `MAX_COUNT`.
    pub fn new(valid_edge_count: usize, potential_edge_count: usize, call_count: usize) -> (score:
        Option<Probability>)
        ensures
            score == Self::from_counts(valid_edge_count, potential_edge_count, call_count),
            score.is_some() == (0 < call_count <= MAX_COUNT && valid_edge_count <= MAX_COUNT
                && potential_edge_count <= MAX_COUNT),
            score.is_some() ==> {
                &&& score.unwrap().wf()
                &&& score.unwrap().numerator() == 2 * valid_edge_count + potential_edge_count
                &&& score.unwrap().denominator() == 3 * call_count
            },
    {
        if call_count == 0 || call_count as u64 > MAX_COUNT || valid_edge_count as u64 > MAX_COUNT
            || potential_edge_count as u64 > MAX_COUNT {
            return None;
        }
        Some(
            Probability {
                weighted_edges: 2 * (valid_edge_count as u128) + potential_edge_count as u128,
                call_count: call_count as u64,
            },
        )
    }

    /// The numerator `2 * valid + potential` of the score.
    pub fn numerator_value(&self) -> (value: u128)
        ensures
            value == self.numerator(),
    {
        self.weighted_edges
    }

    /// The denominator `3 * calls` of the score.
    pub fn denominator_value(&self) -> (value: u128)
        ensures
            value == self.denominator(),
    {
        3 * (self.call_count as u128)
    }

    /// Compares two scores exactly.
    pub fn is_at_least(&self, other: &Probability) -> (result: bool)
        ensures
            result == self.at_least(*other),
    {
        proof {
            use_type_invariant(self);
            use_type_invariant(other);
            lemma_cross_products(
                self.weighted_edges as int,
                self.call_count as int,
                other.weighted_edges as int,
                other.call_count as int,
            );
        }
        self.weighted_edges * (other.call_count as u128) >= other.weighted_edges * (
        self.call_count as u128)
    }
}

/// Cross products of scores fit 128 bits, and the common factor 3 of the
/// denominators does not change how two scores compare.
proof fn lemma_cross_products(a: int, c: int, b: int, d: int)
    by (nonlinear_arith)
    requires
        0 <= a <= 3 * MAX_COUNT,
        0 <= b <= 3 * MAX_COUNT,
        0 < c <= MAX_COUNT,
        0 < d <= MAX_COUNT,
    ensures
        0 <= a * d <= u128::MAX,
        0 <= b * c <= u128::MAX,
        (a * d >= b * c) == (a * (3 * d) >= b * (3 * c)),
{
}

/// Two scores compare one way or the other.
pub proof fn lemma_at_least_total(a: Probability, b: Probability)
    ensures
        a.at_least(b) || b.at_least(a),
{
}

/// A score that is at least a second one, which is at least a third, is
/// at least the third.
pub proof fn lemma_at_least_transitive(a: Probability, b: Probability, c: Probability)
    requires
        a.wf(),
        b.wf(),
        c.wf(),
        a.at_least(b),
        b.at_least(c),
    ensures
        a.at_least(c),
{
    let (na, da) = (a.numerator(), a.denominator());
    let (nb, db) = (b.numerator(), b.denominator());
    let (nc, dc) = (c.numerator(), c.denominator());
    assert(na * dc >= nc * da) by (nonlinear_arith)
        requires
            0 <= na,
            0 <= nb,
            0 <= nc,
            0 < da,
            0 < db,
            0 < dc,
            na * db >= nb * da,
            nb * dc >= nc * db,
    {
        assert((na * db) * dc >= (nb * da) * dc);
        assert((nb * dc) * da >= (nc * db) * da);
        assert((na * dc) * db >= (nc * da) * db);
    }
}

/// A pair of opcodes with its score.
#[derive(Clone, Copy, Debug)]
pub struct Candidate {
    pub probability: Probability,
    pub call_opcode: u64,
    pub ret_opcode: u64,
}

/// Every candidate of `list` has a well-formed score.
pub open spec fn all_wf(list: Seq<Candidate>) -> bool {
    forall|i: int| 0 <= i < list.len() ==> (#[trigger] list[i]).probability.wf()
}

/// The scores never rise along `list`.
pub open spec fn sorted_by_probability(list: Seq<Candidate>) -> bool {
    forall|i: int, j: int|
        0 <= i <= j < list.len() ==> (#[trigger] list[i]).probability.at_least(
            (#[trigger] list[j]).probability,
        )
}

/// The rank at which `candidate` enters `list`: behind the last candidate
/// that scores at least as high.
pub open spec fn entry_rank(list: Seq<Candidate>, candidate: Candidate) -> int
    decreases list.len(),
{
    if list.len() == 0 {
        0
    } else if list.last().probability.at_least(candidate.probability) {
        list.len() as int
    } else {
        entry_rank(list.drop_last(), candidate)
    }
}

/// `list` with `candidate` entered at its rank.
pub open spec fn entered(list: Seq<Candidate>, candidate: Candidate) -> Seq<Candidate> {
    list.insert(entry_rank(list, candidate), candidate)
}

/// What a structure of `nr_cand` places that holds `list` holds after
/// `candidate` is offered: the candidate enters, and if that is one too
/// many the last, which scores lowest, leaves.
pub open spec fn offer(list: Seq<Candidate>, nr_cand: int, candidate: Candidate) -> Seq<Candidate> {
    if entered(list, candidate).len() > nr_cand {
        entered(list, candidate).drop_last()
    } else {
        entered(list, candidate)
    }
}

/// The candidate that leaves when `candidate` is offered, if one does.
pub open spec fn evicted(list: Seq<Candidate>, nr_cand: int, candidate: Candidate) -> Option<
    Candidate,
> {
    if entered(list, candidate).len() > nr_cand {
        Some(entered(list, candidate).last())
    } else {
        None
    }
}

/// The entry rank parts the list: before it every score is at least the
/// candidate's, from it on every score is lower.
pub proof fn lemma_entry_rank(list: Seq<Candidate>, candidate: Candidate)
    requires
        all_wf(list),
        candidate.probability.wf(),
        sorted_by_probability(list),
    ensures
        0 <= entry_rank(list, candidate) <= list.len(),
        forall|i: int|
            0 <= i < entry_rank(list, candidate) ==> (#[trigger] list[i]).probability.at_least(
                candidate.probability,
            ),
        forall|i: int|
            entry_rank(list, candidate) <= i < list.len() ==> !(
            #[trigger] list[i]).probability.at_least(candidate.probability),
    decreases list.len(),
{
    if list.len() > 0 {
        if list.last().probability.at_least(candidate.probability) {
            assert forall|i: int| 0 <= i < list.len() implies (
            #[trigger] list[i]).probability.at_least(candidate.probability) by {
                assert(list[i].probability.at_least(list[list.len() - 1].probability));
                lemma_at_least_transitive(
                    list[i].probability,
                    list.last().probability,
                    candidate.probability,
                );
            }
        } else {
            let shorter = list.drop_last();
            assert forall|i: int, j: int| 0 <= i <= j < shorter.len() implies (
            #[trigger] shorter[i]).probability.at_least((#[trigger] shorter[j]).probability) by {
                assert(list[i].probability.at_least(list[j].probability));
            }
            assert forall|i: int| 0 <= i < shorter.len() implies (
            #[trigger] shorter[i]).probability.wf() by {
                assert(list[i].probability.wf());
            }
            lemma_entry_rank(shorter, candidate);
            assert forall|i: int| 0 <= i < entry_rank(list, candidate) implies (
            #[trigger] list[i]).probability.at_least(candidate.probability) by {
                assert(shorter[i].probability.at_least(candidate.probability));
            }
            assert forall|i: int| entry_rank(list, candidate) <= i < list.len() implies !(
            #[trigger] list[i]).probability.at_least(candidate.probability) by {
                if i < shorter.len() {
                    assert(!shorter[i].probability.at_least(candidate.probability));
                }
            }
        }
    }
}

/// Entering a candidate at its rank keeps the list sorted.
pub proof fn lemma_entered_sorted(list: Seq<Candidate>, candidate: Candidate)
    requires
        all_wf(list),
        candidate.probability.wf(),
        sorted_by_probability(list),
    ensures
        all_wf(entered(list, candidate)),
        sorted_by_probability(entered(list, candidate)),
{
    lemma_entry_rank(list, candidate);
    let rank = entry_rank(list, candidate);
    let longer = entered(list, candidate);
    assert forall|i: int| 0 <= i < longer.len() implies (#[trigger] longer[i]).probability.wf() by {
        if i < rank {
            assert(longer[i] == list[i]);
        } else if i > rank {
            assert(longer[i] == list[i - 1]);
        }
    }
    assert forall|i: int, j: int| 0 <= i <= j < longer.len() implies (
    #[trigger] longer[i]).probability.at_least((#[trigger] longer[j]).probability) by {
        if i == j {
        } else if j < rank {
            assert(list[i].probability.at_least(list[j].probability));
        } else if j == rank {
            assert(list[i].probability.at_least(candidate.probability));
        } else if i < rank {
            assert(list[i].probability.at_least(list[j - 1].probability));
        } else if i == rank {
            assert(!list[j - 1].probability.at_least(candidate.probability));
            lemma_at_least_total(list[j - 1].probability, candidate.probability);
        } else {
            assert(list[i - 1].probability.at_least(list[j - 1].probability));
        }
    }
}

/// The best candidates seen so far, best first. It holds as many as its
/// caller allows with each offer.
pub struct MinHeap {
    top_candidates: Vec<Candidate>,
}

impl View for MinHeap {
    type V = Seq<Candidate>;

    closed spec fn view(&self) -> Seq<Candidate> {
        self.top_candidates@
    }
}

impl Default for MinHeap {
    fn default() -> (heap: MinHeap)
        ensures
            heap@ == Seq::<Candidate>::empty(),
    {
        MinHeap { top_candidates: Vec::new() }
    }
}

impl MinHeap {
    #[verifier::type_invariant]
    spec fn type_inv(self) -> bool {
        sorted_by_probability(self.top_candidates@) && all_wf(self.top_candidates@)
    }

    /// Offers `candidate` to a structure of `nr_cand` places. The
    /// candidate enters behind those that score at least as high; if more
    /// than `nr_cand` are then held, the last one, which scores lowest,
    /// leaves.
    pub fn add_maybe(&mut self, nr_cand: usize, candidate: Candidate)
        ensures
            final(self)@ == offer(old(self)@, nr_cand as int, candidate),
            sorted_by_probability(final(self)@),
            old(self)@.len() <= nr_cand ==> final(self)@.len() <= nr_cand,
    {
        proof {
            use_type_invariant(&*self);
            use_type_invariant(&candidate.probability);
        }
        let ghost list = self.top_candidates@;
        let mut rank: usize = self.top_candidates.len();
        assert(list.take(list.len() as int) =~= list);
        while rank > 0 && !self.top_candidates[rank - 1].probability.is_at_least(
            &candidate.probability,
        )
            invariant
                rank <= list.len(),
                list == self.top_candidates@,
                entry_rank(list, candidate) == entry_rank(list.take(rank as int), candidate),
            decreases rank,
        {
            assert(list.take(rank as int).drop_last() =~= list.take(rank - 1));
            rank -= 1;
        }
        proof {
            if rank > 0 {
                assert(list.take(rank as int).last() == list[rank - 1]);
            }
            lemma_entered_sorted(list, candidate);
        }
        let kept: usize = if self.top_candidates.len() >= nr_cand {
            self.top_candidates.len()
        } else {
            self.top_candidates.len() + 1
        };
        let mut next: Vec<Candidate> = Vec::new();
        let mut index: usize = 0;
        while index < kept
            invariant
                index <= kept <= list.len() + 1,
                rank <= list.len(),
                list == self.top_candidates@,
                rank == entry_rank(list, candidate),
                next@ == entered(list, candidate).take(index as int),
            decreases kept - index,
        {
            let item: Candidate = if index < rank {
                self.top_candidates[index]
            } else if index == rank {
                candidate
            } else {
                self.top_candidates[index - 1]
            };
            next.push(item);
            assert(next@ =~= entered(list, candidate).take(index + 1));
            index += 1;
        }
        proof {
            let longer = entered(list, candidate);
            assert(longer.take(longer.len() as int) =~= longer);
            assert(longer.take(longer.len() - 1) =~= longer.drop_last());
            assert forall|i: int, j: int| 0 <= i <= j < next@.len() implies (
            #[trigger] next@[i]).probability.at_least((#[trigger] next@[j]).probability) by {
                assert(longer[i].probability.at_least(longer[j].probability));
            }
            assert forall|i: int| 0 <= i < next@.len() implies (
            #[trigger] next@[i]).probability.wf() by {
                assert(longer[i].probability.wf());
            }
        }
        self.top_candidates = next;
    }

    /// Hands out the candidates, best first, and leaves the structure
    /// empty.
    pub fn get_result(&mut self) -> (result: Vec<Candidate>)
        ensures
            result@ == old(self)@,
            sorted_by_probability(result@),
            final(self)@ == Seq::<Candidate>::empty(),
    {
        proof {
            use_type_invariant(&*self);
        }
        let mut result: Vec<Candidate> = Vec::new();
        let mut index: usize = 0;
        while index < self.top_candidates.len()
            invariant
                index <= self.top_candidates.len(),
                self.top_candidates@ == old(self).top_candidates@,
                result@ == self.top_candidates@.take(index as int),
            decreases self.top_candidates.len() - index,
        {
            result.push(self.top_candidates[index]);
            assert(result@ =~= self.top_candidates@.take(index + 1));
            index += 1;
        }
        assert(result@ =~= self.top_candidates@);
        self.top_candidates = Vec::new();
        result
    }
}

/// What a structure of `nr_cand` places holds after the candidates of
/// `offered` were offered to it one by one, starting empty.
pub open spec fn offer_all(offered: Seq<Candidate>, nr_cand: int) -> Seq<Candidate>
    decreases offered.len(),
{
    if offered.len() == 0 {
        Seq::empty()
    } else {
        offer(offer_all(offered.drop_last(), nr_cand), nr_cand, offered.last())
    }
}

/// The candidates that left the structure while those of `offered` were
/// offered to it, in the order of their leaving.
pub open spec fn evictions(offered: Seq<Candidate>, nr_cand: int) -> Seq<Candidate>
    decreases offered.len(),
{
    if offered.len() == 0 {
        Seq::empty()
    } else {
        let earlier = evictions(offered.drop_last(), nr_cand);
        match evicted(offer_all(offered.drop_last(), nr_cand), nr_cand, offered.last()) {
            Some(candidate) => earlier.push(candidate),
            None => earlier,
        }
    }
}

/// After any sequence of offers the structure holds at most `nr_cand`
/// candidates, sorted best first. Every offered candidate is either held
/// or has left, and none that left scores higher than one that is held:
/// what is held are the best candidates seen so far.
pub proof fn lemma_holds_the_best(offered: Seq<Candidate>, nr_cand: int)
    requires
        all_wf(offered),
        0 <= nr_cand,
    ensures
        offer_all(offered, nr_cand).len() <= nr_cand,
        sorted_by_probability(offer_all(offered, nr_cand)),
        all_wf(offer_all(offered, nr_cand)),
        all_wf(evictions(offered, nr_cand)),
        evictions(offered, nr_cand).len() > 0 ==> offer_all(offered, nr_cand).len() == nr_cand,
        offer_all(offered, nr_cand).to_multiset().add(evictions(offered, nr_cand).to_multiset())
            == offered.to_multiset(),
        forall|k: int, e: int|
            0 <= k < offer_all(offered, nr_cand).len() && 0 <= e < evictions(offered, nr_cand).len()
                ==> (#[trigger] offer_all(offered, nr_cand)[k]).probability.at_least(
                (#[trigger] evictions(offered, nr_cand)[e]).probability,
            ),
    decreases offered.len(),
{
    broadcast use vstd::seq_lib::group_to_multiset_ensures;
    broadcast use vstd::multiset::group_multiset_axioms;

    if offered.len() == 0 {
        assert(offered =~= Seq::empty());
    } else {
        let earlier = offered.drop_last();
        let candidate = offered.last();
        assert(candidate.probability.wf());
        assert forall|i: int| 0 <= i < earlier.len() implies (
        #[trigger] earlier[i]).probability.wf() by {
            assert(offered[i].probability.wf());
        }
        lemma_holds_the_best(earlier, nr_cand);
        let held = offer_all(earlier, nr_cand);
        let left = evictions(earlier, nr_cand);
        let longer = entered(held, candidate);
        let rank = entry_rank(held, candidate);
        lemma_entry_rank(held, candidate);
        lemma_entered_sorted(held, candidate);
        let now_held = offer_all(offered, nr_cand);
        let now_left = evictions(offered, nr_cand);
        assert(earlier.push(candidate) =~= offered);
        assert(longer.to_multiset() =~= held.to_multiset().insert(candidate));
        if longer.len() > nr_cand {
            let last = longer.last();
            assert(now_held == longer.drop_last());
            assert(now_left == left.push(last));
            assert(now_held.push(last) =~= longer);
            assert(longer.to_multiset() =~= now_held.to_multiset().insert(last));
            assert(now_left.to_multiset() =~= left.to_multiset().insert(last));
            assert(offered.to_multiset() =~= earlier.to_multiset().insert(candidate));
            assert forall|x: Candidate|
                now_held.to_multiset().add(now_left.to_multiset()).count(x)
                    == offered.to_multiset().count(x) by {
                let one_if_last: int = if x == last {
                    1
                } else {
                    0
                };
                let one_if_new: int = if x == candidate {
                    1
                } else {
                    0
                };
                assert(longer.to_multiset().count(x) == now_held.to_multiset().count(x)
                    + one_if_last);
                assert(longer.to_multiset().count(x) == held.to_multiset().count(x) + one_if_new);
                assert(now_left.to_multiset().count(x) == left.to_multiset().count(x)
                    + one_if_last);
                assert(offered.to_multiset().count(x) == earlier.to_multiset().count(x)
                    + one_if_new);
                assert(earlier.to_multiset().count(x) == held.to_multiset().add(
                    left.to_multiset(),
                ).count(x));
            }
            assert(now_held.to_multiset().add(now_left.to_multiset()) =~= offered.to_multiset());
            assert forall|i: int, j: int| 0 <= i <= j < now_held.len() implies (
            #[trigger] now_held[i]).probability.at_least((#[trigger] now_held[j]).probability) by {
                assert(longer[i].probability.at_least(longer[j].probability));
            }
            assert forall|i: int| 0 <= i < now_held.len() implies (
            #[trigger] now_held[i]).probability.wf() by {
                assert(longer[i].probability.wf());
            }
            assert(last.probability.wf());
            assert forall|k: int, e: int|
                0 <= k < now_held.len() && 0 <= e < now_left.len() implies (
            #[trigger] now_held[k]).probability.at_least((#[trigger] now_left[e]).probability) by {
                assert(longer[k].probability.at_least(longer[longer.len() - 1].probability));
                if e < left.len() {
                    assert(now_left[e] == left[e]);
                    if k < rank {
                        assert(longer[k] == held[k]);
                    } else if k > rank {
                        assert(longer[k] == held[k - 1]);
                    } else {
                        assert(last == held[held.len() - 1]);
                        assert(held[held.len() - 1].probability.at_least(left[e].probability));
                        lemma_at_least_transitive(
                            longer[k].probability,
                            last.probability,
                            left[e].probability,
                        );
                    }
                }
            }
        } else {
            assert(now_held == longer);
            assert(now_left == left);
            assert(left.len() == 0);
            assert(offered.to_multiset() =~= earlier.to_multiset().insert(candidate));
            assert(now_held.to_multiset().add(now_left.to_multiset()) =~= offered.to_multiset());
        }
    }
}

/// Where no two offered candidates score the same, every candidate that
/// left scores strictly lower than every candidate that is held.
pub proof fn lemma_evicted_score_lower(offered: Seq<Candidate>, nr_cand: int)
    requires
        all_wf(offered),
        0 <= nr_cand,
        forall|i: int, j: int|
            0 <= i < j < offered.len() ==> !((#[trigger] offered[i]).probability.at_least(
                (#[trigger] offered[j]).probability,
            ) && offered[j].probability.at_least(offered[i].probability)),
    ensures
        forall|k: int, e: int|
            0 <= k < offer_all(offered, nr_cand).len() && 0 <= e < evictions(offered, nr_cand).len()
                ==> !(#[trigger] evictions(offered, nr_cand)[e]).probability.at_least(
                (#[trigger] offer_all(offered, nr_cand)[k]).probability,
            ),
{
    broadcast use vstd::seq_lib::group_to_multiset_ensures;
    broadcast use vstd::multiset::group_multiset_axioms;

    lemma_holds_the_best(offered, nr_cand);
    let held = offer_all(offered, nr_cand);
    let left = evictions(offered, nr_cand);
    assert forall|i: int, j: int| 0 <= i < offered.len() && 0 <= j < offered.len() && i
        != j implies offered[i] != offered[j] by {
        if i < j {
            assert(!(offered[i].probability.at_least(offered[j].probability)
                && offered[j].probability.at_least(offered[i].probability)));
        } else {
            assert(!(offered[j].probability.at_least(offered[i].probability)
                && offered[i].probability.at_least(offered[j].probability)));
        }
    }
    offered.lemma_multiset_has_no_duplicates();
    assert forall|k: int, e: int| 0 <= k < held.len() && 0 <= e < left.len() implies !(
    #[trigger] left[e]).probability.at_least((#[trigger] held[k]).probability) by {
        assert(held.contains(held[k]));
        assert(left.contains(left[e]));
        assert(held.to_multiset().count(held[k]) > 0);
        assert(left.to_multiset().count(left[e]) > 0);
        assert(offered.to_multiset().count(held[k]) == held.to_multiset().add(
            left.to_multiset(),
        ).count(held[k]));
        assert(offered.to_multiset().count(left[e]) == held.to_multiset().add(
            left.to_multiset(),
        ).count(left[e]));
        assert(offered.contains(held[k]));
        assert(offered.contains(left[e]));
        let i = offered.index_of(held[k]);
        let j = offered.index_of(left[e]);
        if i == j {
            assert(held.to_multiset().add(left.to_multiset()).count(held[k]) >= 2);
        }
        assert(held[k].probability.at_least(left[e].probability));
        if i < j {
            assert(!(offered[i].probability.at_least(offered[j].probability)
                && offered[j].probability.at_least(offered[i].probability)));
        } else {
            assert(!(offered[j].probability.at_least(offered[i].probability)
                && offered[i].probability.at_least(offered[j].probability)));
        }
    }
}

} // verus!
