//! Exact relative frequencies.

use crate::distribution::{lemma_increasing_no_duplicates, lemma_pair_map_at, Distribution};
use crate::window::{
    lemma_listed_occurrences, lemma_matched_by_counts, listed_occurrences, matched_counts,
    matched_total, occurrences,
};
use vstd::prelude::*;

verus! {

/// The relative frequency `count / total`, kept as its two integers.
#[derive(Debug, Clone, Copy, PartialEq, Eq, Hash, Structural)]
pub struct Frequency {
    /// How often the n-gram was counted.
    pub count: usize,
    /// How many windows were counted in all.
    pub total: usize,
}

/// The sum of the counts of a sequence of frequencies.
pub open spec fn count_sum(freqs: Seq<Frequency>) -> nat
    decreases freqs.len(),
{
    if freqs.len() == 0 {
        0
    } else {
        count_sum(freqs.drop_last()) + freqs.last().count as nat
    }
}

/// `dist` gives each n-gram of `counts` the frequency of its count in
/// `total`, and holds no other n-gram.
pub open spec fn is_normalized(
    dist: Map<Seq<u8>, Frequency>,
    counts: Map<Seq<u8>, nat>,
    total: nat,
) -> bool {
    &&& dist.dom() =~= counts.dom()
    &&& forall|g: Seq<u8>| #[trigger]
        counts.dom().contains(g) ==> dist[g].count == counts[g] && dist[g].total == total
}

/// Frequencies that hold, index by index, the occurrences of the listed
/// n-grams have counts that add up to the occurrences added up.
pub proof fn lemma_count_sum_listed(
    freqs: Seq<Frequency>,
    grams: Seq<Seq<u8>>,
    text: Seq<u8>,
    n: nat,
)
    requires
        freqs.len() == grams.len(),
        forall|i: int|
            0 <= i < grams.len() ==> (#[trigger] freqs[i]).count == occurrences(text, n, grams[i]),
    ensures
        count_sum(freqs) == listed_occurrences(text, n, grams),
    decreases freqs.len(),
{
    if freqs.len() > 0 {
        assert(freqs[freqs.len() - 1].count == occurrences(text, n, grams[grams.len() - 1]));
        assert forall|i: int| 0 <= i < grams.drop_last().len() implies (
        #[trigger] freqs.drop_last()[i]).count == occurrences(text, n, grams.drop_last()[i]) by {
            assert(freqs[i].count == occurrences(text, n, grams[i]));
        }
        lemma_count_sum_listed(freqs.drop_last(), grams.drop_last(), text, n);
    }
}

/// The counts of a normalized distribution add up to its total: the
/// frequencies of the n-grams of a text, taken among the windows that match
/// a set of keys, sum to one.
pub proof fn lemma_frequencies_add_up(
    dist: Distribution<Frequency>,
    text: Seq<u8>,
    n: nat,
    keys: Set<Seq<u8>>,
)
    requires
        dist.wf(),
        is_normalized(dist@, matched_counts(text, n, keys), matched_total(text, n, keys)),
    ensures
        count_sum(dist.weights()) == matched_total(text, n, keys),
{
    let grams = dist.grams();
    let counted = matched_counts(text, n, keys);
    lemma_increasing_no_duplicates(grams);
    assert(grams.to_set() =~= counted.dom()) by {
        assert forall|g: Seq<u8>| grams.to_set().contains(g) <==> counted.dom().contains(g) by {
            assert(dist@.dom().contains(g) <==> grams.contains(g));
        }
    }
    assert forall|i: int| 0 <= i < grams.len() implies (#[trigger] dist.weights()[i]).count
        == occurrences(text, n, grams[i]) by {
        lemma_pair_map_at(grams, dist.weights(), i);
        assert(counted.dom().contains(grams[i]));
    }
    lemma_count_sum_listed(dist.weights(), grams, text, n);
    lemma_listed_occurrences(text, n, grams);
    lemma_matched_by_counts(text, n, keys);
}

} // verus!
