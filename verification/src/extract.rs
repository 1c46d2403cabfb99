//! The n-gram frequencies of a text.

use crate::count::{normalized, tally};
use crate::distribution::Distribution;
use crate::error::NgramError;
use crate::frequency::{count_sum, is_normalized, lemma_frequencies_add_up, Frequency};
use crate::window::{
    lemma_all_keys, lemma_occurrences_bounded, lemma_occurring_gram, lemma_short_text,
    ngram_counts, window_count,
};
use vstd::prelude::*;

verus! {

/// `dist` is the frequency distribution of the n-grams of `text`: it holds
/// the n-grams that occur, each with its number of occurrences over the
/// number of windows, and no other n-gram.
pub open spec fn is_extraction(dist: Map<Seq<u8>, Frequency>, text: Seq<u8>, n: nat) -> bool {
    is_normalized(dist, ngram_counts(text, n), window_count(text.len(), n))
}

/// Computes the frequency of every n-gram of width `n` in `text`.
///
/// A window of `n` bytes slides over the text one byte at a time, so that
/// overlapping occurrences all count. The frequency of an n-gram is its
/// number of occurrences over the number of windows. A text shorter than `n`
/// has no window and gives the empty distribution. A width of zero is
/// refused.
pub fn calculate_ngrams(text: &[u8], n: usize) -> (r: Result<Distribution<Frequency>, NgramError>)
    ensures
        n == 0 <==> r is Err,
        r matches Ok(dist) ==> {
            &&& is_extraction(dist@, text@, n as nat)
            &&& count_sum(dist.weights()) == window_count(text@.len(), n as nat)
            &&& text@.len() < n ==> dist@ == Map::<Seq<u8>, Frequency>::empty()
            &&& forall|g: Seq<u8>| #[trigger]
                dist@.contains_key(g) ==> {
                    &&& g.len() == n
                    &&& 0 < dist@[g].count <= dist@[g].total
                }
        },
{
    if n == 0 {
        return Err(NgramError::InvalidArgument);
    }
    let (counts, total) = tally::<usize>(text, n, None);
    let dist = normalized(counts, total);
    proof {
        let counted = ngram_counts(text@, n as nat);
        lemma_all_keys(text@, n as nat);
        assert(is_normalized(dist@, counted, total as nat)) by {
            assert forall|g: Seq<u8>| #[trigger] counted.dom().contains(g) implies dist@[g].count
                == counted[g] && dist@[g].total == total by {
                assert(dist@.dom().contains(g));
            }
        }
        if text@.len() < n {
            lemma_short_text(text@, n as nat, Set::full());
            assert(dist@ =~= Map::<Seq<u8>, Frequency>::empty());
        }
        use_type_invariant(&dist);
        lemma_frequencies_add_up(dist, text@, n as nat, Set::full());
        assert forall|g: Seq<u8>| #[trigger] dist@.contains_key(g) implies g.len() == n && 0
            < dist@[g].count <= dist@[g].total by {
            assert(counted.dom().contains(g));
            lemma_occurring_gram(text@, n as nat, g);
            lemma_occurrences_bounded(text@, n as nat, g);
        }
    }
    Ok(dist)
}

} // verus!
