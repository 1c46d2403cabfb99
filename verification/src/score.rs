//! Scoring a text against a reference distribution.
//!
//! The score of a text is the negative logarithm of a Bhattacharyya
//! coefficient: the sum, over the n-grams that the text shares with the
//! reference, of the square root of the n-gram's frequency in the text times
//! its weight in the reference. The frequencies are taken among the matching
//! windows only. This module computes them exactly; the roots and the
//! logarithm are left to the caller, who owns the weights.

use crate::count::{normalized, tally};
use crate::distribution::Distribution;
use crate::error::NgramError;
use crate::frequency::{count_sum, is_normalized, lemma_frequencies_add_up, Frequency};
use crate::window::{lemma_short_text, matched_counts, matched_total};
use vstd::prelude::*;

verus! {

/// The score of a text against a reference.
#[derive(Debug, PartialEq, Eq)]
pub enum Score {
    /// Positive infinity: no window of the text is a key of the reference,
    /// so the two cannot be compared.
    Infinite,
    /// The negative logarithm of the coefficient whose terms are given here:
    /// every n-gram of the text that is a key of the reference, with its
    /// frequency among the matching windows.
    Finite(Distribution<Frequency>),
}

impl View for Score {
    type V = Option<Map<Seq<u8>, Frequency>>;

    /// Nothing for the infinite score, the mapping of the terms otherwise.
    open spec fn view(&self) -> Option<Map<Seq<u8>, Frequency>> {
        match self {
            Score::Infinite => None,
            Score::Finite(dist) => Some(dist@),
        }
    }
}

/// The frequencies of the listed n-grams that `reference` holds, each beside
/// the weight that `reference` gives its n-gram, in the order of the list.
pub open spec fn joined<W>(
    grams: Seq<Seq<u8>>,
    freqs: Seq<Frequency>,
    reference: Map<Seq<u8>, W>,
) -> Seq<(Frequency, W)>
    decreases grams.len(),
{
    if grams.len() == 0 {
        Seq::empty()
    } else {
        let before = joined(grams.drop_last(), freqs.drop_last(), reference);
        if reference.contains_key(grams.last()) {
            before.push((freqs.last(), reference[grams.last()]))
        } else {
            before
        }
    }
}

/// A list of terms with each weight in place of the reference to it.
pub open spec fn terms_model<W>(terms: Seq<(Frequency, &W)>) -> Seq<(Frequency, W)> {
    Seq::new(terms.len(), |i: int| (terms[i].0, *terms[i].1))
}

impl Score {
    /// The terms of the coefficient of this score with `dist`: for every
    /// n-gram of the score that `dist` holds, in increasing order, the
    /// frequency of the n-gram in the text and its weight in `dist`. The
    /// coefficient is the sum of the square roots of their products. The
    /// infinite score has no coefficient.
    pub fn terms<'a, W>(&self, dist: &'a Distribution<W>) -> (r: Option<Vec<(Frequency, &'a W)>>)
        ensures
            match *self {
                Score::Infinite => r is None,
                Score::Finite(found) => r matches Some(terms) && terms_model(terms@) == joined(
                    found.grams(),
                    found.weights(),
                    dist@,
                ),
            },
    {
        let found = match self {
            Score::Infinite => return None,
            Score::Finite(found) => found,
        };
        let len: usize = found.len();
        let mut terms: Vec<(Frequency, &'a W)> = Vec::new();
        let mut i: usize = 0;
        while i < len
            invariant
                i <= len,
                len == found.grams().len(),
                len == found.weights().len(),
                terms_model(terms@) == joined(
                    found.grams().take(i as int),
                    found.weights().take(i as int),
                    dist@,
                ),
            decreases len - i,
        {
            proof {
                assert(found.grams().take(i + 1).drop_last() =~= found.grams().take(i as int));
                assert(found.weights().take(i + 1).drop_last() =~= found.weights().take(i as int));
            }
            let ghost before = terms_model(terms@);
            let freq: Frequency = *found.weight(i);
            match dist.get(found.gram(i)) {
                Some(weight) => {
                    terms.push((freq, weight));
                    assert(terms_model(terms@) =~= before.push((freq, *weight)));
                },
                None => {},
            }
            i += 1;
        }
        proof {
            assert(found.grams().take(len as int) =~= found.grams());
            assert(found.weights().take(len as int) =~= found.weights());
        }
        Some(terms)
    }
}

/// `score` is the score of `text` against a reference with the keys `keys`.
pub open spec fn is_score_of(score: Score, text: Seq<u8>, n: nat, keys: Set<Seq<u8>>) -> bool {
    match score {
        Score::Infinite => matched_total(text, n, keys) == 0,
        Score::Finite(dist) => {
            &&& matched_total(text, n, keys) > 0
            &&& is_normalized(dist@, matched_counts(text, n, keys), matched_total(text, n, keys))
        },
    }
}

/// Scores a text for a width that is known to be positive.
fn score_text<W>(text: &[u8], n: usize, dist: &Distribution<W>) -> (score: Score)
    requires
        n >= 1,
    ensures
        is_score_of(score, text@, n as nat, dist@.dom()),
        score matches Score::Finite(terms) ==> count_sum(terms.weights()) == matched_total(
            text@,
            n as nat,
            dist@.dom(),
        ),
{
    let (counts, total) = tally(text, n, Some(dist));
    if total == 0 {
        return Score::Infinite;
    }
    let matched = normalized(counts, total);
    proof {
        let counted = matched_counts(text@, n as nat, dist@.dom());
        assert(is_normalized(matched@, counted, total as nat)) by {
            assert forall|g: Seq<u8>| #[trigger] counted.dom().contains(g) implies matched@[g].count
                == counted[g] && matched@[g].total == total by {
                assert(matched@.dom().contains(g));
            }
        }
        use_type_invariant(&matched);
        lemma_frequencies_add_up(matched, text@, n as nat, dist@.dom());
    }
    Score::Finite(matched)
}

/// Scores `text` against the reference `dist` for windows of width `n`.
///
/// Only the windows whose n-gram is a key of `dist` are counted, each under
/// its n-gram, and the frequencies are taken over their number. Where that
/// number is zero, because the text is shorter than `n` or shares no n-gram
/// with the reference, the score is infinite. A width of zero is refused.
pub fn bh_score<W>(text: &[u8], n: usize, dist: &Distribution<W>) -> (r: Result<Score, NgramError>)
    ensures
        n == 0 <==> r is Err,
        r matches Ok(score) ==> is_score_of(score, text@, n as nat, dist@.dom()),
        r matches Ok(Score::Finite(terms)) ==> count_sum(terms.weights()) == matched_total(
            text@,
            n as nat,
            dist@.dom(),
        ),
        n >= 1 && text@.len() < n ==> r matches Ok(Score::Infinite),
{
    if n == 0 {
        return Err(NgramError::InvalidArgument);
    }
    proof {
        if text@.len() < n {
            lemma_short_text(text@, n as nat, dist@.dom());
        }
    }
    Ok(score_text(text, n, dist))
}

/// Scores each of `texts` against the reference `dist`, in the order given.
///
/// The width is checked once: a width of zero refuses the whole batch.
pub fn bh_score_many<W>(texts: &[Vec<u8>], n: usize, dist: &Distribution<W>) -> (r: Result<
    Vec<Score>,
    NgramError,
>)
    ensures
        n == 0 <==> r is Err,
        r matches Ok(scores) ==> {
            &&& scores@.len() == texts@.len()
            &&& forall|i: int|
                0 <= i < texts@.len() ==> is_score_of(
                    #[trigger] scores@[i],
                    texts@[i]@,
                    n as nat,
                    dist@.dom(),
                )
        },
{
    if n == 0 {
        return Err(NgramError::InvalidArgument);
    }
    let mut scores: Vec<Score> = Vec::new();
    let mut i: usize = 0;
    while i < texts.len()
        invariant
            n >= 1,
            i <= texts@.len(),
            scores@.len() == i,
            forall|j: int|
                0 <= j < i ==> is_score_of(#[trigger] scores@[j], texts@[j]@, n as nat, dist@.dom()),
        decreases texts@.len() - i,
    {
        let score = score_text(texts[i].as_slice(), n, dist);
        scores.push(score);
        i += 1;
    }
    Ok(scores)
}

} // verus!
