//! What holds of the crate's functions taken together.

use crate::distribution::{increasing, lemma_increasing_distinct, lemma_pair_map_at, Distribution};
use crate::extract::is_extraction;
use crate::frequency::{count_sum, lemma_frequencies_add_up, Frequency};
use crate::order::{lemma_lex_asymmetric, lex_less};
use crate::score::{is_score_of, joined, Score};
use crate::window::{
    lemma_all_keys, lemma_matched_bounded, lemma_occurring_gram, lemma_window_occurs,
    matched_counts, matched_positions, matched_total, ngram_counts, positions, window_count,
};
use vstd::prelude::*;
use vstd::set_lib::{lemma_int_range, lemma_len_subset, set_int_range};

verus! {

/// Two increasing sequences that hold the same n-grams are the same
/// sequence.
pub proof fn lemma_increasing_unique(a: Seq<Seq<u8>>, b: Seq<Seq<u8>>)
    requires
        increasing(a),
        increasing(b),
        forall|x: Seq<u8>| a.contains(x) <==> b.contains(x),
    ensures
        a == b,
    decreases a.len(),
{
    if a.len() == 0 {
        if b.len() > 0 {
            assert(b.contains(b[0]));
        }
        assert(a =~= b);
    } else {
        assert(a.contains(a.last()));
        assert(b.contains(a.last()));
        assert(b.contains(b.last()));
        assert(a.contains(b.last()));
        let j = b.index_of(a.last());
        let k = a.index_of(b.last());
        if a.last() != b.last() {
            assert(lex_less(b[j], b[b.len() - 1]));
            assert(lex_less(a[k], a[a.len() - 1]));
            lemma_lex_asymmetric(a.last(), b.last());
        }
        let ra = a.drop_last();
        let rb = b.drop_last();
        assert forall|x: Seq<u8>| ra.contains(x) <==> rb.contains(x) by {
            if ra.contains(x) {
                let i = ra.index_of(x);
                assert(a[i] == x);
                assert(a.contains(x));
                let m = b.index_of(x);
                if m == b.len() - 1 {
                    lemma_increasing_distinct(a, i, a.len() - 1);
                }
                assert(rb[m] == x);
            }
            if rb.contains(x) {
                let i = rb.index_of(x);
                assert(b[i] == x);
                assert(b.contains(x));
                let m = a.index_of(x);
                if m == a.len() - 1 {
                    lemma_increasing_distinct(b, i, b.len() - 1);
                }
                assert(ra[m] == x);
            }
        }
        assert(increasing(ra)) by {
            assert forall|i: int, j: int| 0 <= i < j < ra.len() implies lex_less(
                #[trigger] ra[i],
                #[trigger] ra[j],
            ) by {
                assert(lex_less(a[i], a[j]));
            }
        }
        assert(increasing(rb)) by {
            assert forall|i: int, j: int| 0 <= i < j < rb.len() implies lex_less(
                #[trigger] rb[i],
                #[trigger] rb[j],
            ) by {
                assert(lex_less(b[i], b[j]));
            }
        }
        lemma_increasing_unique(ra, rb);
        assert(a =~= ra.push(a.last()));
        assert(b =~= rb.push(b.last()));
    }
}

/// A distribution is determined by its mapping: two distributions with the
/// same mapping list the same n-grams with the same weights in the same
/// order.
pub proof fn lemma_canonical<W>(a: Distribution<W>, b: Distribution<W>)
    requires
        a.wf(),
        b.wf(),
        a@ == b@,
    ensures
        a.grams() == b.grams(),
        a.weights() == b.weights(),
{
    assert forall|x: Seq<u8>| a.grams().contains(x) <==> b.grams().contains(x) by {
        assert(a@.dom().contains(x) <==> a.grams().contains(x));
        assert(b@.dom().contains(x) <==> b.grams().contains(x));
    }
    lemma_increasing_unique(a.grams(), b.grams());
    assert forall|i: int| 0 <= i < a.weights().len() implies a.weights()[i] == b.weights()[i] by {
        lemma_pair_map_at(a.grams(), a.weights(), i);
        lemma_pair_map_at(b.grams(), b.weights(), i);
    }
    assert(a.weights() =~= b.weights());
}

/// Extraction is a function of its arguments: two distributions that both
/// are the extraction of one text for one width are the same mapping, listed
/// in the same order.
pub proof fn lemma_extraction_determined(
    a: Distribution<Frequency>,
    b: Distribution<Frequency>,
    text: Seq<u8>,
    n: nat,
)
    requires
        a.wf(),
        b.wf(),
        is_extraction(a@, text, n),
        is_extraction(b@, text, n),
    ensures
        a@ == b@,
        a.grams() == b.grams(),
        a.weights() == b.weights(),
{
    assert(a@ =~= b@);
    lemma_canonical(a, b);
}

/// Scoring is a function of its arguments: two scores of one text against
/// one set of keys are both infinite, or hold the same terms.
pub proof fn lemma_score_determined(a: Score, b: Score, text: Seq<u8>, n: nat, keys: Set<Seq<u8>>)
    requires
        is_score_of(a, text, n, keys),
        is_score_of(b, text, n, keys),
    ensures
        a@ == b@,
{
    match (a, b) {
        (Score::Finite(da), Score::Finite(db)) => {
            assert(da@ =~= db@);
        },
        _ => {},
    }
}

/// Filtering a text by its own n-grams filters nothing: every window
/// matches, and the matched counts are the count map.
pub proof fn lemma_own_keys(text: Seq<u8>, n: nat)
    ensures
        matched_counts(text, n, ngram_counts(text, n).dom()) == ngram_counts(text, n),
        matched_total(text, n, ngram_counts(text, n).dom()) == window_count(text.len(), n),
{
    let keys = ngram_counts(text, n).dom();
    let all = window_count(text.len(), n) as int;
    assert(matched_counts(text, n, keys) =~= ngram_counts(text, n));
    assert forall|i: int| set_int_range(0, all).contains(i) implies matched_positions(
        text,
        n,
        keys,
    ).contains(i) by {
        lemma_window_occurs(text, n, i);
    }
    lemma_int_range(0, all);
    assert(matched_positions(text, n, keys) =~= set_int_range(0, all));
}

/// Self-similarity: the score of a text against its own extraction holds
/// the extraction itself. Each term of the coefficient is then the root of a
/// frequency times itself, the coefficient is the sum of the frequencies,
/// which is one, and the score is zero.
pub proof fn lemma_self_similarity(
    reference: Distribution<Frequency>,
    score: Score,
    text: Seq<u8>,
    n: nat,
)
    requires
        n <= text.len(),
        is_extraction(reference@, text, n),
        is_score_of(score, text, n, reference@.dom()),
    ensures
        score@ == Some(reference@),
{
    lemma_own_keys(text, n);
    assert(reference@.dom() =~= ngram_counts(text, n).dom());
    match score {
        Score::Finite(dist) => {
            assert(dist@ =~= reference@);
        },
        Score::Infinite => {},
    }
}

/// A batch is scored text by text: where the texts are handed in in another
/// order, the same scores come back in that order.
pub proof fn lemma_batch_order(
    texts: Seq<Seq<u8>>,
    scores: Seq<Score>,
    order: Seq<int>,
    shuffled: Seq<Score>,
    n: nat,
    keys: Set<Seq<u8>>,
)
    requires
        scores.len() == texts.len(),
        forall|i: int| 0 <= i < texts.len() ==> is_score_of(#[trigger] scores[i], texts[i], n, keys),
        shuffled.len() == order.len(),
        forall|j: int| 0 <= j < order.len() ==> 0 <= #[trigger] order[j] < texts.len(),
        forall|j: int|
            0 <= j < order.len() ==> is_score_of(#[trigger] shuffled[j], texts[order[j]], n, keys),
    ensures
        forall|j: int| 0 <= j < order.len() ==> (#[trigger] shuffled[j])@ == scores[order[j]]@,
{
    assert forall|j: int| 0 <= j < order.len() implies (#[trigger] shuffled[j])@
        == scores[order[j]]@ by {
        lemma_score_determined(shuffled[j], scores[order[j]], texts[order[j]], n, keys);
    }
}

/// The n-grams of a score are n-grams of the text and keys of the reference,
/// and each has `n` bytes.
pub proof fn lemma_score_keys(score: Score, text: Seq<u8>, n: nat, keys: Set<Seq<u8>>, gram: Seq<u8>)
    requires
        is_score_of(score, text, n, keys),
        score@ is Some,
        score@->Some_0.contains_key(gram),
    ensures
        keys.contains(gram),
        ngram_counts(text, n).contains_key(gram),
        gram.len() == n,
        0 < score@->Some_0[gram].count <= score@->Some_0[gram].total,
        score@->Some_0[gram].total <= window_count(text.len(), n),
{
    assert(matched_counts(text, n, keys).dom().contains(gram));
    lemma_occurring_gram(text, n, gram);
    lemma_matched_bounded(text, n, keys);
    assert(positions(text, n, gram).subset_of(matched_positions(text, n, keys)));
    lemma_len_subset(positions(text, n, gram), matched_positions(text, n, keys));
}

/// The frequencies of an extraction add up to one: its counts add up to the
/// number of windows, which is the total of each.
pub proof fn lemma_extraction_adds_up(dist: Distribution<Frequency>, text: Seq<u8>, n: nat)
    requires
        dist.wf(),
        is_extraction(dist@, text, n),
    ensures
        count_sum(dist.weights()) == window_count(text.len(), n),
        forall|i: int|
            0 <= i < dist.weights().len() ==> (#[trigger] dist.weights()[i]).total == window_count(
                text.len(),
                n,
            ),
{
    lemma_all_keys(text, n);
    lemma_frequencies_add_up(dist, text, n, Set::full());
    assert forall|i: int| 0 <= i < dist.weights().len() implies (#[trigger] dist.weights()[i]).total
        == window_count(text.len(), n) by {
        lemma_pair_map_at(dist.grams(), dist.weights(), i);
        assert(ngram_counts(text, n).dom().contains(dist.grams()[i]));
    }
}

/// The frequencies of a finite score add up to one: its counts add up to
/// the number of matching windows, which is the total of each.
pub proof fn lemma_score_adds_up(
    found: Distribution<Frequency>,
    text: Seq<u8>,
    n: nat,
    keys: Set<Seq<u8>>,
)
    requires
        found.wf(),
        is_score_of(Score::Finite(found), text, n, keys),
    ensures
        count_sum(found.weights()) == matched_total(text, n, keys),
        forall|i: int|
            0 <= i < found.weights().len() ==> (#[trigger] found.weights()[i]).total
                == matched_total(text, n, keys),
{
    lemma_frequencies_add_up(found, text, n, keys);
    assert forall|i: int| 0 <= i < found.weights().len() implies (
    #[trigger] found.weights()[i]).total == matched_total(text, n, keys) by {
        lemma_pair_map_at(found.grams(), found.weights(), i);
        assert(matched_counts(text, n, keys).dom().contains(found.grams()[i]));
    }
}

/// Where the reference holds every listed n-gram, the join leaves none out:
/// it pairs the frequency at each index with the weight of the n-gram at
/// that index.
pub proof fn lemma_joined_complete<W>(
    grams: Seq<Seq<u8>>,
    freqs: Seq<Frequency>,
    reference: Map<Seq<u8>, W>,
)
    requires
        grams.len() == freqs.len(),
        forall|i: int| 0 <= i < grams.len() ==> reference.contains_key(#[trigger] grams[i]),
    ensures
        joined(grams, freqs, reference).len() == grams.len(),
        forall|i: int|
            0 <= i < grams.len() ==> #[trigger] joined(grams, freqs, reference)[i] == (
                freqs[i],
                reference[grams[i]],
            ),
    decreases grams.len(),
{
    if grams.len() > 0 {
        let rest = grams.drop_last();
        assert forall|i: int| 0 <= i < rest.len() implies reference.contains_key(
            #[trigger] rest[i],
        ) by {
            assert(reference.contains_key(grams[i]));
        }
        lemma_joined_complete(rest, freqs.drop_last(), reference);
        assert(reference.contains_key(grams[grams.len() - 1]));
    }
}

/// The terms of a score with the reference it was computed against: every
/// n-gram of the score is a key of the reference, so each frequency stands
/// beside the weight of its n-gram.
pub proof fn lemma_score_terms<W>(
    found: Distribution<Frequency>,
    reference: Distribution<W>,
    text: Seq<u8>,
    n: nat,
)
    requires
        found.wf(),
        is_score_of(Score::Finite(found), text, n, reference@.dom()),
    ensures
        joined(found.grams(), found.weights(), reference@).len() == found.grams().len(),
        forall|i: int|
            0 <= i < found.grams().len() ==> #[trigger] joined(
                found.grams(),
                found.weights(),
                reference@,
            )[i] == (found.weights()[i], reference@[found.grams()[i]]),
{
    assert forall|i: int| 0 <= i < found.grams().len() implies reference@.contains_key(
        #[trigger] found.grams()[i],
    ) by {
        lemma_pair_map_at(found.grams(), found.weights(), i);
        assert(matched_counts(text, n, reference@.dom()).dom().contains(found.grams()[i]));
    }
    lemma_joined_complete(found.grams(), found.weights(), reference@);
}

/// Self-similarity, term by term: each term of the score of a text against
/// its own extraction pairs a frequency with itself, and the frequencies add
/// up to one. The coefficient, the sum of the roots of the squares, is
/// therefore one, and the score is zero.
pub proof fn lemma_self_similarity_terms(
    reference: Distribution<Frequency>,
    found: Distribution<Frequency>,
    text: Seq<u8>,
    n: nat,
)
    requires
        1 <= n <= text.len(),
        reference.wf(),
        found.wf(),
        is_extraction(reference@, text, n),
        is_score_of(Score::Finite(found), text, n, reference@.dom()),
    ensures
        joined(found.grams(), found.weights(), reference@).len() == found.grams().len(),
        forall|i: int|
            0 <= i < found.grams().len() ==> #[trigger] joined(
                found.grams(),
                found.weights(),
                reference@,
            )[i] == (found.weights()[i], found.weights()[i]),
        count_sum(found.weights()) == window_count(text.len(), n),
        forall|i: int|
            0 <= i < found.weights().len() ==> (#[trigger] found.weights()[i]).total == window_count(
                text.len(),
                n,
            ),
        window_count(text.len(), n) > 0,
{
    lemma_self_similarity(reference, Score::Finite(found), text, n);
    lemma_canonical(found, reference);
    lemma_score_terms(found, reference, text, n);
    lemma_extraction_adds_up(reference, text, n);
    assert forall|i: int| 0 <= i < found.grams().len() implies #[trigger] joined(
        found.grams(),
        found.weights(),
        reference@,
    )[i] == (found.weights()[i], found.weights()[i]) by {
        lemma_pair_map_at(reference.grams(), reference.weights(), i);
    }
}

} // verus!
