//! Counting the windows of a text.

use crate::distribution::{lemma_pair_map_at, Distribution, Slot};
use crate::frequency::Frequency;
use crate::window::{
    counts_below, lemma_below_all, lemma_below_zero, lemma_counts_step, lemma_matched_step,
    lemma_positions_step, matched_below, matched_counts, matched_total, window, window_count,
};
use vstd::prelude::*;
use vstd::slice::{slice_subrange, slice_to_vec};

verus! {

/// The n-grams that a count admits: the keys of `among`, or every n-gram
/// where there is no such distribution.
pub open spec fn admitted<W>(among: Option<&Distribution<W>>) -> Set<Seq<u8>> {
    match among {
        Some(d) => d@.dom(),
        None => Set::full(),
    }
}

/// `held` is the count map `counts`, in machine integers.
pub open spec fn same_counts(held: Map<Seq<u8>, usize>, counts: Map<Seq<u8>, nat>) -> bool {
    &&& held.dom() =~= counts.dom()
    &&& forall|g: Seq<u8>| #[trigger] counts.dom().contains(g) ==> held[g] == counts[g]
}

/// The count map with one more occurrence of `gram`.
pub(crate) fn bumped(counts: Distribution<usize>, gram: &[u8]) -> (r: Distribution<usize>)
    requires
        counts@.contains_key(gram@) ==> counts@[gram@] < usize::MAX,
    ensures
        r@ == counts@.insert(
            gram@,
            if counts@.contains_key(gram@) {
                (counts@[gram@] + 1) as usize
            } else {
                1usize
            },
        ),
{
    proof {
        use_type_invariant(&counts);
    }
    match counts.search(gram) {
        Slot::Found(i) => {
            proof {
                lemma_pair_map_at(counts.grams(), counts.weights(), i as int);
            }
            let seen: usize = *counts.weight(i);
            counts.replace_at(i, seen + 1)
        },
        Slot::Vacant(i) => counts.insert_at(i, slice_to_vec(gram), 1),
    }
}

/// The count map with each count turned into its frequency in `total`.
pub(crate) fn normalized(counts: Distribution<usize>, total: usize) -> (r: Distribution<
    Frequency,
>)
    ensures
        r.grams() == counts.grams(),
        r@.dom() == counts@.dom(),
        forall|g: Seq<u8>| #[trigger]
            r@.dom().contains(g) ==> r@[g] == (Frequency { count: counts@[g], total }),
{
    let len: usize = counts.len();
    let mut freqs: Vec<Frequency> = Vec::new();
    let mut i: usize = 0;
    while i < len
        invariant
            i <= len,
            len == counts.weights().len(),
            freqs@.len() == i,
            forall|j: int|
                0 <= j < i ==> #[trigger] freqs@[j] == (Frequency {
                    count: counts.weights()[j],
                    total,
                }),
        decreases len - i,
    {
        let count: usize = *counts.weight(i);
        freqs.push(Frequency { count, total });
        i += 1;
    }
    let r = counts.with_weights(freqs);
    proof {
        assert(r@.dom() =~= counts@.dom());
    }
    r
}

/// Counts the windows of width `n` in `text` whose n-gram is admitted, each
/// under its n-gram, and says how many were counted in all.
pub(crate) fn tally<W>(text: &[u8], n: usize, among: Option<&Distribution<W>>) -> (r: (
    Distribution<usize>,
    usize,
))
    requires
        n >= 1,
    ensures
        same_counts(r.0@, matched_counts(text@, n as nat, admitted(among))),
        r.1 == matched_total(text@, n as nat, admitted(among)),
{
    let ghost keys = admitted(among);
    let mut counts: Distribution<usize> = Distribution::new();
    let mut total: usize = 0;
    let len: usize = text.len();
    let windows: usize = if len < n {
        0
    } else {
        len - n + 1
    };
    let mut i: usize = 0;
    proof {
        lemma_below_zero(text@, n as nat, keys);
    }
    while i < windows
        invariant
            n >= 1,
            i <= windows,
            len == text@.len(),
            windows == window_count(text@.len(), n as nat),
            keys == admitted(among),
            same_counts(counts@, counts_below(text@, n as nat, keys, i as int)),
            total == matched_below(text@, n as nat, keys, i as int).len(),
            total <= i,
        decreases windows - i,
    {
        let gram = slice_subrange(text, i, i + n);
        let hit = match among {
            Some(d) => d.contains_key(gram),
            None => true,
        };
        proof {
            assert(gram@ == window(text@, n as nat, i as int));
            lemma_matched_step(text@, n as nat, keys, i as int);
            lemma_counts_step(text@, n as nat, keys, i as int);
            lemma_positions_step(text@, n as nat, gram@, i as int);
        }
        if hit {
            counts = bumped(counts, gram);
            total += 1;
        }
        i += 1;
    }
    proof {
        lemma_below_all(text@, n as nat, keys);
    }
    (counts, total)
}

} // verus!
