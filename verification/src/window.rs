//! The windows of a text, and how often an n-gram occurs among them.
//!
//! A text of `len` bytes has a window of width `n` at every offset `i` with
//! `i + n <= len`. Everything the crate computes is stated over the sets of
//! offsets defined here.

use vstd::prelude::*;
use vstd::set_lib::{lemma_int_range, lemma_len_subset, lemma_set_disjoint_lens, set_int_range};

verus! {

/// The number of windows of width `n` in a text of `len` bytes.
pub open spec fn window_count(len: nat, n: nat) -> nat {
    if n <= len {
        (len - n + 1) as nat
    } else {
        0
    }
}

/// A window of width `n` starts at offset `i` of `text`.
pub open spec fn is_offset(text: Seq<u8>, n: nat, i: int) -> bool {
    0 <= i && i + n <= text.len()
}

/// The window of width `n` at offset `i`.
pub open spec fn window(text: Seq<u8>, n: nat, i: int) -> Seq<u8> {
    text.subrange(i, i + n)
}

/// The offsets below `k` at which `gram` occurs in `text`.
pub open spec fn positions_below(text: Seq<u8>, n: nat, gram: Seq<u8>, k: int) -> Set<int> {
    Set::new(|i: int| i < k && is_offset(text, n, i) && window(text, n, i) == gram)
}

/// The offsets at which `gram` occurs in `text`.
pub open spec fn positions(text: Seq<u8>, n: nat, gram: Seq<u8>) -> Set<int> {
    Set::new(|i: int| is_offset(text, n, i) && window(text, n, i) == gram)
}

/// How often `gram` occurs in `text`, overlapping occurrences included.
pub open spec fn occurrences(text: Seq<u8>, n: nat, gram: Seq<u8>) -> nat {
    positions(text, n, gram).len()
}

/// The count map of `text`: every n-gram that occurs, with its number of
/// occurrences.
pub open spec fn ngram_counts(text: Seq<u8>, n: nat) -> Map<Seq<u8>, nat> {
    Map::new(|g: Seq<u8>| occurrences(text, n, g) > 0, |g: Seq<u8>| occurrences(text, n, g))
}

/// The offsets below `k` whose window is one of `keys`.
pub open spec fn matched_below(text: Seq<u8>, n: nat, keys: Set<Seq<u8>>, k: int) -> Set<int> {
    Set::new(|i: int| i < k && is_offset(text, n, i) && keys.contains(window(text, n, i)))
}

/// The offsets whose window is one of `keys`.
pub open spec fn matched_positions(text: Seq<u8>, n: nat, keys: Set<Seq<u8>>) -> Set<int> {
    Set::new(|i: int| is_offset(text, n, i) && keys.contains(window(text, n, i)))
}

/// The number of windows of `text` whose content is one of `keys`.
pub open spec fn matched_total(text: Seq<u8>, n: nat, keys: Set<Seq<u8>>) -> nat {
    matched_positions(text, n, keys).len()
}

/// The count map of `text` with every n-gram outside `keys` left out.
pub open spec fn matched_counts(text: Seq<u8>, n: nat, keys: Set<Seq<u8>>) -> Map<Seq<u8>, nat> {
    ngram_counts(text, n).restrict(keys)
}

/// The filtered count map of the windows below offset `k`.
pub open spec fn counts_below(text: Seq<u8>, n: nat, keys: Set<Seq<u8>>, k: int) -> Map<
    Seq<u8>,
    nat,
> {
    Map::new(
        |g: Seq<u8>| keys.contains(g) && positions_below(text, n, g, k).len() > 0,
        |g: Seq<u8>| positions_below(text, n, g, k).len(),
    )
}

/// A set of integers that all lie in `0..k` is finite and has at most `k`
/// elements.
pub proof fn lemma_offsets_bounded(s: Set<int>, k: int)
    requires
        0 <= k,
        forall|i: int| s.contains(i) ==> 0 <= i < k,
    ensures
        s.finite(),
        s.len() <= k,
{
    lemma_int_range(0, k);
    lemma_len_subset(s, set_int_range(0, k));
}

/// Before the first window nothing has been seen.
pub proof fn lemma_below_zero(text: Seq<u8>, n: nat, keys: Set<Seq<u8>>)
    ensures
        matched_below(text, n, keys, 0) == Set::<int>::empty(),
        counts_below(text, n, keys, 0) == Map::<Seq<u8>, nat>::empty(),
{
    assert(matched_below(text, n, keys, 0) =~= Set::<int>::empty());
    assert forall|g: Seq<u8>| positions_below(text, n, g, 0).len() == 0 by {
        assert(positions_below(text, n, g, 0) =~= Set::<int>::empty());
    }
    assert(counts_below(text, n, keys, 0) =~= Map::<Seq<u8>, nat>::empty());
}

/// The window at offset `k` adds one occurrence of its own n-gram and none of
/// any other.
pub proof fn lemma_positions_step(text: Seq<u8>, n: nat, gram: Seq<u8>, k: int)
    requires
        is_offset(text, n, k),
    ensures
        positions_below(text, n, gram, k).finite(),
        positions_below(text, n, gram, k).len() <= k,
        positions_below(text, n, gram, k + 1).finite(),
        positions_below(text, n, gram, k + 1).len() == positions_below(text, n, gram, k).len() + (
        if window(text, n, k) == gram {
            1nat
        } else {
            0nat
        }),
{
    let before = positions_below(text, n, gram, k);
    let after = positions_below(text, n, gram, k + 1);
    lemma_offsets_bounded(before, k);
    if window(text, n, k) == gram {
        assert(after =~= before.insert(k));
    } else {
        assert(after =~= before);
    }
}

/// The window at offset `k` raises the matched total by one if its n-gram is
/// one of `keys`, and leaves it otherwise.
pub proof fn lemma_matched_step(text: Seq<u8>, n: nat, keys: Set<Seq<u8>>, k: int)
    requires
        is_offset(text, n, k),
    ensures
        matched_below(text, n, keys, k).finite(),
        matched_below(text, n, keys, k).len() <= k,
        matched_below(text, n, keys, k + 1).len() == matched_below(text, n, keys, k).len() + (
        if keys.contains(window(text, n, k)) {
            1nat
        } else {
            0nat
        }),
{
    let before = matched_below(text, n, keys, k);
    let after = matched_below(text, n, keys, k + 1);
    lemma_offsets_bounded(before, k);
    if keys.contains(window(text, n, k)) {
        assert(after =~= before.insert(k));
    } else {
        assert(after =~= before);
    }
}

/// How the filtered count map changes with the window at offset `k`.
pub proof fn lemma_counts_step(text: Seq<u8>, n: nat, keys: Set<Seq<u8>>, k: int)
    requires
        is_offset(text, n, k),
    ensures
        keys.contains(window(text, n, k)) ==> counts_below(text, n, keys, k + 1) == counts_below(
            text,
            n,
            keys,
            k,
        ).insert(window(text, n, k), positions_below(text, n, window(text, n, k), k).len() + 1),
        !keys.contains(window(text, n, k)) ==> counts_below(text, n, keys, k + 1) == counts_below(
            text,
            n,
            keys,
            k,
        ),
{
    let w = window(text, n, k);
    assert forall|g: Seq<u8>|
        positions_below(text, n, g, k + 1).len() == #[trigger] positions_below(text, n, g, k).len()
            + (if w == g {
            1nat
        } else {
            0nat
        }) by {
        lemma_positions_step(text, n, g, k);
    }
    if keys.contains(w) {
        assert(counts_below(text, n, keys, k + 1) =~= counts_below(text, n, keys, k).insert(
            w,
            positions_below(text, n, w, k).len() + 1,
        ));
    } else {
        assert(counts_below(text, n, keys, k + 1) =~= counts_below(text, n, keys, k));
    }
}

/// Once every window has been seen, the running sets are the full ones.
pub proof fn lemma_below_all(text: Seq<u8>, n: nat, keys: Set<Seq<u8>>)
    ensures
        matched_below(text, n, keys, window_count(text.len(), n) as int) == matched_positions(
            text,
            n,
            keys,
        ),
        counts_below(text, n, keys, window_count(text.len(), n) as int) == matched_counts(
            text,
            n,
            keys,
        ),
{
    let all = window_count(text.len(), n) as int;
    assert(matched_below(text, n, keys, all) =~= matched_positions(text, n, keys));
    assert forall|g: Seq<u8>| positions_below(text, n, g, all) == positions(text, n, g) by {
        assert(positions_below(text, n, g, all) =~= positions(text, n, g));
    }
    assert(counts_below(text, n, keys, all) =~= matched_counts(text, n, keys));
}

/// An n-gram occurs at most as often as there are windows.
pub proof fn lemma_occurrences_bounded(text: Seq<u8>, n: nat, gram: Seq<u8>)
    ensures
        positions(text, n, gram).finite(),
        occurrences(text, n, gram) <= window_count(text.len(), n),
{
    lemma_offsets_bounded(positions(text, n, gram), window_count(text.len(), n) as int);
}

/// The n-gram of a window occurs at least once.
pub proof fn lemma_window_occurs(text: Seq<u8>, n: nat, i: int)
    requires
        is_offset(text, n, i),
    ensures
        occurrences(text, n, window(text, n, i)) > 0,
{
    let gram = window(text, n, i);
    lemma_occurrences_bounded(text, n, gram);
    assert(positions(text, n, gram).contains(i));
    assert(positions(text, n, gram).remove(i).len() >= 0);
}

/// An n-gram that occurs is the content of some window, and so has `n` bytes.
pub proof fn lemma_occurring_gram(text: Seq<u8>, n: nat, gram: Seq<u8>)
    requires
        occurrences(text, n, gram) > 0,
    ensures
        exists|i: int| is_offset(text, n, i) && window(text, n, i) == gram,
        gram.len() == n,
{
    lemma_occurrences_bounded(text, n, gram);
    let i = positions(text, n, gram).choose();
    assert(positions(text, n, gram).contains(i));
    assert(is_offset(text, n, i) && window(text, n, i) == gram);
}

/// A text shorter than `n` has no window: its count map is empty and no
/// window matches any set of keys.
pub proof fn lemma_short_text(text: Seq<u8>, n: nat, keys: Set<Seq<u8>>)
    requires
        text.len() < n,
    ensures
        window_count(text.len(), n) == 0,
        ngram_counts(text, n) == Map::<Seq<u8>, nat>::empty(),
        matched_counts(text, n, keys) == Map::<Seq<u8>, nat>::empty(),
        matched_total(text, n, keys) == 0,
{
    assert(matched_positions(text, n, keys) =~= Set::<int>::empty());
    assert forall|g: Seq<u8>| occurrences(text, n, g) == 0 by {
        assert(positions(text, n, g) =~= Set::<int>::empty());
    }
    assert(ngram_counts(text, n) =~= Map::<Seq<u8>, nat>::empty());
    assert(matched_counts(text, n, keys) =~= Map::<Seq<u8>, nat>::empty());
}

/// Where every n-gram is a key, nothing is filtered out: the matched counts
/// are the count map and the matched total is the number of windows.
pub proof fn lemma_all_keys(text: Seq<u8>, n: nat)
    ensures
        matched_counts(text, n, Set::full()) == ngram_counts(text, n),
        matched_total(text, n, Set::full()) == window_count(text.len(), n),
{
    let all = window_count(text.len(), n) as int;
    assert(matched_counts(text, n, Set::full()) =~= ngram_counts(text, n));
    lemma_int_range(0, all);
    assert(matched_positions(text, n, Set::full()) =~= set_int_range(0, all));
}

/// The matched total never exceeds the number of windows.
pub proof fn lemma_matched_bounded(text: Seq<u8>, n: nat, keys: Set<Seq<u8>>)
    ensures
        matched_positions(text, n, keys).finite(),
        matched_total(text, n, keys) <= window_count(text.len(), n),
{
    lemma_offsets_bounded(matched_positions(text, n, keys), window_count(text.len(), n) as int);
}

/// The occurrences of the listed n-grams, added up.
pub open spec fn listed_occurrences(text: Seq<u8>, n: nat, grams: Seq<Seq<u8>>) -> nat
    decreases grams.len(),
{
    if grams.len() == 0 {
        0
    } else {
        listed_occurrences(text, n, grams.drop_last()) + occurrences(text, n, grams.last())
    }
}

/// A window has one content, so the occurrences of different n-grams stand
/// at different offsets: the windows whose n-gram is on a list without
/// repetition number as many as the occurrences of the listed n-grams
/// together.
pub proof fn lemma_listed_occurrences(text: Seq<u8>, n: nat, grams: Seq<Seq<u8>>)
    requires
        grams.no_duplicates(),
    ensures
        matched_total(text, n, grams.to_set()) == listed_occurrences(text, n, grams),
    decreases grams.len(),
{
    if grams.len() == 0 {
        assert(matched_positions(text, n, grams.to_set()) =~= Set::<int>::empty());
    } else {
        let rest = grams.drop_last();
        let last = grams.last();
        lemma_listed_occurrences(text, n, rest);
        let before = matched_positions(text, n, rest.to_set());
        let added = positions(text, n, last);
        lemma_matched_bounded(text, n, rest.to_set());
        lemma_occurrences_bounded(text, n, last);
        assert(before.disjoint(added)) by {
            if rest.contains(last) {
                let j = rest.index_of(last);
                assert(grams[j] == grams[grams.len() - 1]);
            }
        }
        assert forall|x: Seq<u8>| grams.contains(x) <==> rest.contains(x) || x == last by {
            if grams.contains(x) {
                let j = grams.index_of(x);
                if j < rest.len() {
                    assert(rest[j] == x);
                }
            }
            if rest.contains(x) {
                let j = rest.index_of(x);
                assert(grams[j] == x);
            }
            assert(grams[grams.len() - 1] == last);
        }
        assert(matched_positions(text, n, grams.to_set()) =~= before + added);
        lemma_set_disjoint_lens(before, added);
    }
}

/// Only n-grams that occur can match: the windows that match a set of keys
/// are those that match the keys of the filtered count map.
pub proof fn lemma_matched_by_counts(text: Seq<u8>, n: nat, keys: Set<Seq<u8>>)
    ensures
        matched_positions(text, n, keys) == matched_positions(
            text,
            n,
            matched_counts(text, n, keys).dom(),
        ),
{
    let occurring = matched_counts(text, n, keys).dom();
    assert forall|i: int| matched_positions(text, n, keys).contains(i) implies matched_positions(
        text,
        n,
        occurring,
    ).contains(i) by {
        lemma_window_occurs(text, n, i);
    }
    assert(matched_positions(text, n, keys) =~= matched_positions(text, n, occurring));
}

} // verus!
