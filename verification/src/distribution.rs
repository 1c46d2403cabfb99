//! A mapping from n-grams to weights, kept in lexicographic order.

use crate::order::{compare, lemma_lex_irreflexive, lemma_lex_transitive, lex_less, Relation};
use vstd::prelude::*;

verus! {

/// A finite mapping from n-grams to weights of type `W`.
///
/// The n-grams are held in strictly increasing lexicographic order, each
/// beside its weight, so that no n-gram occurs twice and a lookup is a binary
/// search. The weights are whatever the caller chose: counts, exact
/// frequencies, or numbers of its own that the crate only carries.
#[derive(Debug, PartialEq, Eq)]
pub struct Distribution<W> {
    grams: Vec<Vec<u8>>,
    weights: Vec<W>,
}

/// Where a search for an n-gram ended: at the index that holds it, or at the
/// index where it would have to be inserted.
#[derive(Debug, Clone, Copy, PartialEq, Eq, Structural)]
pub enum Slot {
    Found(usize),
    Vacant(usize),
}

/// Each n-gram of the sequence comes strictly before all later ones.
pub open spec fn increasing(grams: Seq<Seq<u8>>) -> bool {
    forall|i: int, j: int|
        0 <= i < j < grams.len() ==> lex_less(#[trigger] grams[i], #[trigger] grams[j])
}

/// The mapping that sends the n-gram at each index to the weight at the same
/// index.
pub open spec fn pair_map<W>(grams: Seq<Seq<u8>>, weights: Seq<W>) -> Map<Seq<u8>, W> {
    Map::new(|g: Seq<u8>| grams.contains(g), |g: Seq<u8>| weights[grams.index_of(g)])
}

/// `gram` belongs at index `at` of `grams`: all before it are smaller, all
/// from it on are greater.
pub open spec fn splits_at(grams: Seq<Seq<u8>>, gram: Seq<u8>, at: int) -> bool {
    &&& 0 <= at <= grams.len()
    &&& forall|j: int| 0 <= j < at ==> lex_less(#[trigger] grams[j], gram)
    &&& forall|j: int| at <= j < grams.len() ==> lex_less(gram, #[trigger] grams[j])
}

/// In an increasing sequence an n-gram stands at one index only.
pub proof fn lemma_increasing_distinct(grams: Seq<Seq<u8>>, i: int, j: int)
    requires
        increasing(grams),
        0 <= i < grams.len(),
        0 <= j < grams.len(),
        grams[i] == grams[j],
    ensures
        i == j,
{
    lemma_lex_irreflexive(grams[i]);
    if i < j {
        assert(lex_less(grams[i], grams[j]));
    } else if j < i {
        assert(lex_less(grams[j], grams[i]));
    }
}

/// An increasing sequence names no n-gram twice.
pub proof fn lemma_increasing_no_duplicates(grams: Seq<Seq<u8>>)
    requires
        increasing(grams),
    ensures
        grams.no_duplicates(),
{
    assert forall|i: int, j: int|
        0 <= i < grams.len() && 0 <= j < grams.len() && i != j implies grams[i] != grams[j] by {
        if grams[i] == grams[j] {
            lemma_increasing_distinct(grams, i, j);
        }
    }
}

/// The mapping of an increasing sequence holds the n-gram at index `i` with
/// the weight at index `i`.
pub proof fn lemma_pair_map_at<W>(grams: Seq<Seq<u8>>, weights: Seq<W>, i: int)
    requires
        increasing(grams),
        0 <= i < grams.len(),
    ensures
        pair_map(grams, weights).dom().contains(grams[i]),
        pair_map(grams, weights)[grams[i]] == weights[i],
{
    assert(grams.contains(grams[i]));
    lemma_increasing_distinct(grams, i, grams.index_of(grams[i]));
}

/// An n-gram that belongs between two neighbours is not in the sequence.
pub proof fn lemma_split_absent(grams: Seq<Seq<u8>>, gram: Seq<u8>, at: int)
    requires
        splits_at(grams, gram, at),
    ensures
        !grams.contains(gram),
{
    lemma_lex_irreflexive(gram);
    if grams.contains(gram) {
        let j = grams.index_of(gram);
        if j < at {
            assert(lex_less(grams[j], gram));
        } else {
            assert(lex_less(gram, grams[j]));
        }
    }
}

/// Putting a new n-gram where it belongs keeps the order, and adds one entry
/// to the mapping.
pub proof fn lemma_insert_at<W>(
    grams: Seq<Seq<u8>>,
    weights: Seq<W>,
    at: int,
    gram: Seq<u8>,
    weight: W,
)
    requires
        increasing(grams),
        grams.len() == weights.len(),
        splits_at(grams, gram, at),
    ensures
        increasing(grams.insert(at, gram)),
        pair_map(grams.insert(at, gram), weights.insert(at, weight)) == pair_map(
            grams,
            weights,
        ).insert(gram, weight),
{
    let ng = grams.insert(at, gram);
    let nw = weights.insert(at, weight);
    grams.insert_ensures(at, gram);
    weights.insert_ensures(at, weight);
    assert forall|i: int, j: int| 0 <= i < j < ng.len() implies lex_less(
        #[trigger] ng[i],
        #[trigger] ng[j],
    ) by {
        if j < at {
            assert(lex_less(grams[i], grams[j]));
        } else if j == at {
            assert(lex_less(grams[i], gram));
        } else if i < at {
            assert(lex_less(grams[i], grams[j - 1]));
        } else if i == at {
            assert(lex_less(gram, grams[j - 1]));
        } else {
            assert(lex_less(grams[i - 1], grams[j - 1]));
        }
    }
    let new_map = pair_map(ng, nw);
    let target = pair_map(grams, weights).insert(gram, weight);
    assert forall|x: Seq<u8>| #[trigger] new_map.dom().contains(x) implies target.dom().contains(
        x,
    ) by {
        assert(ng.contains(x));
        let i = ng.index_of(x);
        assert(0 <= i < ng.len() && ng[i] == x);
        if i < at {
            assert(grams[i] == x);
            assert(grams.contains(x));
        } else if i > at {
            assert(grams[i - 1] == x);
            assert(grams.contains(x));
        }
    }
    assert forall|x: Seq<u8>| #[trigger] target.dom().contains(x) implies new_map.dom().contains(x)
        && new_map[x] == target[x] by {
        if x == gram {
            assert(ng[at] == x);
            lemma_pair_map_at(ng, nw, at);
        } else {
            assert(grams.contains(x));
            let j = grams.index_of(x);
            assert(0 <= j < grams.len() && grams[j] == x);
            lemma_pair_map_at(grams, weights, j);
            if j < at {
                assert(ng[j] == x);
                lemma_pair_map_at(ng, nw, j);
            } else {
                assert(ng[j + 1] == x);
                lemma_pair_map_at(ng, nw, j + 1);
            }
        }
    }
    assert(new_map.dom() =~= target.dom());
    assert(new_map =~= target);
}

/// Changing the weight at one index changes the mapping at the n-gram of
/// that index.
pub proof fn lemma_replace_at<W>(grams: Seq<Seq<u8>>, weights: Seq<W>, at: int, weight: W)
    requires
        increasing(grams),
        grams.len() == weights.len(),
        0 <= at < grams.len(),
    ensures
        pair_map(grams, weights.update(at, weight)) == pair_map(grams, weights).insert(
            grams[at],
            weight,
        ),
{
    let nw = weights.update(at, weight);
    let old_map = pair_map(grams, weights);
    let new_map = pair_map(grams, nw);
    assert(grams.contains(grams[at]));
    assert forall|x: Seq<u8>| new_map.dom().contains(x) implies new_map[x] == old_map.insert(
        grams[at],
        weight,
    )[x] by {
        assert(grams.contains(x));
        let j = grams.index_of(x);
        assert(0 <= j < grams.len() && grams[j] == x);
        lemma_pair_map_at(grams, nw, j);
        lemma_pair_map_at(grams, weights, j);
        if x == grams[at] {
            lemma_increasing_distinct(grams, j, at);
        }
    }
    assert(new_map =~= old_map.insert(grams[at], weight));
}

/// A list of pairs of an n-gram and a weight, with each n-gram as the
/// sequence of its bytes.
pub open spec fn pairs_model<W>(pairs: Seq<(Vec<u8>, W)>) -> Seq<(Seq<u8>, W)> {
    Seq::new(pairs.len(), |i: int| (pairs[i].0@, pairs[i].1))
}

/// The mapping that a list of pairs describes: each n-gram of the list with
/// the weight of the last pair that names it.
pub open spec fn weights_map<W>(pairs: Seq<(Seq<u8>, W)>) -> Map<Seq<u8>, W>
    decreases pairs.len(),
{
    if pairs.len() == 0 {
        Map::empty()
    } else {
        weights_map(pairs.drop_last()).insert(pairs.last().0, pairs.last().1)
    }
}

/// The pair at index `i` names `gram`.
pub open spec fn names_at<W>(pairs: Seq<(Seq<u8>, W)>, gram: Seq<u8>, i: int) -> bool {
    0 <= i < pairs.len() && pairs[i].0 == gram
}

/// The keys of the mapping of a list of pairs are the n-grams that the
/// pairs name.
pub proof fn lemma_weights_map_keys<W>(pairs: Seq<(Seq<u8>, W)>, gram: Seq<u8>)
    ensures
        weights_map(pairs).contains_key(gram) <==> exists|i: int| names_at(pairs, gram, i),
    decreases pairs.len(),
{
    if pairs.len() > 0 {
        let rest = pairs.drop_last();
        lemma_weights_map_keys(rest, gram);
        if pairs.last().0 == gram {
            assert(names_at(pairs, gram, pairs.len() - 1));
        } else {
            if weights_map(rest).contains_key(gram) {
                let i = choose|i: int| names_at(rest, gram, i);
                assert(names_at(pairs, gram, i));
            }
            if exists|i: int| names_at(pairs, gram, i) {
                let i = choose|i: int| names_at(pairs, gram, i);
                assert(names_at(rest, gram, i));
            }
        }
    }
}

/// The mapping of a list of pairs gives an n-gram the weight of the last
/// pair that names it.
pub proof fn lemma_weights_map_last<W>(pairs: Seq<(Seq<u8>, W)>, i: int)
    requires
        0 <= i < pairs.len(),
        forall|j: int| i < j < pairs.len() ==> !names_at(pairs, pairs[i].0, j),
    ensures
        weights_map(pairs).contains_key(pairs[i].0),
        weights_map(pairs)[pairs[i].0] == pairs[i].1,
    decreases pairs.len(),
{
    if i < pairs.len() - 1 {
        let rest = pairs.drop_last();
        assert(!names_at(pairs, pairs[i].0, pairs.len() - 1));
        assert forall|j: int| i < j < rest.len() implies !names_at(rest, rest[i].0, j) by {
            assert(!names_at(pairs, pairs[i].0, j));
        }
        lemma_weights_map_last(rest, i);
    }
}

impl<W> View for Distribution<W> {
    type V = Map<Seq<u8>, W>;

    open spec fn view(&self) -> Map<Seq<u8>, W> {
        pair_map(self.grams(), self.weights())
    }
}

impl<W> Distribution<W> {
    /// The n-grams in increasing order.
    pub closed spec fn grams(&self) -> Seq<Seq<u8>> {
        Seq::new(self.grams@.len(), |i: int| self.grams@[i]@)
    }

    /// The weights, each at the index of its n-gram.
    pub closed spec fn weights(&self) -> Seq<W> {
        self.weights@
    }

    /// Every value of the type has one weight for each n-gram and holds its
    /// n-grams in strictly increasing order.
    #[verifier::type_invariant]
    pub open spec fn wf(&self) -> bool {
        &&& self.grams().len() == self.weights().len()
        &&& increasing(self.grams())
    }

    /// The empty distribution.
    pub fn new() -> (r: Self)
        ensures
            r@ == Map::<Seq<u8>, W>::empty(),
            r.grams().len() == 0,
            r.weights().len() == 0,
    {
        let r = Distribution { grams: Vec::new(), weights: Vec::new() };
        assert(r@ =~= Map::<Seq<u8>, W>::empty());
        r
    }

    /// The number of n-grams.
    pub fn len(&self) -> (n: usize)
        ensures
            n == self.grams().len(),
            n == self.weights().len(),
            n == self@.dom().len(),
            self@.dom().finite(),
    {
        proof {
            use_type_invariant(self);
            self.lemma_dom_len();
        }
        self.grams.len()
    }

    /// Whether the distribution holds no n-gram.
    pub fn is_empty(&self) -> (b: bool)
        ensures
            b <==> self@ == Map::<Seq<u8>, W>::empty(),
            b <==> self.grams().len() == 0,
    {
        proof {
            use_type_invariant(self);
            if self.grams().len() == 0 {
                assert(self@ =~= Map::<Seq<u8>, W>::empty());
            } else {
                lemma_pair_map_at(self.grams(), self.weights(), 0);
            }
        }
        self.grams.len() == 0
    }

    /// The domain of the mapping is the set of the listed n-grams, which has
    /// as many elements as the list.
    pub proof fn lemma_dom_len(&self)
        requires
            self.wf(),
        ensures
            self@.dom().finite(),
            self@.dom().len() == self.grams().len(),
    {
        let grams = self.grams();
        lemma_increasing_no_duplicates(grams);
        grams.unique_seq_to_set();
        assert(self@.dom() =~= grams.to_set());
    }

    /// Finds `gram` by binary search.
    pub fn search(&self, gram: &[u8]) -> (slot: Slot)
        ensures
            match slot {
                Slot::Found(i) => i < self.grams().len() && self.grams()[i as int] == gram@,
                Slot::Vacant(i) => splits_at(self.grams(), gram@, i as int),
            },
            slot is Found <==> self@.contains_key(gram@),
    {
        proof {
            use_type_invariant(self);
        }
        let mut lo: usize = 0;
        let mut hi: usize = self.grams.len();
        while lo < hi
            invariant
                lo <= hi <= self.grams.len(),
                self.wf(),
                forall|j: int| 0 <= j < lo ==> lex_less(#[trigger] self.grams()[j], gram@),
                forall|j: int|
                    hi <= j < self.grams().len() ==> lex_less(gram@, #[trigger] self.grams()[j]),
            decreases hi - lo,
        {
            let mid: usize = lo + (hi - lo) / 2;
            match compare(self.grams[mid].as_slice(), gram) {
                Relation::Same => {
                    assert(self.grams()[mid as int] == gram@);
                    assert(self.grams().contains(gram@));
                    return Slot::Found(mid);
                },
                Relation::Before => {
                    assert forall|j: int| 0 <= j < mid + 1 implies lex_less(
                        #[trigger] self.grams()[j],
                        gram@,
                    ) by {
                        if j < mid {
                            lemma_lex_transitive(self.grams()[j], self.grams()[mid as int], gram@);
                        }
                    }
                    lo = mid + 1;
                },
                Relation::After => {
                    assert forall|j: int| mid <= j < self.grams().len() implies lex_less(
                        gram@,
                        #[trigger] self.grams()[j],
                    ) by {
                        if mid < j {
                            lemma_lex_transitive(gram@, self.grams()[mid as int], self.grams()[j]);
                        }
                    }
                    hi = mid;
                },
            }
        }
        proof {
            lemma_split_absent(self.grams(), gram@, lo as int);
        }
        Slot::Vacant(lo)
    }

    /// Whether the distribution holds `gram`.
    pub fn contains_key(&self, gram: &[u8]) -> (b: bool)
        ensures
            b <==> self@.contains_key(gram@),
    {
        match self.search(gram) {
            Slot::Found(_) => true,
            Slot::Vacant(_) => false,
        }
    }

    /// The weight of `gram`, if the distribution holds it.
    pub fn get(&self, gram: &[u8]) -> (w: Option<&W>)
        ensures
            w == (if self@.contains_key(gram@) {
                Some(&self@[gram@])
            } else {
                None
            }),
    {
        proof {
            use_type_invariant(self);
        }
        match self.search(gram) {
            Slot::Found(i) => {
                proof {
                    lemma_pair_map_at(self.grams(), self.weights(), i as int);
                }
                Some(&self.weights[i])
            },
            Slot::Vacant(_) => None,
        }
    }

    /// The n-gram at index `i` of the increasing order, if there is one.
    pub fn gram_at(&self, i: usize) -> (g: Option<&[u8]>)
        ensures
            i < self.grams().len() ==> (g matches Some(s) && s@ == self.grams()[i as int]
                && self@.contains_key(s@)),
            i >= self.grams().len() ==> g is None,
    {
        proof {
            use_type_invariant(self);
            if i < self.grams().len() {
                lemma_pair_map_at(self.grams(), self.weights(), i as int);
            }
        }
        if i < self.grams.len() {
            Some(self.grams[i].as_slice())
        } else {
            None
        }
    }

    /// The weight at index `i`, which belongs to the n-gram at index `i`.
    pub fn weight_at(&self, i: usize) -> (w: Option<&W>)
        ensures
            i < self.weights().len() ==> w == Some(&self.weights()[i as int]),
            i < self.weights().len() ==> w == Some(&self@[self.grams()[i as int]]),
            i >= self.weights().len() ==> w is None,
    {
        proof {
            use_type_invariant(self);
            if i < self.weights().len() {
                lemma_pair_map_at(self.grams(), self.weights(), i as int);
            }
        }
        if i < self.weights.len() {
            Some(&self.weights[i])
        } else {
            None
        }
    }

    /// The n-gram at index `at`.
    pub(crate) fn gram(&self, at: usize) -> (g: &[u8])
        requires
            at < self.grams().len(),
        ensures
            g@ == self.grams()[at as int],
    {
        self.grams[at].as_slice()
    }

    /// The weight at index `at`.
    pub(crate) fn weight(&self, at: usize) -> (w: &W)
        requires
            at < self.weights().len(),
        ensures
            *w == self.weights()[at as int],
    {
        &self.weights[at]
    }

    /// Puts a new n-gram at the index where it belongs.
    pub(crate) fn insert_at(self, at: usize, gram: Vec<u8>, weight: W) -> (r: Self)
        requires
            splits_at(self.grams(), gram@, at as int),
        ensures
            r.grams() == self.grams().insert(at as int, gram@),
            r.weights() == self.weights().insert(at as int, weight),
            r@ == self@.insert(gram@, weight),
    {
        proof {
            use_type_invariant(&self);
            lemma_insert_at(self.grams(), self.weights(), at as int, gram@, weight);
        }
        let ghost old_grams = self.grams();
        let mut grams = self.grams;
        let mut weights = self.weights;
        let ghost old_vecs = grams@;
        grams.insert(at, gram);
        weights.insert(at, weight);
        proof {
            old_vecs.insert_ensures(at as int, gram);
            old_grams.insert_ensures(at as int, gram@);
            assert(Seq::new(grams@.len(), |i: int| grams@[i]@) =~= old_grams.insert(
                at as int,
                gram@,
            ));
        }
        Distribution { grams, weights }
    }

    /// Gives the n-gram at index `at` a new weight.
    pub(crate) fn replace_at(self, at: usize, weight: W) -> (r: Self)
        requires
            at < self.grams().len(),
        ensures
            r.grams() == self.grams(),
            r.weights() == self.weights().update(at as int, weight),
            r@ == self@.insert(self.grams()[at as int], weight),
    {
        proof {
            use_type_invariant(&self);
            lemma_replace_at(self.grams(), self.weights(), at as int, weight);
        }
        let grams = self.grams;
        let mut weights = self.weights;
        weights.set(at, weight);
        Distribution { grams, weights }
    }

    /// The same n-grams with other weights, index by index.
    pub(crate) fn with_weights<U>(self, weights: Vec<U>) -> (r: Distribution<U>)
        requires
            weights@.len() == self.grams().len(),
        ensures
            r.grams() == self.grams(),
            r.weights() == weights@,
    {
        proof {
            use_type_invariant(&self);
        }
        Distribution { grams: self.grams, weights }
    }

    /// The distribution with `gram` set to `weight`: a new entry if `gram`
    /// was absent, a new weight for it otherwise. This costs a binary search
    /// and, for a new entry, a shift of the entries behind it.
    pub fn with(self, gram: Vec<u8>, weight: W) -> (r: Self)
        ensures
            r@ == self@.insert(gram@, weight),
    {
        match self.search(gram.as_slice()) {
            Slot::Found(i) => self.replace_at(i, weight),
            Slot::Vacant(i) => self.insert_at(i, gram, weight),
        }
    }

    /// The distribution of the given weights, taken as they are: nothing is
    /// normalized or summed. Where an n-gram is named more than once, its
    /// last weight stands.
    pub fn from_weights(pairs: Vec<(Vec<u8>, W)>) -> (r: Self)
        ensures
            r@ == weights_map(pairs_model(pairs@)),
    {
        let ghost all = pairs_model(pairs@);
        let mut dist: Distribution<W> = Distribution::new();
        for pair in it: pairs
            invariant
                pairs_model(it.seq()) == all,
                dist@ == weights_map(all.take(it.index())),
        {
            let (gram, weight) = pair;
            proof {
                assert(all.take(it.index() + 1).drop_last() =~= all.take(it.index()));
            }
            dist = dist.with(gram, weight);
        }
        proof {
            assert(all.take(all.len() as int) =~= all);
        }
        dist
    }
}

} // verus!
