//! The lexicographic order on byte strings.

use vstd::prelude::*;

verus! {

/// How one byte string stands to another in the lexicographic order.
#[derive(Debug, Clone, Copy, PartialEq, Eq, Structural)]
pub enum Relation {
    Before,
    Same,
    After,
}

/// `a` and `b` agree on their first `k` bytes, and at index `k` either `a`
/// ends while `b` goes on, or `a` holds the smaller byte.
pub open spec fn precedes_at(a: Seq<u8>, b: Seq<u8>, k: int) -> bool {
    &&& 0 <= k <= a.len()
    &&& k < b.len()
    &&& forall|j: int| 0 <= j < k ==> a[j] == b[j]
    &&& k < a.len() ==> a[k] < b[k]
}

/// `a` comes strictly before `b` in the lexicographic order.
pub open spec fn lex_less(a: Seq<u8>, b: Seq<u8>) -> bool {
    exists|k: int| precedes_at(a, b, k)
}

/// No byte string comes before itself.
pub proof fn lemma_lex_irreflexive(a: Seq<u8>)
    ensures
        !lex_less(a, a),
{
}

/// Of two byte strings at most one comes before the other.
pub proof fn lemma_lex_asymmetric(a: Seq<u8>, b: Seq<u8>)
    requires
        lex_less(a, b),
    ensures
        !lex_less(b, a),
{
    let k = choose|k: int| precedes_at(a, b, k);
    if lex_less(b, a) {
        let m = choose|m: int| precedes_at(b, a, m);
        if k < m {
            assert(b[k] == a[k]);
        } else if m < k {
            assert(a[m] == b[m]);
        }
    }
}

/// The order is transitive.
pub proof fn lemma_lex_transitive(a: Seq<u8>, b: Seq<u8>, c: Seq<u8>)
    requires
        lex_less(a, b),
        lex_less(b, c),
    ensures
        lex_less(a, c),
{
    let k = choose|k: int| precedes_at(a, b, k);
    let m = choose|m: int| precedes_at(b, c, m);
    let d = if k <= m { k } else { m };
    assert forall|j: int| 0 <= j < d implies a[j] == c[j] by {
        assert(a[j] == b[j]);
        assert(b[j] == c[j]);
    }
    if m < k {
        assert(a[m] == b[m]);
    } else if k < m {
        assert(b[k] == c[k]);
    }
    assert(precedes_at(a, c, d));
}

/// Two byte strings that agree on their first `k` bytes are equal, or one of
/// them comes before the other.
proof fn lemma_lex_connected_from(a: Seq<u8>, b: Seq<u8>, k: int)
    requires
        0 <= k <= a.len(),
        k <= b.len(),
        forall|j: int| 0 <= j < k ==> a[j] == b[j],
    ensures
        a == b || lex_less(a, b) || lex_less(b, a),
    decreases a.len() - k,
{
    if k == a.len() {
        if k == b.len() {
            assert(a =~= b);
        } else {
            assert(precedes_at(a, b, k));
        }
    } else if k == b.len() {
        assert(precedes_at(b, a, k));
    } else if a[k] < b[k] {
        assert(precedes_at(a, b, k));
    } else if b[k] < a[k] {
        assert(precedes_at(b, a, k));
    } else {
        lemma_lex_connected_from(a, b, k + 1);
    }
}

/// Any two distinct byte strings are ordered.
pub proof fn lemma_lex_connected(a: Seq<u8>, b: Seq<u8>)
    ensures
        a == b || lex_less(a, b) || lex_less(b, a),
{
    lemma_lex_connected_from(a, b, 0);
}

/// Compares two byte strings lexicographically.
pub fn compare(a: &[u8], b: &[u8]) -> (r: Relation)
    ensures
        r == Relation::Before <==> lex_less(a@, b@),
        r == Relation::Same <==> a@ == b@,
        r == Relation::After <==> lex_less(b@, a@),
{
    let mut i: usize = 0;
    while i < a.len() && i < b.len() && a[i] == b[i]
        invariant
            i <= a.len(),
            i <= b.len(),
            forall|j: int| 0 <= j < i ==> a@[j] == b@[j],
        decreases a.len() - i,
    {
        i += 1;
    }
    proof {
        lemma_lex_irreflexive(a@);
    }
    if i == a.len() {
        if i == b.len() {
            assert(a@ =~= b@);
            Relation::Same
        } else {
            assert(precedes_at(a@, b@, i as int));
            proof {
                lemma_lex_asymmetric(a@, b@);
            }
            Relation::Before
        }
    } else if i == b.len() {
        assert(precedes_at(b@, a@, i as int));
        proof {
            lemma_lex_asymmetric(b@, a@);
        }
        Relation::After
    } else if a[i] < b[i] {
        assert(precedes_at(a@, b@, i as int));
        proof {
            lemma_lex_asymmetric(a@, b@);
        }
        Relation::Before
    } else {
        assert(precedes_at(b@, a@, i as int));
        proof {
            lemma_lex_asymmetric(b@, a@);
        }
        Relation::After
    }
}

} // verus!
