use vstd::prelude::*;

verus! {

/// `a` and `b` hold the same bytes at every index below `k`.
pub open spec fn agree(a: Seq<u8>, b: Seq<u8>, k: int) -> bool {
    &&& 0 <= k <= a.len()
    &&& k <= b.len()
    &&& forall|j: int| 0 <= j < k ==> a[j] == b[j]
}

/// `a` sorts before `b`, and `k` is where that shows: the two agree below
/// `k`, and there `a` either ends or holds the smaller byte.
pub open spec fn less_at(a: Seq<u8>, b: Seq<u8>, k: int) -> bool {
    &&& agree(a, b, k)
    &&& k < b.len()
    &&& k < a.len() ==> a[k] < b[k]
}

/// Strict lexicographic order on byte strings, bytes compared unsigned.
pub open spec fn lex_lt(a: Seq<u8>, b: Seq<u8>) -> bool {
    exists|k: int| less_at(a, b, k)
}

/// `q` is a prefix of `s`.
pub open spec fn is_prefix(q: Seq<u8>, s: Seq<u8>) -> bool {
    q.len() <= s.len() && s.subrange(0, q.len() as int) == q
}

/// Where a string stands relative to the strings that start with a query.
#[derive(Clone, Copy, Debug, PartialEq, Eq, Structural)]
pub enum Side {
    /// It sorts before the query, so before every string that starts with it.
    Before,
    /// It starts with the query.
    Match,
    /// It sorts after every string that starts with the query.
    After,
}

/// On which side of the query `q` the string `s` lies.
pub open spec fn side(q: Seq<u8>, s: Seq<u8>) -> Side {
    if is_prefix(q, s) {
        Side::Match
    } else if lex_lt(s, q) {
        Side::Before
    } else {
        Side::After
    }
}

/// The position of a side in the order Before, Match, After.
pub open spec fn side_rank(c: Side) -> int {
    match c {
        Side::Before => 0,
        Side::Match => 1,
        Side::After => 2,
    }
}

/// A place where two strings stop agreeing: one of them ends there, or
/// they hold different bytes.
pub open spec fn parts_at(a: Seq<u8>, b: Seq<u8>, k: int) -> bool {
    &&& agree(a, b, k)
    &&& k < a.len() && k < b.len() ==> a[k] != b[k]
}

/// Walks forward from a point of agreement to the place where two strings part.
pub proof fn lemma_parting(a: Seq<u8>, b: Seq<u8>, i: int) -> (k: int)
    requires
        agree(a, b, i),
    ensures
        i <= k,
        parts_at(a, b, k),
    decreases a.len() - i,
{
    if i < a.len() && i < b.len() && a[i] == b[i] {
        lemma_parting(a, b, i + 1)
    } else {
        i
    }
}

/// Once the parting place of two strings is known, so is their order.
pub proof fn lemma_order_at_parting(a: Seq<u8>, b: Seq<u8>, k: int)
    requires
        parts_at(a, b, k),
    ensures
        lex_lt(a, b) <==> k < b.len() && (k < a.len() ==> a[k] < b[k]),
        is_prefix(a, b) <==> k == a.len(),
        a == b <==> k == a.len() && k == b.len(),
{
    if k < b.len() && (k < a.len() ==> a[k] < b[k]) {
        assert(less_at(a, b, k));
    }
    if k == a.len() {
        assert(b.subrange(0, a.len() as int) =~= a);
    }
    if k == a.len() && k == b.len() {
        assert(a =~= b);
    }
}

/// The order is irreflexive.
pub proof fn lemma_lex_irreflexive(a: Seq<u8>)
    ensures
        !lex_lt(a, a),
{
    lemma_order_at_parting(a, a, a.len() as int);
}

/// The order is transitive.
pub proof fn lemma_lex_transitive(a: Seq<u8>, b: Seq<u8>, c: Seq<u8>)
    requires
        lex_lt(a, b),
        lex_lt(b, c),
    ensures
        lex_lt(a, c),
{
    let i = choose|i: int| less_at(a, b, i);
    let j = choose|j: int| less_at(b, c, j);
    if i <= j {
        assert(less_at(a, c, i));
    } else {
        assert(less_at(a, c, j));
    }
}

/// Sides follow the order: as strings grow, they pass from before the
/// query's matches, through the matches, to after them, and never back.
pub proof fn lemma_side_monotone(q: Seq<u8>, small: Seq<u8>, large: Seq<u8>)
    requires
        lex_lt(small, large),
    ensures
        side_rank(side(q, small)) <= side_rank(side(q, large)),
{
    // The query parts from each of the two strings at some place, and the
    // two part from each other at some place: holding the three places
    // against each other settles every case.
    let ks = lemma_parting(q, small, 0);
    let kl = lemma_parting(q, large, 0);
    lemma_order_at_parting(q, small, ks);
    lemma_order_at_parting(q, large, kl);
    lemma_order_at_parting(small, q, ks);
    lemma_order_at_parting(large, q, kl);
}

/// On which side of `query` the suffix of `text` that starts at `pos` lies.
pub fn classify(query: &[u8], text: &[u8], pos: usize) -> (c: Side)
    requires
        pos <= text@.len(),
    ensures
        c == side(query@, text@.subrange(pos as int, text@.len() as int)),
{
    let ghost q = query@;
    let ghost s = text@.subrange(pos as int, text@.len() as int);
    let n = text.len();
    let mut k: usize = 0;
    while k < query.len() && k < n - pos && query[k] == text[pos + k]
        invariant
            pos <= n,
            n == text@.len(),
            q == query@,
            s == text@.subrange(pos as int, text@.len() as int),
            agree(q, s, k as int),
        decreases query.len() - k,
    {
        k = k + 1;
    }
    proof {
        lemma_order_at_parting(q, s, k as int);
        lemma_order_at_parting(s, q, k as int);
    }
    if k == query.len() {
        Side::Match
    } else if k == n - pos {
        Side::Before
    } else if text[pos + k] < query[k] {
        Side::Before
    } else {
        Side::After
    }
}

} // verus!
