use vstd::prelude::*;
use vstd::set_lib::*;
use crate::lex::{less_at, lemma_lex_irreflexive, lemma_lex_transitive, lex_lt};

verus! {

/// The suffix of `t` that starts at offset `p`.
pub open spec fn suffix(t: Seq<u8>, p: int) -> Seq<u8> {
    t.subrange(p, t.len() as int)
}

/// The suffix that entry `i` of `sa` points at.
pub open spec fn suffix_of(t: Seq<u8>, sa: Seq<i32>, i: int) -> Seq<u8> {
    suffix(t, sa[i] as int)
}

/// Every entry of `sa` is an offset into `t`.
pub open spec fn offsets_in_range(t: Seq<u8>, sa: Seq<i32>) -> bool {
    forall|i: int| 0 <= i < sa.len() ==> 0 <= #[trigger] sa[i] < t.len()
}

/// `sa` is the suffix array of `t`: one in-range offset per byte of `t`,
/// the suffixes they point at in strictly increasing lexicographic order.
pub open spec fn is_suffix_array(t: Seq<u8>, sa: Seq<i32>) -> bool {
    &&& sa.len() == t.len()
    &&& offsets_in_range(t, sa)
    &&& forall|i: int, j: int|
        0 <= i < j < sa.len() ==> lex_lt(#[trigger] suffix_of(t, sa, i), #[trigger] suffix_of(t, sa, j))
}

/// No offset occurs twice in a suffix array.
pub proof fn lemma_suffix_array_distinct(t: Seq<u8>, sa: Seq<i32>, i: int, j: int)
    requires
        is_suffix_array(t, sa),
        0 <= i < sa.len(),
        0 <= j < sa.len(),
        i != j,
    ensures
        sa[i] != sa[j],
{
    if i < j {
        assert(lex_lt(suffix_of(t, sa, i), suffix_of(t, sa, j)));
    } else {
        assert(lex_lt(suffix_of(t, sa, j), suffix_of(t, sa, i)));
    }
    lemma_lex_irreflexive(suffix_of(t, sa, i));
}

/// Offsets below `n`, `n` of them and no two alike, are all the offsets
/// below `n`.
pub proof fn lemma_distinct_offsets_cover(sa: Seq<i32>, p: int)
    requires
        forall|i: int| 0 <= i < sa.len() ==> 0 <= #[trigger] sa[i] < sa.len(),
        forall|i: int, j: int| 0 <= i < j < sa.len() ==> sa[i] != sa[j],
        0 <= p < sa.len(),
    ensures
        exists|i: int| 0 <= i < sa.len() && #[trigger] sa[i] == p,
{
    let n = sa.len() as int;
    let offsets = Seq::new(sa.len(), |i: int| sa[i] as int);
    assert forall|i: int, j: int|
        0 <= i < offsets.len() && 0 <= j < offsets.len() && i != j implies offsets[i]
        != offsets[j] by {}
    offsets.unique_seq_to_set();
    lemma_int_range(0, n);
    assert forall|v: int| offsets.to_set().contains(v) implies set_int_range(0, n).contains(
        v,
    ) by {}
    lemma_len_subset(offsets.to_set(), set_int_range(0, n));
    lemma_subset_equality(offsets.to_set(), set_int_range(0, n));
    assert(set_int_range(0, n).contains(p));
}

/// A suffix array is a permutation of the offsets of its text: every
/// offset stands at some index.
pub proof fn lemma_suffix_array_covers(t: Seq<u8>, sa: Seq<i32>, p: int)
    requires
        is_suffix_array(t, sa),
        0 <= p < t.len(),
    ensures
        exists|i: int| 0 <= i < sa.len() && #[trigger] sa[i] == p,
{
    assert forall|i: int, j: int| 0 <= i < j < sa.len() implies sa[i] != sa[j] by {
        lemma_suffix_array_distinct(t, sa, i, j);
    }
    lemma_distinct_offsets_cover(sa, p);
}

/// A suffix array holds each offset of its text once, and the suffixes
/// it points at never step down.
pub proof fn lemma_suffix_array_sorted_permutation(t: Seq<u8>, sa: Seq<i32>)
    requires
        is_suffix_array(t, sa),
    ensures
        sa.len() == t.len(),
        forall|p: i32| 0 <= p < t.len() ==> #[trigger] sa.contains(p),
        forall|i: int, j: int| 0 <= i < j < sa.len() ==> sa[i] != sa[j],
        forall|i: int, j: int|
            0 <= i <= j < sa.len() ==> !lex_lt(
                #[trigger] suffix_of(t, sa, j),
                #[trigger] suffix_of(t, sa, i),
            ),
{
    assert forall|p: i32| 0 <= p < t.len() implies #[trigger] sa.contains(p) by {
        lemma_suffix_array_covers(t, sa, p as int);
    }
    assert forall|i: int, j: int| 0 <= i < j < sa.len() implies sa[i] != sa[j] by {
        lemma_suffix_array_distinct(t, sa, i, j);
    }
    assert forall|i: int, j: int| 0 <= i <= j < sa.len() implies !lex_lt(
        #[trigger] suffix_of(t, sa, j),
        #[trigger] suffix_of(t, sa, i),
    ) by {
        if lex_lt(suffix_of(t, sa, j), suffix_of(t, sa, i)) {
            if i < j {
                lemma_lex_transitive(suffix_of(t, sa, i), suffix_of(t, sa, j), suffix_of(t, sa, i));
            }
            lemma_lex_irreflexive(suffix_of(t, sa, i));
        }
    }
}

/// `rank` tells of each offset at which index `sa` holds it.
pub open spec fn is_inverse(sa: Seq<i32>, rank: Seq<i32>) -> bool {
    &&& rank.len() == sa.len()
    &&& forall|i: int|
        0 <= i < sa.len() ==> 0 <= #[trigger] sa[i] < sa.len() && rank[sa[i] as int] == i
}

/// The suffix at index `i` is greater than the one before it, as far as
/// one look shows: its first byte is greater, or the first bytes are equal
/// and what follows them stands in the same order in `sa`.
pub open spec fn rises_at(t: Seq<u8>, sa: Seq<i32>, rank: Seq<i32>, i: int) -> bool {
    let a = sa[i - 1] as int;
    let b = sa[i] as int;
    t[a] < t[b] || (t[a] == t[b] && b + 1 < t.len() && (a + 1 == t.len() || rank[a + 1] < rank[b
        + 1]))
}

/// The suffix at every index but the first rises.
pub open spec fn rises_everywhere(t: Seq<u8>, sa: Seq<i32>, rank: Seq<i32>) -> bool {
    forall|i: int| 0 < i < sa.len() ==> #[trigger] rises_at(t, sa, rank, i)
}

/// An inverse gives for each offset an index at which that offset stands.
pub proof fn lemma_inverse_finds(sa: Seq<i32>, rank: Seq<i32>, p: int)
    requires
        is_inverse(sa, rank),
        0 <= p < sa.len(),
    ensures
        0 <= rank[p] < sa.len(),
        sa[rank[p] as int] == p,
{
    assert forall|i: int, j: int| 0 <= i < j < sa.len() implies sa[i] != sa[j] by {}
    lemma_distinct_offsets_cover(sa, p);
}

/// Two suffixes with the same first byte stand in the order of what
/// follows that byte.
pub proof fn lemma_order_past_first_byte(t: Seq<u8>, a: int, b: int)
    requires
        0 <= a < t.len(),
        0 <= b < t.len(),
        t[a] == t[b],
    ensures
        lex_lt(suffix(t, a), suffix(t, b)) <==> lex_lt(suffix(t, a + 1), suffix(t, b + 1)),
{
    let x = suffix(t, a);
    let y = suffix(t, b);
    let x1 = suffix(t, a + 1);
    let y1 = suffix(t, b + 1);
    if lex_lt(x, y) {
        let k = choose|k: int| less_at(x, y, k);
        assert forall|j: int| 0 <= j < k - 1 implies x1[j] == y1[j] by {
            assert(x[j + 1] == y[j + 1]);
        }
        assert(less_at(x1, y1, k - 1));
    }
    if lex_lt(x1, y1) {
        let k = choose|k: int| less_at(x1, y1, k);
        assert forall|j: int| 0 <= j < k + 1 implies x[j] == y[j] by {
            if j > 0 {
                assert(x1[j - 1] == y1[j - 1]);
            }
        }
        assert(less_at(x, y, k + 1));
    }
}

/// Where every suffix rises, first bytes never step down along `sa`.
pub proof fn lemma_first_bytes_sorted(t: Seq<u8>, sa: Seq<i32>, rank: Seq<i32>, i: int, j: int)
    requires
        sa.len() == t.len(),
        is_inverse(sa, rank),
        rises_everywhere(t, sa, rank),
        0 <= i <= j < sa.len(),
    ensures
        t[sa[i] as int] <= t[sa[j] as int],
    decreases j - i,
{
    if i < j {
        lemma_first_bytes_sorted(t, sa, rank, i, j - 1);
        assert(rises_at(t, sa, rank, j));
    }
}

/// Where every suffix rises, two suffixes with the same first byte have
/// what follows it in the order of `sa` as well.
pub proof fn lemma_rests_sorted(t: Seq<u8>, sa: Seq<i32>, rank: Seq<i32>, i: int, j: int)
    requires
        sa.len() == t.len(),
        is_inverse(sa, rank),
        rises_everywhere(t, sa, rank),
        0 <= i < j < sa.len(),
        t[sa[i] as int] == t[sa[j] as int],
    ensures
        sa[j] + 1 < t.len(),
        sa[i] + 1 == t.len() || rank[sa[i] + 1] < rank[sa[j] + 1],
    decreases j - i,
{
    assert(rises_at(t, sa, rank, j));
    lemma_first_bytes_sorted(t, sa, rank, i, j - 1);
    lemma_first_bytes_sorted(t, sa, rank, j - 1, j);
    if i < j - 1 {
        lemma_rests_sorted(t, sa, rank, i, j - 1);
    }
}

/// Where every suffix rises, the suffix at an earlier index is the
/// smaller one.
pub proof fn lemma_rising_orders(t: Seq<u8>, sa: Seq<i32>, rank: Seq<i32>, a: int, b: int)
    requires
        sa.len() == t.len(),
        is_inverse(sa, rank),
        rises_everywhere(t, sa, rank),
        0 <= a < t.len(),
        0 <= b < t.len(),
        rank[a] < rank[b],
    ensures
        lex_lt(suffix(t, a), suffix(t, b)),
    decreases t.len() - a + t.len() - b,
{
    lemma_inverse_finds(sa, rank, a);
    lemma_inverse_finds(sa, rank, b);
    let i = rank[a] as int;
    let j = rank[b] as int;
    lemma_first_bytes_sorted(t, sa, rank, i, j);
    if t[a] < t[b] {
        assert(less_at(suffix(t, a), suffix(t, b), 0));
    } else {
        lemma_rests_sorted(t, sa, rank, i, j);
        if a + 1 == t.len() {
            assert(less_at(suffix(t, a + 1), suffix(t, b + 1), 0));
        } else {
            lemma_rising_orders(t, sa, rank, a + 1, b + 1);
        }
        lemma_order_past_first_byte(t, a, b);
    }
}

/// In a suffix array every suffix rises.
pub proof fn lemma_suffix_array_rises(t: Seq<u8>, sa: Seq<i32>, rank: Seq<i32>, i: int)
    requires
        is_suffix_array(t, sa),
        is_inverse(sa, rank),
        0 < i < sa.len(),
    ensures
        rises_at(t, sa, rank, i),
{
    let a = sa[i - 1] as int;
    let b = sa[i] as int;
    let x = suffix(t, a);
    let y = suffix(t, b);
    assert(lex_lt(suffix_of(t, sa, i - 1), suffix_of(t, sa, i)));
    let k = choose|k: int| less_at(x, y, k);
    if k > 0 {
        assert(x[0] == y[0]);
        lemma_order_past_first_byte(t, a, b);
        if a + 1 < t.len() {
            lemma_inverse_finds(sa, rank, a + 1);
            lemma_inverse_finds(sa, rank, b + 1);
            let i1 = rank[a + 1] as int;
            let i2 = rank[b + 1] as int;
            if i1 > i2 {
                assert(lex_lt(suffix_of(t, sa, i2), suffix_of(t, sa, i1)));
                lemma_lex_transitive(suffix(t, a + 1), suffix(t, b + 1), suffix(t, a + 1));
                lemma_lex_irreflexive(suffix(t, a + 1));
            } else if i1 == i2 {
                lemma_lex_irreflexive(suffix(t, a + 1));
            }
        }
    }
}

/// A permutation in which every suffix rises is the suffix array.
pub proof fn lemma_rising_is_suffix_array(t: Seq<u8>, sa: Seq<i32>, rank: Seq<i32>)
    requires
        sa.len() == t.len(),
        is_inverse(sa, rank),
        rises_everywhere(t, sa, rank),
    ensures
        is_suffix_array(t, sa),
{
    assert forall|i: int, j: int| 0 <= i < j < sa.len() implies lex_lt(
        #[trigger] suffix_of(t, sa, i),
        #[trigger] suffix_of(t, sa, j),
    ) by {
        lemma_rising_orders(t, sa, rank, sa[i] as int, sa[j] as int);
    }
}

/// The index at which `sa` holds each offset, where `sa` holds each
/// offset of a text of its own length once; `None` where it does not.
fn invert(sa: &[i32]) -> (r: Option<Vec<i32>>)
    requires
        sa@.len() <= 0x8000_0000,
    ensures
        match r {
            Some(rank) => is_inverse(sa@, rank@),
            None => !(forall|i: int| 0 <= i < sa@.len() ==> 0 <= #[trigger] sa@[i] < sa@.len())
                || exists|i: int, j: int| 0 <= i < j < sa@.len() && sa@[i] == sa@[j],
        },
{
    let n = sa.len();
    let mut rank: Vec<i32> = Vec::new();
    let mut k: usize = 0;
    while k < n
        invariant
            k <= n,
            rank@.len() == k,
            forall|p: int| 0 <= p < k ==> #[trigger] rank@[p] == -1,
        decreases n - k,
    {
        rank.push(-1);
        k = k + 1;
    }
    let mut i: usize = 0;
    while i < n
        invariant
            i <= n,
            n == sa@.len(),
            n <= 0x8000_0000,
            rank@.len() == n,
            forall|j: int| 0 <= j < i ==> 0 <= #[trigger] sa@[j] < n && rank@[sa@[j] as int] == j,
            forall|p: int|
                0 <= p < n ==> #[trigger] rank@[p] == -1 || (0 <= rank@[p] < i && sa@[rank@[p] as int]
                    == p),
        decreases n - i,
    {
        let p = sa[i];
        if p < 0 || p as usize >= n {
            return None;
        }
        if rank[p as usize] != -1 {
            return None;
        }
        rank.set(p as usize, i as i32);
        i = i + 1;
    }
    Some(rank)
}

/// Whether `sa` is the suffix array of `text`.
///
/// The time is linear in the length of the text: after the offsets are
/// seen to be a permutation, each suffix is held against the one before it
/// by its first byte and by where the two rests stand in `sa`.
pub fn check_suffix_array(text: &[u8], sa: &[i32]) -> (ok: bool)
    ensures
        ok == is_suffix_array(text@, sa@),
{
    let n = text.len();
    if sa.len() != n {
        return false;
    }
    if n > 0x8000_0000 {
        // No entry can hold the offset 0x8000_0000.
        proof {
            if is_suffix_array(text@, sa@) {
                lemma_suffix_array_covers(text@, sa@, 0x8000_0000);
            }
        }
        return false;
    }
    let rank = match invert(sa) {
        Some(rank) => rank,
        None => {
            proof {
                if is_suffix_array(text@, sa@) {
                    let (i, j) = choose|i: int, j: int|
                        0 <= i < j < sa@.len() && sa@[i] == sa@[j];
                    lemma_suffix_array_distinct(text@, sa@, i, j);
                }
            }
            return false;
        },
    };
    let mut i: usize = 1;
    while i < n
        invariant
            1 <= i,
            n == text@.len(),
            n == sa@.len(),
            is_inverse(sa@, rank@),
            forall|k: int| 0 < k < i && k < n ==> #[trigger] rises_at(text@, sa@, rank@, k),
        decreases n - i,
    {
        let a = sa[i - 1] as usize;
        let b = sa[i] as usize;
        let rising = text[a] < text[b] || (text[a] == text[b] && b + 1 < n && (a + 1 == n || rank[a
            + 1] < rank[b + 1]));
        if !rising {
            proof {
                if is_suffix_array(text@, sa@) {
                    lemma_suffix_array_rises(text@, sa@, rank@, i as int);
                }
            }
            return false;
        }
        i = i + 1;
    }
    proof {
        lemma_rising_is_suffix_array(text@, sa@, rank@);
    }
    true
}

} // verus!
