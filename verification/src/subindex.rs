use vstd::prelude::*;
use vstd::slice::{slice_subrange, slice_to_vec};
use crate::codec::MAX_TEXT_LEN;
use crate::error::IndexError;
use crate::lex::{classify, is_prefix, lemma_side_monotone, side, side_rank, Side};
use crate::lines::{
    lemma_line_end_shared, lemma_line_start_props, line_at, line_bounds, line_start, occurs_at,
    NEWLINE,
};
use crate::seen::{offset_set_insert, offset_set_new, offsets_held};
use crate::suffix::{check_suffix_array, is_suffix_array, suffix, suffix_of};

verus! {

/// A text blob: at least one entry, each ended by a newline.
pub open spec fn is_text_blob(t: Seq<u8>) -> bool {
    t.len() > 0 && t.last() == NEWLINE
}

/// The query stands in the text where entry `i` of the suffix array points.
pub open spec fn matches_at(t: Seq<u8>, sa: Seq<i32>, q: Seq<u8>, i: int) -> bool {
    occurs_at(t, q, sa[i] as int)
}

/// `[lo, hi)` holds exactly the indexes of `sa` at which the query matches.
pub open spec fn is_match_range(t: Seq<u8>, sa: Seq<i32>, q: Seq<u8>, lo: int, hi: int) -> bool {
    &&& 0 <= lo <= hi <= sa.len()
    &&& forall|i: int| 0 <= i < sa.len() ==> (lo <= i < hi <==> #[trigger] matches_at(t, sa, q, i))
}

/// The offsets at which the query stands in the text, in suffix-array order.
pub open spec fn match_positions(t: Seq<u8>, sa: Seq<i32>, q: Seq<u8>) -> Seq<i32> {
    sa.filter(|p: i32| occurs_at(t, q, p as int))
}

/// The starts of the lines around the first `k` of the given offsets, each
/// start once, in the order in which they first come up.
pub open spec fn line_starts(t: Seq<u8>, positions: Seq<i32>, k: int) -> Seq<int>
    decreases k,
{
    if k <= 0 {
        Seq::empty()
    } else {
        let before = line_starts(t, positions, k - 1);
        let s = line_start(t, positions[k - 1] as int);
        if before.contains(s) {
            before
        } else {
            before.push(s)
        }
    }
}

/// What a search of one sub-index returns: the line around each place
/// where the query stands, in suffix-array order, each line once.
pub open spec fn search_lines(t: Seq<u8>, sa: Seq<i32>, q: Seq<u8>) -> Seq<Seq<u8>> {
    let positions = match_positions(t, sa, q);
    line_texts(t, line_starts(t, positions, positions.len() as int))
}

/// The lines of `t` that start at the given offsets.
pub open spec fn line_texts(t: Seq<u8>, starts: Seq<int>) -> Seq<Seq<u8>> {
    starts.map_values(|s: int| line_at(t, s))
}

/// The byte strings that a vector of lines holds.
pub open spec fn lines_view(lines: Seq<Vec<u8>>) -> Seq<Seq<u8>> {
    lines.map_values(|l: Vec<u8>| l@)
}

/// On which side of the query the suffix at index `i` lies.
pub open spec fn side_of(t: Seq<u8>, sa: Seq<i32>, q: Seq<u8>, i: int) -> Side {
    side(q, suffix_of(t, sa, i))
}

/// A suffix starts with the query exactly when the query stands at its offset.
pub proof fn lemma_prefix_is_occurrence(t: Seq<u8>, q: Seq<u8>, p: int)
    requires
        0 <= p <= t.len(),
    ensures
        is_prefix(q, suffix(t, p)) <==> occurs_at(t, q, p),
{
    if p + q.len() <= t.len() {
        assert(suffix(t, p).subrange(0, q.len() as int) =~= t.subrange(p, p + q.len()));
    }
}

/// Along a suffix array the sides never step back.
pub proof fn lemma_sides_sorted(t: Seq<u8>, sa: Seq<i32>, q: Seq<u8>, i: int, j: int)
    requires
        is_suffix_array(t, sa),
        0 <= i <= j < sa.len(),
    ensures
        side_rank(side_of(t, sa, q, i)) <= side_rank(side_of(t, sa, q, j)),
{
    if i < j {
        lemma_side_monotone(q, suffix_of(t, sa, i), suffix_of(t, sa, j));
    }
}

/// Filtering a sequence by a predicate that holds exactly on one range of
/// its indexes gives that range.
pub proof fn lemma_filter_is_range<A>(s: Seq<A>, pred: spec_fn(A) -> bool, lo: int, hi: int)
    requires
        0 <= lo <= hi <= s.len(),
        forall|i: int| 0 <= i < s.len() ==> (lo <= i < hi <==> pred(#[trigger] s[i])),
    ensures
        s.filter(pred) == s.subrange(lo, hi),
    decreases s.len(),
{
    reveal(Seq::filter);
    if s.len() == 0 {
    } else {
        let rest = s.drop_last();
        let last = s.len() - 1;
        if lo <= last < hi {
            assert forall|i: int| 0 <= i < rest.len() implies (lo <= i < last <==> pred(
                #[trigger] rest[i],
            )) by {}
            lemma_filter_is_range(rest, pred, lo, last);
        } else {
            let lo2 = if lo < last { lo } else { last };
            let hi2 = if hi < last { hi } else { last };
            assert forall|i: int| 0 <= i < rest.len() implies (lo2 <= i < hi2 <==> pred(
                #[trigger] rest[i],
            )) by {}
            lemma_filter_is_range(rest, pred, lo2, hi2);
        }
    }
}

/// One chunk of an index: a text blob and its suffix array.
pub struct SubIndex {
    text: Vec<u8>,
    suffixes: Vec<i32>,
}

impl View for SubIndex {
    type V = (Seq<u8>, Seq<i32>);

    /// The text and the suffix array.
    closed spec fn view(&self) -> (Seq<u8>, Seq<i32>) {
        (self.text@, self.suffixes@)
    }
}

/// What every sub-index satisfies: its text is a blob that a record can
/// hold, and its array is the suffix array of that text.
pub open spec fn valid_sub_index(t: Seq<u8>, sa: Seq<i32>) -> bool {
    is_text_blob(t) && t.len() <= MAX_TEXT_LEN && is_suffix_array(t, sa)
}

impl SubIndex {
    #[verifier::type_invariant]
    pub closed spec fn well_formed(&self) -> bool {
        valid_sub_index(self.text@, self.suffixes@)
    }

    /// Makes a sub-index of a text and an array, after checking that the
    /// text is a blob and the array its suffix array.
    pub fn new(text: Vec<u8>, suffixes: Vec<i32>) -> (r: Result<SubIndex, IndexError>)
        ensures
            r is Ok <==> valid_sub_index(text@, suffixes@),
            r matches Ok(s) ==> s@ == (text@, suffixes@),
            r matches Err(e) ==> e == IndexError::CorruptIndex,
    {
        let n = text.len();
        if n == 0 || n > MAX_TEXT_LEN || text[n - 1] != NEWLINE {
            return Err(IndexError::CorruptIndex);
        }
        if !check_suffix_array(text.as_slice(), suffixes.as_slice()) {
            return Err(IndexError::CorruptIndex);
        }
        Ok(SubIndex { text, suffixes })
    }

    /// The text blob.
    pub fn text(&self) -> (t: &[u8])
        ensures
            t@ == self@.0,
            is_text_blob(t@),
    {
        proof {
            use_type_invariant(self);
        }
        self.text.as_slice()
    }

    /// The suffix array.
    pub fn suffixes(&self) -> (sa: &[i32])
        ensures
            sa@ == self@.1,
            is_suffix_array(self@.0, sa@),
    {
        proof {
            use_type_invariant(self);
        }
        self.suffixes.as_slice()
    }

    /// The range of suffix-array indexes at which `query` matches, found by
    /// two binary searches; `None` where it matches nowhere.
    pub fn locate(&self, query: &[u8]) -> (r: Option<(usize, usize)>)
        ensures
            match r {
                Some((lo, hi)) => lo < hi && is_match_range(
                    self@.0,
                    self@.1,
                    query@,
                    lo as int,
                    hi as int,
                ),
                None => is_match_range(self@.0, self@.1, query@, 0, 0),
            },
    {
        proof {
            use_type_invariant(self);
        }
        let ghost t = self.text@;
        let ghost sa = self.suffixes@;
        let ghost q = query@;
        let n = self.suffixes.len();
        let mut left: usize = 0;
        let mut right: usize = n;
        let mut start: Option<usize> = None;
        while left < right
            invariant
                t == self.text@,
                sa == self.suffixes@,
                q == query@,
                n == sa.len(),
                is_suffix_array(t, sa),
                left <= right <= n,
                forall|i: int| 0 <= i < left ==> #[trigger] side_of(t, sa, q, i) == Side::Before,
                forall|i: int| right <= i < n ==> #[trigger] side_of(t, sa, q, i) != Side::Before,
                match start {
                    Some(f) => f == right && f < n && side_of(t, sa, q, f as int) == Side::Match,
                    None => forall|i: int|
                        right <= i < n ==> #[trigger] side_of(t, sa, q, i) == Side::After,
                },
            decreases right - left,
        {
            let mid = left + (right - left) / 2;
            let pos = self.suffixes[mid];
            let c = classify(query, self.text.as_slice(), pos as usize);
            match c {
                Side::Match => {
                    proof {
                        assert forall|i: int| mid <= i < n implies #[trigger] side_of(t, sa, q, i)
                            != Side::Before by {
                            lemma_sides_sorted(t, sa, q, mid as int, i);
                        }
                    }
                    start = Some(mid);
                    right = mid;
                },
                Side::Before => {
                    proof {
                        assert forall|i: int| 0 <= i < mid + 1 implies #[trigger] side_of(
                            t,
                            sa,
                            q,
                            i,
                        ) == Side::Before by {
                            lemma_sides_sorted(t, sa, q, i, mid as int);
                        }
                    }
                    left = mid + 1;
                },
                Side::After => {
                    proof {
                        if let Some(f) = start {
                            lemma_sides_sorted(t, sa, q, mid as int, f as int);
                        }
                        assert forall|i: int| mid <= i < n implies #[trigger] side_of(t, sa, q, i)
                            == Side::After by {
                            lemma_sides_sorted(t, sa, q, mid as int, i);
                        }
                    }
                    right = mid;
                },
            }
        }
        let lo = match start {
            Some(f) => f,
            None => {
                proof {
                    assert forall|i: int| 0 <= i < n implies (0 <= i < 0 <==> #[trigger] matches_at(
                        t,
                        sa,
                        q,
                        i,
                    )) by {
                        lemma_prefix_is_occurrence(t, q, sa[i] as int);
                        assert(side_of(t, sa, q, i) != Side::Match);
                    }
                }
                return None;
            },
        };
        let mut left: usize = lo;
        let mut right: usize = n;
        while left < right
            invariant
                t == self.text@,
                sa == self.suffixes@,
                q == query@,
                n == sa.len(),
                is_suffix_array(t, sa),
                lo < n,
                side_of(t, sa, q, lo as int) == Side::Match,
                lo <= left <= right <= n,
                forall|i: int| lo <= i < left ==> #[trigger] side_of(t, sa, q, i) == Side::Match,
                forall|i: int| right <= i < n ==> #[trigger] side_of(t, sa, q, i) == Side::After,
            decreases right - left,
        {
            let mid = left + (right - left) / 2;
            let pos = self.suffixes[mid];
            let c = classify(query, self.text.as_slice(), pos as usize);
            proof {
                lemma_sides_sorted(t, sa, q, lo as int, mid as int);
            }
            match c {
                Side::Match => {
                    proof {
                        assert forall|i: int| lo <= i < mid + 1 implies #[trigger] side_of(
                            t,
                            sa,
                            q,
                            i,
                        ) == Side::Match by {
                            lemma_sides_sorted(t, sa, q, lo as int, i);
                            lemma_sides_sorted(t, sa, q, i, mid as int);
                        }
                    }
                    left = mid + 1;
                },
                Side::Before => {
                    left = mid + 1;
                },
                Side::After => {
                    proof {
                        assert forall|i: int| mid <= i < n implies #[trigger] side_of(t, sa, q, i)
                            == Side::After by {
                            lemma_sides_sorted(t, sa, q, mid as int, i);
                        }
                    }
                    right = mid;
                },
            }
        }
        proof {
            assert forall|i: int| 0 <= i < n implies (lo <= i < left <==> #[trigger] matches_at(
                t,
                sa,
                q,
                i,
            )) by {
                lemma_prefix_is_occurrence(t, q, sa[i] as int);
                if i < lo {
                    assert(side_of(t, sa, q, i) == Side::Before);
                }
            }
        }
        Some((lo, left))
    }

    /// Every line of the text in which `query` stands, each line once, in
    /// the order in which the suffix array comes upon them. An empty query
    /// stands everywhere, so it finds every line.
    pub fn search(&self, query: &[u8]) -> (lines: Vec<Vec<u8>>)
        ensures
            lines_view(lines@) == search_lines(self@.0, self@.1, query@),
    {
        proof {
            use_type_invariant(self);
        }
        let ghost t = self.text@;
        let ghost sa = self.suffixes@;
        let ghost positions = match_positions(t, sa, query@);
        let (lo, hi) = match self.locate(query) {
            Some(range) => range,
            None => (0, 0),
        };
        proof {
            let pred = |p: i32| occurs_at(t, query@, p as int);
            assert forall|i: int| 0 <= i < sa.len() implies (lo <= i < hi <==> pred(
                #[trigger] sa[i],
            )) by {
                assert(matches_at(t, sa, query@, i) == pred(sa[i]));
            }
            lemma_filter_is_range(sa, pred, lo as int, hi as int);
        }
        let text = self.text.as_slice();
        let mut seen = offset_set_new();
        let mut lines: Vec<Vec<u8>> = Vec::new();
        let ghost mut starts: Seq<int> = Seq::empty();
        let mut i: usize = lo;
        while i < hi
            invariant
                t == self.text@,
                sa == self.suffixes@,
                text@ == t,
                valid_sub_index(t, sa),
                lo <= i <= hi <= sa.len(),
                positions == sa.subrange(lo as int, hi as int),
                starts == line_starts(t, positions, i - lo),
                forall|v: usize| #[trigger]
                    offsets_held(seen).contains(v) ==> starts.contains(v as int),
                forall|k: int|
                    0 <= k < starts.len() ==> 0 <= #[trigger] starts[k] < t.len()
                        && offsets_held(seen).contains(starts[k] as usize),
                lines_view(lines@) == line_texts(t, starts),
            decreases hi - i,
        {
            let pos = self.suffixes[i] as usize;
            let (start, end) = line_bounds(text, pos);
            proof {
                lemma_line_start_props(t, pos as int);
                lemma_line_end_shared(t, start as int, pos as int);
            }
            let ghost old_lines = lines@;
            let ghost old_starts = starts;
            if offset_set_insert(&mut seen, start) {
                let line = slice_to_vec(slice_subrange(text, start, end));
                lines.push(line);
                proof {
                    starts = starts.push(start as int);
                    assert(lines_view(lines@) =~= line_texts(t, starts)) by {
                        assert(lines_view(old_lines).len() == old_lines.len());
                        assert forall|k: int| 0 <= k < starts.len() implies lines_view(lines@)[k]
                            == line_texts(t, starts)[k] by {
                            if k < old_starts.len() {
                                assert(lines_view(old_lines)[k] == line_texts(t, old_starts)[k]);
                            }
                        }
                    }
                    assert forall|v: usize| #[trigger]
                        offsets_held(seen).contains(v) implies starts.contains(v as int) by {
                        if v == start {
                            assert(starts[starts.len() - 1] == start);
                        } else {
                            let k = choose|k: int|
                                0 <= k < old_starts.len() && old_starts[k] == v as int;
                            assert(starts[k] == v);
                        }
                    }
                }
            }
            i = i + 1;
        }
        lines
    }
}

} // verus!
