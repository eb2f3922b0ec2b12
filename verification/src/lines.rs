use vstd::prelude::*;
use vstd::slice::slice_subrange;
use memchr::memmem::{Finder, FinderRev};

verus! {

/// The byte that ends every entry of a text.
pub const NEWLINE: u8 = 0x0A;

/// `needle` stands in `hay` at offset `i`.
pub open spec fn occurs_at(hay: Seq<u8>, needle: Seq<u8>, i: int) -> bool {
    &&& 0 <= i
    &&& i + needle.len() <= hay.len()
    &&& hay.subrange(i, i + needle.len()) == needle
}

/// `needle` stands somewhere in `hay`.
pub open spec fn occurs_in(hay: Seq<u8>, needle: Seq<u8>) -> bool {
    exists|i: int| occurs_at(hay, needle, i)
}

/// No byte of `s` is a newline.
pub open spec fn newline_free(s: Seq<u8>) -> bool {
    forall|i: int| 0 <= i < s.len() ==> s[i] != NEWLINE
}

/// Where the line around offset `p` starts: one past the last newline
/// strictly before `p`, or 0 where there is none.
pub open spec fn line_start(t: Seq<u8>, p: int) -> int
    decreases p,
{
    if p <= 0 {
        0
    } else if t[p - 1] == NEWLINE {
        p
    } else {
        line_start(t, p - 1)
    }
}

/// Where the line around offset `p` ends: at the first newline at or after
/// `p`, or at the last byte of `t` where there is none.
pub open spec fn line_end(t: Seq<u8>, p: int) -> int
    decreases t.len() - p,
{
    if p >= t.len() {
        t.len() - 1
    } else if t[p] == NEWLINE {
        p
    } else {
        line_end(t, p + 1)
    }
}

/// The line of `t` that starts at `start`, without its newline.
pub open spec fn line_at(t: Seq<u8>, start: int) -> Seq<u8> {
    t.subrange(start, line_end(t, start))
}

/// A one-byte needle stands exactly where that byte stands.
pub proof fn lemma_single_byte_occurs(hay: Seq<u8>, b: u8, i: int)
    ensures
        occurs_at(hay, seq![b], i) <==> 0 <= i < hay.len() && hay[i] == b,
{
    if 0 <= i < hay.len() {
        if hay[i] == b {
            assert(hay.subrange(i, i + 1) =~= seq![b]);
        }
        if occurs_at(hay, seq![b], i) {
            assert(hay.subrange(i, i + 1)[0] == seq![b][0]);
        }
    }
}

/// A line starts at `s` when `s` is 0 or follows a newline, and no newline
/// lies between `s` and `p`.
pub proof fn lemma_line_start_is(t: Seq<u8>, s: int, p: int)
    requires
        0 <= s <= p <= t.len(),
        s == 0 || t[s - 1] == NEWLINE,
        forall|j: int| s <= j < p ==> t[j] != NEWLINE,
    ensures
        line_start(t, p) == s,
    decreases p - s,
{
    if s < p {
        lemma_line_start_is(t, s, p - 1);
    }
}

/// A line ends at `e` when a newline stands at `e` and none between `p`
/// and `e`.
pub proof fn lemma_line_end_is(t: Seq<u8>, p: int, e: int)
    requires
        0 <= p <= e < t.len(),
        t[e] == NEWLINE,
        forall|j: int| p <= j < e ==> t[j] != NEWLINE,
    ensures
        line_end(t, p) == e,
    decreases e - p,
{
    if p < e {
        lemma_line_end_is(t, p + 1, e);
    }
}

/// Without a newline at or after `p`, the line ends at the last byte.
pub proof fn lemma_line_end_without_newline(t: Seq<u8>, p: int)
    requires
        0 <= p <= t.len(),
        forall|j: int| p <= j < t.len() ==> t[j] != NEWLINE,
    ensures
        line_end(t, p) == t.len() - 1,
    decreases t.len() - p,
{
    if p < t.len() {
        lemma_line_end_without_newline(t, p + 1);
    }
}

/// The start of a line lies at or before the offset, with no newline
/// between the two, and is 0 or follows a newline.
pub proof fn lemma_line_start_props(t: Seq<u8>, p: int)
    requires
        0 <= p <= t.len(),
    ensures
        0 <= line_start(t, p) <= p,
        line_start(t, p) == 0 || t[line_start(t, p) - 1] == NEWLINE,
        forall|j: int| line_start(t, p) <= j < p ==> t[j] != NEWLINE,
    decreases p,
{
    if p > 0 && t[p - 1] != NEWLINE {
        lemma_line_start_props(t, p - 1);
    }
}

/// In a text that ends with a newline, the end of a line lies at or after
/// the offset, with no newline between the two, and holds a newline.
pub proof fn lemma_line_end_props(t: Seq<u8>, p: int)
    requires
        0 <= p < t.len(),
        t.last() == NEWLINE,
    ensures
        p <= line_end(t, p) < t.len(),
        t[line_end(t, p)] == NEWLINE,
        forall|j: int| p <= j < line_end(t, p) ==> t[j] != NEWLINE,
    decreases t.len() - p,
{
    if t[p] != NEWLINE {
        lemma_line_end_props(t, p + 1);
    }
}

/// Offsets with no newline between them lie on one line, which ends at
/// one place.
pub proof fn lemma_line_end_shared(t: Seq<u8>, s: int, p: int)
    requires
        0 <= s <= p <= t.len(),
        forall|j: int| s <= j < p ==> t[j] != NEWLINE,
    ensures
        line_end(t, s) == line_end(t, p),
    decreases p - s,
{
    if s < p {
        lemma_line_end_shared(t, s + 1, p);
    }
}

/// The first place where `needle` stands in `haystack`.
///
/// This is `memchr::memmem::Finder::find` on a finder made for `needle`:
/// the contract takes from its documentation that the index returned is
/// that of the first occurrence, and that `None` means there is none.
#[verifier::external_body]
fn find_first(haystack: &[u8], needle: &[u8]) -> (r: Option<usize>)
    ensures
        match r {
            Some(i) => occurs_at(haystack@, needle@, i as int) && forall|j: int|
                0 <= j < i ==> !occurs_at(haystack@, needle@, j),
            None => forall|j: int| !occurs_at(haystack@, needle@, j),
        },
{
    Finder::new(needle).find(haystack)
}

/// The last place where `needle` stands in `haystack`.
///
/// This is `memchr::memmem::FinderRev::rfind` on a finder made for
/// `needle`: the contract takes from its documentation that the index
/// returned is that of the last occurrence, and that `None` means there is
/// none.
#[verifier::external_body]
fn find_last(haystack: &[u8], needle: &[u8]) -> (r: Option<usize>)
    ensures
        match r {
            Some(i) => occurs_at(haystack@, needle@, i as int) && forall|j: int|
                i < j ==> !occurs_at(haystack@, needle@, j),
            None => forall|j: int| !occurs_at(haystack@, needle@, j),
        },
{
    FinderRev::new(needle).rfind(haystack)
}

/// Where the line around offset `pos` of `text` starts and ends.
pub fn line_bounds(text: &[u8], pos: usize) -> (r: (usize, usize))
    requires
        pos < text@.len(),
    ensures
        r.0 == line_start(text@, pos as int),
        r.1 == line_end(text@, pos as int),
        r.0 <= r.1 < text@.len(),
{
    let ghost t = text@;
    let n = text.len();
    let needle: [u8; 1] = [NEWLINE];
    let after = slice_subrange(text, pos, n);
    let before = slice_subrange(text, 0, pos);
    assert(needle@ =~= seq![NEWLINE]);
    let end = match find_first(after, needle.as_slice()) {
        Some(k) => {
            proof {
                lemma_single_byte_occurs(after@, NEWLINE, k as int);
                assert forall|j: int| pos <= j < pos + k implies t[j] != NEWLINE by {
                    lemma_single_byte_occurs(after@, NEWLINE, j - pos);
                }
                lemma_line_end_is(t, pos as int, pos + k);
            }
            pos + k
        },
        None => {
            proof {
                assert forall|j: int| pos <= j < n implies t[j] != NEWLINE by {
                    lemma_single_byte_occurs(after@, NEWLINE, j - pos);
                }
                lemma_line_end_without_newline(t, pos as int);
            }
            n - 1
        },
    };
    let start = match find_last(before, needle.as_slice()) {
        Some(k) => {
            proof {
                lemma_single_byte_occurs(before@, NEWLINE, k as int);
                assert forall|j: int| k + 1 <= j < pos implies t[j] != NEWLINE by {
                    lemma_single_byte_occurs(before@, NEWLINE, j);
                }
                lemma_line_start_is(t, k + 1, pos as int);
            }
            k + 1
        },
        None => {
            proof {
                assert forall|j: int| 0 <= j < pos implies t[j] != NEWLINE by {
                    lemma_single_byte_occurs(before@, NEWLINE, j);
                }
                lemma_line_start_is(t, 0, pos as int);
            }
            0
        },
    };
    (start, end)
}

} // verus!
