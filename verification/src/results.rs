use vstd::prelude::*;
use crate::entries::{
    all_newline_free, blob_of, lemma_entry_at_offset, lemma_line_starts_at_entry,
    lemma_offsets_ordered, offset_of,
};
use crate::lines::{
    lemma_line_end_is, lemma_line_end_props, lemma_line_end_shared, lemma_line_start_is,
    lemma_line_start_props, line_at, line_start, newline_free, occurs_at, occurs_in,
    NEWLINE,
};
use crate::subindex::{
    line_starts, line_texts, match_positions, search_lines, valid_sub_index,
};
use crate::suffix::lemma_suffix_array_covers;

verus! {

/// The entry `e` is stored in the text `t` as the line that starts at `s`:
/// it stands there whole, a newline follows it, and it follows a newline
/// or opens the text.
pub open spec fn is_entry_at(t: Seq<u8>, e: Seq<u8>, s: int) -> bool {
    &&& 0 <= s
    &&& s + e.len() < t.len()
    &&& s == 0 || t[s - 1] == NEWLINE
    &&& t.subrange(s, s + e.len()) == e
    &&& t[s + e.len()] == NEWLINE
    &&& newline_free(e)
}

/// The entry `e` is stored in the text `t`.
pub open spec fn is_entry_of(t: Seq<u8>, e: Seq<u8>) -> bool {
    exists|s: int| is_entry_at(t, e, s)
}

/// The starts of the lines that a search of one sub-index returns.
pub open spec fn search_starts(t: Seq<u8>, sa: Seq<i32>, q: Seq<u8>) -> Seq<int> {
    let positions = match_positions(t, sa, q);
    line_starts(t, positions, positions.len() as int)
}

/// Every collected start is the start of the line around one of the offsets.
pub proof fn lemma_line_starts_come_from(t: Seq<u8>, positions: Seq<i32>, k: int, m: int)
    requires
        0 <= k <= positions.len(),
        0 <= m < line_starts(t, positions, k).len(),
    ensures
        exists|j: int|
            0 <= j < k && line_starts(t, positions, k)[m] == line_start(
                t,
                #[trigger] positions[j] as int,
            ),
    decreases k,
{
    let before = line_starts(t, positions, k - 1);
    if m < before.len() {
        lemma_line_starts_come_from(t, positions, k - 1, m);
        let j = choose|j: int|
            0 <= j < k - 1 && before[m] == line_start(t, #[trigger] positions[j] as int);
    }
}

/// The start of the line around each of the offsets is collected.
pub proof fn lemma_line_starts_hold(t: Seq<u8>, positions: Seq<i32>, k: int, j: int)
    requires
        0 <= j < k <= positions.len(),
    ensures
        line_starts(t, positions, k).contains(line_start(t, positions[j] as int)),
    decreases k,
{
    let before = line_starts(t, positions, k - 1);
    let now = line_starts(t, positions, k);
    if j < k - 1 {
        lemma_line_starts_hold(t, positions, k - 1, j);
        let m = choose|m: int|
            0 <= m < before.len() && before[m] == line_start(t, positions[j] as int);
        assert(now[m] == before[m]);
    } else {
        let s = line_start(t, positions[j] as int);
        if !before.contains(s) {
            assert(now[now.len() - 1] == s);
        }
    }
}

/// No start is collected twice.
pub proof fn lemma_line_starts_distinct(t: Seq<u8>, positions: Seq<i32>, k: int)
    ensures
        line_starts(t, positions, k).no_duplicates(),
    decreases k,
{
    if k > 0 {
        lemma_line_starts_distinct(t, positions, k - 1);
    }
}

/// Whatever a filter lets through stood in the sequence it was applied to.
pub proof fn lemma_filter_keeps<A>(s: Seq<A>, pred: spec_fn(A) -> bool, i: int)
    requires
        0 <= i < s.filter(pred).len(),
    ensures
        s.contains(s.filter(pred)[i]),
    decreases s.len(),
{
    reveal(Seq::filter);
    if s.len() > 0 {
        let rest = s.drop_last();
        if i < rest.filter(pred).len() {
            lemma_filter_keeps(rest, pred, i);
        }
    }
}

/// One sub-index gives no line twice: the lines of a result start at
/// different offsets of the text.
pub proof fn lemma_search_gives_each_line_once(t: Seq<u8>, sa: Seq<i32>, q: Seq<u8>)
    ensures
        search_lines(t, sa, q) == line_texts(t, search_starts(t, sa, q)),
        search_starts(t, sa, q).no_duplicates(),
{
    let positions = match_positions(t, sa, q);
    lemma_line_starts_distinct(t, positions, positions.len() as int);
}

/// A query without a newline stands in every line that a search for it
/// returns.
pub proof fn lemma_search_sound(t: Seq<u8>, sa: Seq<i32>, q: Seq<u8>, k: int)
    requires
        valid_sub_index(t, sa),
        newline_free(q),
        0 <= k < search_lines(t, sa, q).len(),
    ensures
        occurs_in(search_lines(t, sa, q)[k], q),
{
    let pred = |p: i32| occurs_at(t, q, p as int);
    let positions = match_positions(t, sa, q);
    let starts = search_starts(t, sa, q);
    lemma_line_starts_come_from(t, positions, positions.len() as int, k);
    let j = choose|j: int|
        0 <= j < positions.len() && starts[k] == line_start(t, #[trigger] positions[j] as int);
    sa.lemma_filter_pred(pred, j);
    let p = positions[j] as int;
    let s = starts[k];
    lemma_line_start_props(t, p);
    let e = p + q.len();
    assert forall|i: int| s <= i < e implies t[i] != NEWLINE by {
        if i >= p {
            assert(t.subrange(p, e)[i - p] == q[i - p]);
        }
    }
    assert(e < t.len()) by {
        lemma_filter_keeps(sa, pred, j);
    }
    lemma_line_end_shared(t, s, e);
    lemma_line_end_props(t, e);
    let line = line_at(t, s);
    assert(line.subrange(p - s, p - s + q.len()) =~= t.subrange(p, e));
    assert(occurs_at(line, q, p - s));
}

/// The line of a stored entry is among those that the search for anything
/// in the entry collects, and that line is the entry.
pub proof fn lemma_start_is_found(t: Seq<u8>, sa: Seq<i32>, q: Seq<u8>, e: Seq<u8>, s: int)
    requires
        valid_sub_index(t, sa),
        is_entry_at(t, e, s),
        occurs_in(e, q),
    ensures
        search_starts(t, sa, q).contains(s),
        line_at(t, s) == e,
{
    let pred = |p: i32| occurs_at(t, q, p as int);
    let positions = match_positions(t, sa, q);
    let off = choose|off: int| occurs_at(e, q, off);
    let p = s + off;
    let stored = t.subrange(s, s + e.len());
    assert(t.subrange(p, p + q.len()) =~= stored.subrange(off, off + q.len()));
    lemma_suffix_array_covers(t, sa, p);
    let i = choose|i: int| 0 <= i < sa.len() && #[trigger] sa[i] == p;
    sa.lemma_filter_contains(pred, i);
    let j = choose|j: int| 0 <= j < positions.len() && positions[j] == sa[i];
    assert forall|x: int| s <= x < s + e.len() implies t[x] != NEWLINE by {
        assert(t.subrange(s, s + e.len())[x - s] == e[x - s]);
    }
    lemma_line_start_is(t, s, p);
    lemma_line_end_is(t, s, s + e.len());
    lemma_line_starts_hold(t, positions, positions.len() as int, j);
}

/// A stored entry is returned by the search for anything that stands in it.
pub proof fn lemma_search_complete(t: Seq<u8>, sa: Seq<i32>, q: Seq<u8>, e: Seq<u8>)
    requires
        valid_sub_index(t, sa),
        is_entry_of(t, e),
        occurs_in(e, q),
    ensures
        search_lines(t, sa, q).contains(e),
{
    let starts = search_starts(t, sa, q);
    let s = choose|s: int| is_entry_at(t, e, s);
    lemma_start_is_found(t, sa, q, e, s);
    let m = choose|m: int| 0 <= m < starts.len() && starts[m] == s;
    assert(search_lines(t, sa, q)[m] == line_at(t, s));
}

/// `lines` holds the entries, each as often as `entries` does, in some
/// order: line `m` is entry `order[m]`, and `order` names every entry once.
pub open spec fn arranges(order: Seq<int>, lines: Seq<Seq<u8>>, entries: Seq<Seq<u8>>) -> bool {
    &&& order.len() == entries.len()
    &&& lines.len() == entries.len()
    &&& order.no_duplicates()
    &&& forall|m: int|
        0 <= m < order.len() ==> 0 <= #[trigger] order[m] < entries.len() && lines[m]
            == entries[order[m]]
}

/// `lines` is a rearrangement of `entries`.
pub open spec fn is_rearrangement(lines: Seq<Seq<u8>>, entries: Seq<Seq<u8>>) -> bool {
    exists|order: Seq<int>| arranges(order, lines, entries)
}

/// With the empty query, the search of a blob returns exactly its entries:
/// each once for each place where it is stored, and nothing else.
pub proof fn lemma_empty_query_lists_blob(entries: Seq<Seq<u8>>, sa: Seq<i32>)
    requires
        all_newline_free(entries),
        valid_sub_index(blob_of(entries), sa),
    ensures
        is_rearrangement(search_lines(blob_of(entries), sa, Seq::empty()), entries),
{
    let t = blob_of(entries);
    let q = Seq::<u8>::empty();
    let n = entries.len() as int;
    let positions = match_positions(t, sa, q);
    let starts = search_starts(t, sa, q);
    let lines = search_lines(t, sa, q);
    let offsets = Seq::new(entries.len(), |k: int| offset_of(entries, k));
    assert forall|j: int, k: int| 0 <= j < k < offsets.len() implies offsets[j] != offsets[k] by {
        lemma_offsets_ordered(entries, j, k);
    }
    assert forall|k: int| 0 <= k < n implies starts.contains(#[trigger] offsets[k]) && line_at(
        t,
        offsets[k],
    ) == entries[k] by {
        lemma_entry_at_offset(entries, k);
        assert(entries[k].subrange(0, 0) =~= q);
        assert(occurs_at(entries[k], q, 0));
        lemma_start_is_found(t, sa, q, entries[k], offset_of(entries, k));
    }
    assert forall|m: int| 0 <= m < starts.len() implies offsets.contains(#[trigger] starts[m]) by {
        lemma_line_starts_come_from(t, positions, positions.len() as int, m);
        let j = choose|j: int|
            0 <= j < positions.len() && starts[m] == line_start(t, #[trigger] positions[j] as int);
        lemma_filter_keeps(sa, |p: i32| occurs_at(t, q, p as int), j);
        lemma_line_starts_at_entry(entries, positions[j] as int);
        let k = choose|k: int|
            0 <= k < entries.len() && line_start(t, positions[j] as int) == offset_of(entries, k);
        assert(offsets[k] == starts[m]);
    }
    lemma_line_starts_distinct(t, positions, positions.len() as int);
    assert(starts.to_set() =~= offsets.to_set());
    starts.unique_seq_to_set();
    offsets.unique_seq_to_set();
    let order = Seq::new(
        starts.len(),
        |m: int| choose|k: int| 0 <= k < n && offsets[k] == starts[m],
    );
    assert forall|m: int| 0 <= m < order.len() implies 0 <= #[trigger] order[m] < n && lines[m]
        == entries[order[m]] by {}
    assert forall|a: int, b: int|
        0 <= a < order.len() && 0 <= b < order.len() && a != b implies order[a] != order[b] by {}
    assert(arranges(order, lines, entries));
}

/// Rearrangements put one after the other rearrange the entries put one
/// after the other.
pub proof fn lemma_rearrangement_append(
    lines: Seq<Seq<u8>>,
    entries: Seq<Seq<u8>>,
    more_lines: Seq<Seq<u8>>,
    more_entries: Seq<Seq<u8>>,
)
    requires
        is_rearrangement(lines, entries),
        is_rearrangement(more_lines, more_entries),
    ensures
        is_rearrangement(lines + more_lines, entries + more_entries),
{
    let first = choose|order: Seq<int>| arranges(order, lines, entries);
    let second = choose|order: Seq<int>| arranges(order, more_lines, more_entries);
    let n = entries.len() as int;
    let order = first + Seq::new(second.len(), |m: int| second[m] + n);
    assert forall|m: int| 0 <= m < order.len() implies 0 <= #[trigger] order[m] < (entries
        + more_entries).len() && (lines + more_lines)[m] == (entries + more_entries)[order[m]] by {}
    assert forall|a: int, b: int|
        0 <= a < order.len() && 0 <= b < order.len() && a != b implies order[a] != order[b] by {}
    assert(arranges(order, lines + more_lines, entries + more_entries));
}

/// With the empty query a search returns every stored entry.
pub proof fn lemma_empty_query_finds_all(t: Seq<u8>, sa: Seq<i32>, e: Seq<u8>)
    requires
        valid_sub_index(t, sa),
        is_entry_of(t, e),
    ensures
        search_lines(t, sa, Seq::empty()).contains(e),
{
    assert(e.subrange(0, 0) =~= Seq::<u8>::empty());
    assert(occurs_at(e, Seq::empty(), 0));
    lemma_search_complete(t, sa, Seq::empty(), e);
}

/// A query that stands nowhere in the text finds nothing.
pub proof fn lemma_search_empty(t: Seq<u8>, sa: Seq<i32>, q: Seq<u8>)
    requires
        !occurs_in(t, q),
    ensures
        search_lines(t, sa, q).len() == 0,
{
    let pred = |p: i32| occurs_at(t, q, p as int);
    let positions = match_positions(t, sa, q);
    if positions.len() > 0 {
        sa.lemma_filter_pred(pred, 0);
    }
}

} // verus!
