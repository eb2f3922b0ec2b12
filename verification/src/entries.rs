use vstd::prelude::*;
use crate::lines::{
    lemma_line_start_is, line_start, newline_free, occurs_at, occurs_in, NEWLINE,
};
use crate::results::is_entry_at;
use crate::writer::{add_all, must_flush, stored, written_chunks};

verus! {

/// The text blob that holds `entries` in order, a newline after each.
pub open spec fn blob_of(entries: Seq<Seq<u8>>) -> Seq<u8>
    decreases entries.len(),
{
    if entries.len() == 0 {
        Seq::empty()
    } else {
        blob_of(entries.drop_last()) + stored(entries.last())
    }
}

/// Where entry `k` starts in the blob of `entries`.
pub open spec fn offset_of(entries: Seq<Seq<u8>>, k: int) -> int {
    blob_of(entries.take(k)).len() as int
}

/// No entry holds a newline.
pub open spec fn all_newline_free(entries: Seq<Seq<u8>>) -> bool {
    forall|k: int| 0 <= k < entries.len() ==> newline_free(#[trigger] entries[k])
}

/// A blob is empty where there are no entries, and ends with a newline
/// where there are some.
pub proof fn lemma_blob_ends(entries: Seq<Seq<u8>>)
    ensures
        blob_of(entries).len() > 0 <==> entries.len() > 0,
        entries.len() > 0 ==> blob_of(entries).last() == NEWLINE,
{
}

/// Each entry starts after the ones before it, and its newline.
pub proof fn lemma_offsets_rise(entries: Seq<Seq<u8>>, k: int)
    requires
        0 <= k < entries.len(),
    ensures
        offset_of(entries, 0) == 0,
        offset_of(entries, k + 1) == offset_of(entries, k) + entries[k].len() + 1,
        offset_of(entries, k + 1) <= blob_of(entries).len(),
        offset_of(entries, entries.len() as int) == blob_of(entries).len(),
    decreases entries.len() - k,
{
    assert(entries.take(k + 1).drop_last() =~= entries.take(k));
    if k + 1 < entries.len() {
        lemma_offsets_rise(entries, k + 1);
    }
}

/// Later entries start at greater offsets.
pub proof fn lemma_offsets_ordered(entries: Seq<Seq<u8>>, j: int, k: int)
    requires
        0 <= j < k <= entries.len(),
    ensures
        offset_of(entries, j) < offset_of(entries, k),
    decreases k - j,
{
    lemma_offsets_rise(entries, k - 1);
    if j < k - 1 {
        lemma_offsets_ordered(entries, j, k - 1);
    }
}

/// The blob of the first entries opens the blob of all of them.
pub proof fn lemma_blob_prefix(entries: Seq<Seq<u8>>, k: int)
    requires
        0 <= k <= entries.len(),
    ensures
        blob_of(entries.take(k)).len() <= blob_of(entries).len(),
        blob_of(entries).subrange(0, blob_of(entries.take(k)).len() as int) == blob_of(
            entries.take(k),
        ),
    decreases entries.len() - k,
{
    if k == entries.len() {
        assert(entries.take(k) =~= entries);
    } else {
        lemma_blob_prefix(entries, k + 1);
        assert(entries.take(k + 1).drop_last() =~= entries.take(k));
        let longer = blob_of(entries.take(k + 1));
        let shorter = blob_of(entries.take(k));
        assert(blob_of(entries).subrange(0, shorter.len() as int) =~= blob_of(entries).subrange(
            0,
            longer.len() as int,
        ).subrange(0, shorter.len() as int));
    }
}

/// Every entry is stored in the blob at its offset.
pub proof fn lemma_entry_at_offset(entries: Seq<Seq<u8>>, k: int)
    requires
        all_newline_free(entries),
        0 <= k < entries.len(),
    ensures
        is_entry_at(blob_of(entries), entries[k], offset_of(entries, k)),
{
    let t = blob_of(entries);
    let s = offset_of(entries, k);
    let e = entries[k];
    lemma_offsets_rise(entries, k);
    lemma_blob_prefix(entries, k);
    lemma_blob_prefix(entries, k + 1);
    lemma_blob_ends(entries.take(k));
    let upto = blob_of(entries.take(k + 1));
    assert(t.subrange(s, s + e.len()) =~= e) by {
        assert forall|i: int| 0 <= i < e.len() implies t[s + i] == e[i] by {
            assert(t.subrange(0, upto.len() as int)[s + i] == upto[s + i]);
        }
    }
    assert(t[s + e.len()] == NEWLINE) by {
        assert(t.subrange(0, upto.len() as int)[s + e.len()] == upto[s + e.len()]);
    }
}

/// What stands in a blob and holds no newline stands in one of the entries.
pub proof fn lemma_occurrence_in_entry(entries: Seq<Seq<u8>>, q: Seq<u8>)
    requires
        newline_free(q),
        q.len() > 0,
        occurs_in(blob_of(entries), q),
    ensures
        exists|k: int| 0 <= k < entries.len() && occurs_in(#[trigger] entries[k], q),
    decreases entries.len(),
{
    let t = blob_of(entries);
    let p = choose|p: int| occurs_at(t, q, p);
    if entries.len() > 0 {
        let rest = entries.drop_last();
        let before = blob_of(rest);
        let e = entries.last();
        let n = before.len() as int;
        let m = q.len() as int;
        lemma_blob_ends(rest);
        if p + m <= n {
            assert(before.subrange(p, p + m) =~= t.subrange(p, p + m));
            assert(occurs_at(before, q, p));
            lemma_occurrence_in_entry(rest, q);
        } else if p >= n {
            // The newline that ends the blob is no byte of the query.
            assert(t.subrange(p, p + m)[m - 1] == q[m - 1]);
            assert(e.subrange(p - n, p - n + m) =~= t.subrange(p, p + m));
            assert(occurs_at(e, q, p - n));
        } else {
            // The query would hold the newline that ends the entries before.
            assert(t.subrange(p, p + m)[n - 1 - p] == q[n - 1 - p]);
        }
    }
}

/// The line around an offset of a blob starts where one of the entries
/// starts.
pub proof fn lemma_line_starts_at_entry(entries: Seq<Seq<u8>>, p: int)
    requires
        all_newline_free(entries),
        0 <= p < blob_of(entries).len(),
    ensures
        exists|k: int| 0 <= k < entries.len() && line_start(blob_of(entries), p) == offset_of(
            entries,
            k,
        ),
    decreases entries.len(),
{
    let t = blob_of(entries);
    let rest = entries.drop_last();
    let before = blob_of(rest);
    let e = entries.last();
    let n = before.len() as int;
    let last = entries.len() - 1;
    lemma_blob_ends(rest);
    if p < n {
        lemma_line_starts_at_entry(rest, p);
        let k = choose|k: int| 0 <= k < rest.len() && line_start(before, p) == offset_of(rest, k);
        lemma_line_start_within(before, stored(e), p);
        assert(rest.take(k) =~= entries.take(k));
        assert(line_start(t, p) == offset_of(entries, k));
    } else {
        assert forall|j: int| n <= j < p implies t[j] != NEWLINE by {}
        lemma_line_start_is(t, n, p);
        assert(line_start(t, p) == offset_of(entries, last));
    }
}

/// Where a line starts depends on the bytes before the offset alone.
pub proof fn lemma_line_start_within(a: Seq<u8>, b: Seq<u8>, p: int)
    requires
        0 <= p <= a.len(),
    ensures
        line_start(a + b, p) == line_start(a, p),
    decreases p,
{
    if p > 0 {
        if a[p - 1] != NEWLINE {
            lemma_line_start_within(a, b, p - 1);
        }
    }
}

/// What adding `e` does to the entries of the finished chunks and to those
/// of the chunk that is being filled.
pub open spec fn group_step(
    groups: (Seq<Seq<Seq<u8>>>, Seq<Seq<u8>>),
    e: Seq<u8>,
    ceiling: nat,
) -> (Seq<Seq<Seq<u8>>>, Seq<Seq<u8>>) {
    if must_flush(blob_of(groups.1), e, ceiling) {
        (groups.0.push(groups.1), seq![e])
    } else {
        (groups.0, groups.1.push(e))
    }
}

/// The entries of each finished chunk, and those of the chunk that is being
/// filled, after `entries` were added to a new writer.
pub open spec fn group_all(entries: Seq<Seq<u8>>, ceiling: nat) -> (
    Seq<Seq<Seq<u8>>>,
    Seq<Seq<u8>>,
)
    decreases entries.len(),
{
    if entries.len() == 0 {
        (Seq::empty(), Seq::empty())
    } else {
        group_step(group_all(entries.drop_last(), ceiling), entries.last(), ceiling)
    }
}

/// The entries of each chunk of a new writer to which `entries` were added
/// and which was then finalized.
pub open spec fn written_groups(entries: Seq<Seq<u8>>, ceiling: nat) -> Seq<Seq<Seq<u8>>> {
    let groups = group_all(entries, ceiling);
    if groups.1.len() > 0 {
        groups.0.push(groups.1)
    } else {
        groups.0
    }
}

/// The blob of each group.
pub open spec fn blobs_of(groups: Seq<Seq<Seq<u8>>>) -> Seq<Seq<u8>> {
    groups.map_values(|group: Seq<Seq<u8>>| blob_of(group))
}

/// The entries of all groups, in order.
pub open spec fn joined(groups: Seq<Seq<Seq<u8>>>) -> Seq<Seq<u8>>
    decreases groups.len(),
{
    if groups.len() == 0 {
        Seq::empty()
    } else {
        joined(groups.drop_last()) + groups.last()
    }
}

/// The chunks of a writer are the blobs of groups of the entries that were
/// added: the groups hold the entries in order, none twice and none left
/// out, and no finished group is empty.
pub proof fn lemma_chunks_are_blobs(entries: Seq<Seq<u8>>, ceiling: nat)
    ensures
        add_all((Seq::empty(), Seq::empty()), entries, ceiling) == (
            blobs_of(group_all(entries, ceiling).0),
            blob_of(group_all(entries, ceiling).1),
        ),
        joined(group_all(entries, ceiling).0) + group_all(entries, ceiling).1 == entries,
        forall|c: int|
            0 <= c < group_all(entries, ceiling).0.len() ==> (#[trigger] group_all(
                entries,
                ceiling,
            ).0[c]).len() > 0,
    decreases entries.len(),
{
    let groups = group_all(entries, ceiling);
    if entries.len() > 0 {
        let rest = entries.drop_last();
        let e = entries.last();
        let before = group_all(rest, ceiling);
        lemma_chunks_are_blobs(rest, ceiling);
        lemma_blob_ends(before.1);
        if must_flush(blob_of(before.1), e, ceiling) {
            assert(groups.0.drop_last() =~= before.0);
            assert(blob_of(seq![e]) =~= stored(e)) by {
                let one = seq![e];
                assert(one.drop_last() =~= Seq::<Seq<u8>>::empty());
                assert(blob_of(Seq::<Seq<u8>>::empty()) =~= Seq::<u8>::empty());
            }
        } else {
            assert(before.1.push(e).drop_last() =~= before.1);
            assert(joined(groups.0) + groups.1 =~= (joined(before.0) + before.1).push(e));
        }
    }
}

/// The chunks that a finalized writer gives are the blobs of the groups of
/// its entries; the groups hold the entries in order, and none is empty.
pub proof fn lemma_written_chunks_are_blobs(entries: Seq<Seq<u8>>, ceiling: nat)
    ensures
        written_chunks(entries, ceiling) == blobs_of(written_groups(entries, ceiling)),
        joined(written_groups(entries, ceiling)) == entries,
        forall|c: int|
            0 <= c < written_groups(entries, ceiling).len() ==> (#[trigger] written_groups(
                entries,
                ceiling,
            )[c]).len() > 0,
{
    let groups = group_all(entries, ceiling);
    let all = written_groups(entries, ceiling);
    lemma_chunks_are_blobs(entries, ceiling);
    lemma_blob_ends(groups.1);
    if groups.1.len() > 0 {
        assert(all.drop_last() =~= groups.0);
    }
}

/// Every entry of a group is one of the entries of all groups.
pub proof fn lemma_joined_holds(groups: Seq<Seq<Seq<u8>>>, c: int, k: int)
    requires
        0 <= c < groups.len(),
        0 <= k < groups[c].len(),
    ensures
        joined(groups).contains(groups[c][k]),
    decreases groups.len(),
{
    let head = joined(groups.drop_last());
    if c == groups.len() - 1 {
        assert(joined(groups)[head.len() + k] == groups[c][k]);
    } else {
        lemma_joined_holds(groups.drop_last(), c, k);
        let i = choose|i: int| 0 <= i < head.len() && head[i] == groups[c][k];
        assert(joined(groups)[i] == groups[c][k]);
    }
}

} // verus!
