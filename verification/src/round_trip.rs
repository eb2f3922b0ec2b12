use vstd::prelude::*;
use crate::codec::{container_bytes, lemma_container_round_trip, parse_container};
use crate::entries::{
    all_newline_free, blob_of, joined, lemma_joined_holds, lemma_occurrence_in_entry,
    lemma_written_chunks_are_blobs, written_groups,
};
use crate::lines::{newline_free, occurs_at, occurs_in};
use crate::reader::{all_valid, lemma_search_all_complete, lemma_search_all_empty, search_all};
use crate::results::{
    arranges, is_rearrangement, lemma_empty_query_lists_blob, lemma_rearrangement_append,
};
use crate::subindex::search_lines;
use crate::suffix::is_suffix_array;
use crate::writer::{
    entries_fit, lemma_written_chunks_hold_entries, written_chunks, MAX_CHUNK_LEN,
};

verus! {

/// The records made of chunks and their suffix arrays, pair by pair.
pub open spec fn paired(chunks: Seq<Seq<u8>>, arrays: Seq<Seq<i32>>) -> Seq<(Seq<u8>, Seq<i32>)> {
    Seq::new(chunks.len(), |i: int| (chunks[i], arrays[i]))
}

/// Each array is the suffix array of the chunk at its index.
pub open spec fn arrays_index(chunks: Seq<Seq<u8>>, arrays: Seq<Seq<i32>>) -> bool {
    &&& arrays.len() == chunks.len()
    &&& forall|c: int| 0 <= c < chunks.len() ==> is_suffix_array(#[trigger] chunks[c], arrays[c])
}

/// Write entries, store each chunk with its suffix array, read the
/// container back: the records come back as they were written, they are
/// valid sub-indexes, and the search for any of the entries returns that
/// entry.
pub proof fn lemma_round_trip(
    entries: Seq<Seq<u8>>,
    ceiling: nat,
    arrays: Seq<Seq<i32>>,
    k: int,
)
    requires
        ceiling <= MAX_CHUNK_LEN,
        entries_fit(entries, ceiling),
        arrays_index(written_chunks(entries, ceiling), arrays),
        0 <= k < entries.len(),
    ensures
        ({
            let records = paired(written_chunks(entries, ceiling), arrays);
            &&& parse_container(container_bytes(records)) == Some(records)
            &&& all_valid(records)
            &&& search_all(records, entries[k]).contains(entries[k])
        }),
{
    let chunks = written_chunks(entries, ceiling);
    let records = paired(chunks, arrays);
    let e = entries[k];
    lemma_written_chunks_hold_entries(entries, ceiling);
    assert forall|i: int| 0 <= i < records.len() implies (#[trigger] records[i]).1.len()
        == records[i].0.len() && is_suffix_array(records[i].0, records[i].1) by {}
    lemma_container_round_trip(records);
    let c = choose|c: int|
        0 <= c < chunks.len() && crate::results::is_entry_of(#[trigger] chunks[c], entries[k]);
    assert(e.subrange(0, e.len() as int) =~= e);
    assert(occurs_at(e, e, 0));
    lemma_search_all_complete(records, e, c, e);
}

/// The records that a finalized writer's chunks make with their suffix
/// arrays are valid, and each holds the blob of one group of the entries.
pub proof fn lemma_records_hold_groups(entries: Seq<Seq<u8>>, ceiling: nat, arrays: Seq<Seq<i32>>)
    requires
        ceiling <= MAX_CHUNK_LEN,
        entries_fit(entries, ceiling),
        arrays_index(written_chunks(entries, ceiling), arrays),
    ensures
        ({
            let records = paired(written_chunks(entries, ceiling), arrays);
            let groups = written_groups(entries, ceiling);
            &&& all_valid(records)
            &&& records.len() == groups.len()
            &&& joined(groups) == entries
            &&& forall|c: int|
                0 <= c < groups.len() ==> (#[trigger] records[c]).0 == blob_of(groups[c])
                    && all_newline_free(groups[c])
        }),
{
    let chunks = written_chunks(entries, ceiling);
    let records = paired(chunks, arrays);
    let groups = written_groups(entries, ceiling);
    lemma_written_chunks_hold_entries(entries, ceiling);
    lemma_written_chunks_are_blobs(entries, ceiling);
    assert forall|c: int| 0 <= c < records.len() implies crate::subindex::valid_sub_index(
        (#[trigger] records[c]).0,
        records[c].1,
    ) by {}
    assert forall|c: int| 0 <= c < groups.len() implies (#[trigger] records[c]).0 == blob_of(
        groups[c],
    ) && all_newline_free(groups[c]) by {
        assert forall|k: int| 0 <= k < groups[c].len() implies newline_free(
            #[trigger] groups[c][k],
        ) by {
            lemma_joined_holds(groups, c, k);
        }
    }
}

/// A query that holds no newline and stands in none of the entries finds
/// nothing, in however many chunks the entries are stored.
pub proof fn lemma_absent_query_finds_nothing(
    entries: Seq<Seq<u8>>,
    ceiling: nat,
    arrays: Seq<Seq<i32>>,
    q: Seq<u8>,
)
    requires
        ceiling <= MAX_CHUNK_LEN,
        entries_fit(entries, ceiling),
        arrays_index(written_chunks(entries, ceiling), arrays),
        newline_free(q),
        q.len() > 0,
        forall|k: int| 0 <= k < entries.len() ==> !occurs_in(#[trigger] entries[k], q),
    ensures
        search_all(paired(written_chunks(entries, ceiling), arrays), q).len() == 0,
{
    let records = paired(written_chunks(entries, ceiling), arrays);
    let groups = written_groups(entries, ceiling);
    lemma_records_hold_groups(entries, ceiling, arrays);
    assert forall|c: int| 0 <= c < records.len() implies !occurs_in((#[trigger] records[c]).0, q) by {
        if occurs_in(records[c].0, q) {
            lemma_occurrence_in_entry(groups[c], q);
            let k = choose|k: int| 0 <= k < groups[c].len() && occurs_in(#[trigger] groups[c][k], q);
            lemma_joined_holds(groups, c, k);
        }
    }
    lemma_search_all_empty(records, q);
}

/// With the empty query, the search of records that hold the blobs of
/// groups of entries returns exactly the entries of the groups.
pub proof fn lemma_empty_query_lists_groups(
    groups: Seq<Seq<Seq<u8>>>,
    records: Seq<(Seq<u8>, Seq<i32>)>,
)
    requires
        records.len() == groups.len(),
        all_valid(records),
        forall|c: int|
            0 <= c < groups.len() ==> (#[trigger] records[c]).0 == blob_of(groups[c])
                && all_newline_free(groups[c]),
    ensures
        is_rearrangement(search_all(records, Seq::empty()), joined(groups)),
    decreases groups.len(),
{
    let q = Seq::<u8>::empty();
    if groups.len() == 0 {
        assert(arranges(Seq::<int>::empty(), search_all(records, q), joined(groups)));
    } else {
        let last = groups.len() - 1;
        let rest = records.drop_last();
        assert forall|c: int| 0 <= c < rest.len() implies crate::subindex::valid_sub_index(
            (#[trigger] rest[c]).0,
            rest[c].1,
        ) && rest[c].0 == blob_of(groups.drop_last()[c]) && all_newline_free(
            groups.drop_last()[c],
        ) by {}
        lemma_empty_query_lists_groups(groups.drop_last(), rest);
        lemma_empty_query_lists_blob(groups[last], records[last].1);
        lemma_rearrangement_append(
            search_all(rest, q),
            joined(groups.drop_last()),
            search_lines(records.last().0, records.last().1, q),
            groups.last(),
        );
    }
}

/// Write entries, store each chunk with its suffix array, read the
/// container back and search for the empty query: the result is exactly
/// the entries, each once for each time it was added, in some order.
pub proof fn lemma_empty_query_returns_entries(
    entries: Seq<Seq<u8>>,
    ceiling: nat,
    arrays: Seq<Seq<i32>>,
)
    requires
        ceiling <= MAX_CHUNK_LEN,
        entries_fit(entries, ceiling),
        arrays_index(written_chunks(entries, ceiling), arrays),
    ensures
        is_rearrangement(
            search_all(paired(written_chunks(entries, ceiling), arrays), Seq::empty()),
            entries,
        ),
{
    lemma_records_hold_groups(entries, ceiling, arrays);
    lemma_empty_query_lists_groups(
        written_groups(entries, ceiling),
        paired(written_chunks(entries, ceiling), arrays),
    );
}

} // verus!
