use vstd::prelude::*;
use crate::codec::{decode_header, decode_record, has_header, parse_container, parse_records, HEADER_LEN};
use crate::error::IndexError;
use crate::lines::{newline_free, occurs_in};
use crate::results::{is_entry_of, lemma_search_complete, lemma_search_empty, lemma_search_sound};
use crate::subindex::{lines_view, search_lines, valid_sub_index, SubIndex};

verus! {

/// Every record is a valid sub-index.
pub open spec fn all_valid(records: Seq<(Seq<u8>, Seq<i32>)>) -> bool {
    forall|i: int| 0 <= i < records.len() ==> valid_sub_index((#[trigger] records[i]).0, records[i].1)
}

/// What a search of all sub-indexes returns: the results of the
/// sub-indexes, one after the other, in the order of the container.
pub open spec fn search_all(records: Seq<(Seq<u8>, Seq<i32>)>, q: Seq<u8>) -> Seq<Seq<u8>>
    decreases records.len(),
{
    if records.len() == 0 {
        Seq::empty()
    } else {
        search_all(records.drop_last(), q) + search_lines(records.last().0, records.last().1, q)
    }
}

/// What one sub-index finds is part of what all of them find.
pub proof fn lemma_search_all_holds(
    records: Seq<(Seq<u8>, Seq<i32>)>,
    q: Seq<u8>,
    i: int,
    line: Seq<u8>,
)
    requires
        0 <= i < records.len(),
        search_lines(records[i].0, records[i].1, q).contains(line),
    ensures
        search_all(records, q).contains(line),
    decreases records.len(),
{
    let head = search_all(records.drop_last(), q);
    let tail = search_lines(records.last().0, records.last().1, q);
    if i == records.len() - 1 {
        let k = choose|k: int| 0 <= k < tail.len() && tail[k] == line;
        assert((head + tail)[head.len() + k] == line);
    } else {
        lemma_search_all_holds(records.drop_last(), q, i, line);
        let k = choose|k: int| 0 <= k < head.len() && head[k] == line;
        assert((head + tail)[k] == line);
    }
}

/// Whatever all sub-indexes find, one of them found.
pub proof fn lemma_search_all_comes_from(records: Seq<(Seq<u8>, Seq<i32>)>, q: Seq<u8>, k: int)
    requires
        0 <= k < search_all(records, q).len(),
    ensures
        exists|i: int, j: int|
            0 <= i < records.len() && 0 <= j < search_lines(records[i].0, records[i].1, q).len()
                && search_all(records, q)[k] == #[trigger] search_lines(
                records[i].0,
                records[i].1,
                q,
            )[j],
    decreases records.len(),
{
    let head = search_all(records.drop_last(), q);
    if k < head.len() {
        lemma_search_all_comes_from(records.drop_last(), q, k);
        let rest = records.drop_last();
        let (i, j) = choose|i: int, j: int|
            0 <= i < rest.len() && 0 <= j < search_lines(rest[i].0, rest[i].1, q).len() && head[k]
                == #[trigger] search_lines(rest[i].0, rest[i].1, q)[j];
    } else {
        let i = records.len() - 1;
        let j = k - head.len();
        assert(search_all(records, q)[k] == search_lines(records[i].0, records[i].1, q)[j]);
    }
}

/// Soundness: a query without a newline stands in every line that a
/// search returns.
pub proof fn lemma_search_all_sound(records: Seq<(Seq<u8>, Seq<i32>)>, q: Seq<u8>, k: int)
    requires
        all_valid(records),
        newline_free(q),
        0 <= k < search_all(records, q).len(),
    ensures
        occurs_in(search_all(records, q)[k], q),
{
    lemma_search_all_comes_from(records, q, k);
    let (i, j) = choose|i: int, j: int|
        0 <= i < records.len() && 0 <= j < search_lines(records[i].0, records[i].1, q).len()
            && search_all(records, q)[k] == #[trigger] search_lines(
            records[i].0,
            records[i].1,
            q,
        )[j];
    lemma_search_sound(records[i].0, records[i].1, q, j);
}

/// Completeness: an entry that some sub-index stores is returned by the
/// search for anything that stands in it.
pub proof fn lemma_search_all_complete(
    records: Seq<(Seq<u8>, Seq<i32>)>,
    q: Seq<u8>,
    i: int,
    e: Seq<u8>,
)
    requires
        all_valid(records),
        0 <= i < records.len(),
        is_entry_of(records[i].0, e),
        occurs_in(e, q),
    ensures
        search_all(records, q).contains(e),
{
    lemma_search_complete(records[i].0, records[i].1, q, e);
    lemma_search_all_holds(records, q, i, e);
}

/// A query that stands in no text finds nothing.
pub proof fn lemma_search_all_empty(records: Seq<(Seq<u8>, Seq<i32>)>, q: Seq<u8>)
    requires
        forall|i: int| 0 <= i < records.len() ==> !occurs_in((#[trigger] records[i]).0, q),
    ensures
        search_all(records, q).len() == 0,
    decreases records.len(),
{
    if records.len() > 0 {
        let rest = records.drop_last();
        assert forall|i: int| 0 <= i < rest.len() implies !occurs_in((#[trigger] rest[i]).0, q) by {}
        lemma_search_all_empty(rest, q);
        lemma_search_empty(records.last().0, records.last().1, q);
    }
}

/// Partial results, one after the other.
pub open spec fn merged(parts: Seq<Seq<Seq<u8>>>) -> Seq<Seq<u8>>
    decreases parts.len(),
{
    if parts.len() == 0 {
        Seq::empty()
    } else {
        merged(parts.drop_last()) + parts.last()
    }
}

/// What a vector of partial results holds.
pub open spec fn parts_view(parts: Seq<Vec<Vec<u8>>>) -> Seq<Seq<Seq<u8>>> {
    parts.map_values(|p: Vec<Vec<u8>>| lines_view(p@))
}

/// Searching each sub-index by itself and merging the results in the
/// order of the sub-indexes is searching all of them.
pub proof fn lemma_merged_is_search_all(
    records: Seq<(Seq<u8>, Seq<i32>)>,
    q: Seq<u8>,
    parts: Seq<Seq<Seq<u8>>>,
)
    requires
        parts.len() == records.len(),
        forall|i: int|
            0 <= i < records.len() ==> #[trigger] parts[i] == search_lines(
                records[i].0,
                records[i].1,
                q,
            ),
    ensures
        merged(parts) == search_all(records, q),
    decreases records.len(),
{
    if records.len() > 0 {
        let rest = records.drop_last();
        let head = parts.drop_last();
        assert forall|i: int| 0 <= i < rest.len() implies #[trigger] head[i] == search_lines(
            rest[i].0,
            rest[i].1,
            q,
        ) by {}
        lemma_merged_is_search_all(rest, q, head);
    }
}

/// Puts partial results together, in the order in which they stand.
pub fn merge_results(parts: Vec<Vec<Vec<u8>>>) -> (lines: Vec<Vec<u8>>)
    ensures
        lines_view(lines@) == merged(parts_view(parts@)),
{
    let mut parts = parts;
    let ghost all = parts_view(parts@);
    let mut lines: Vec<Vec<u8>> = Vec::new();
    let mut tail: Vec<Vec<Vec<u8>>> = Vec::new();
    // The parts are taken from the end, so they are first turned round.
    while parts.len() > 0
        invariant
            parts@.len() + tail@.len() == all.len(),
            parts_view(parts@) == all.take(parts@.len() as int),
            forall|j: int|
                0 <= j < tail@.len() ==> lines_view((#[trigger] tail@[j])@) == all[all.len() - 1
                    - j],
        decreases parts.len(),
    {
        let ghost before = parts@;
        let part = parts.pop().unwrap();
        proof {
            assert(parts_view(parts@) =~= all.take(parts@.len() as int)) by {
                assert forall|j: int| 0 <= j < parts@.len() implies parts_view(parts@)[j]
                    == all[j] by {
                    assert(parts_view(before)[j] == all[j]);
                }
            }
            assert(parts_view(before)[before.len() - 1] == all[before.len() - 1]);
        }
        tail.push(part);
    }
    while tail.len() > 0
        invariant
            tail@.len() <= all.len(),
            forall|j: int|
                0 <= j < tail@.len() ==> lines_view((#[trigger] tail@[j])@) == all[all.len() - 1
                    - j],
            lines_view(lines@) == merged(all.take(all.len() - tail@.len())),
        decreases tail.len(),
    {
        let ghost k = all.len() - tail@.len();
        let mut part = tail.pop().unwrap();
        lines.append(&mut part);
        proof {
            assert(all.take(k + 1).drop_last() =~= all.take(k));
        }
    }
    assert(all.take(all.len() as int) =~= all);
    lines
}

/// What a vector of sub-indexes holds.
pub open spec fn sub_indexes_view(subs: Seq<SubIndex>) -> Seq<(Seq<u8>, Seq<i32>)> {
    subs.map_values(|s: SubIndex| s@)
}

/// An index that was read: its sub-indexes, each with its text and suffix
/// array in memory.
pub struct Reader {
    sub_indexes: Vec<SubIndex>,
}

impl View for Reader {
    type V = Seq<(Seq<u8>, Seq<i32>)>;

    /// The text and the suffix array of each sub-index, in order.
    closed spec fn view(&self) -> Seq<(Seq<u8>, Seq<i32>)> {
        sub_indexes_view(self.sub_indexes@)
    }
}

impl Reader {
    #[verifier::type_invariant]
    pub closed spec fn well_formed(&self) -> bool {
        all_valid(sub_indexes_view(self.sub_indexes@))
    }

    /// Reads a container. It has to be the header and a sequence of whole
    /// records, each of them a text blob with its suffix array.
    pub fn new(container: &[u8]) -> (r: Result<Reader, IndexError>)
        ensures
            r is Ok <==> (parse_container(container@) matches Some(records) && all_valid(records)),
            r matches Ok(reader) ==> parse_container(container@) == Some(reader@) && all_valid(
                reader@,
            ),
            r matches Err(e) ==> e == IndexError::CorruptIndex,
    {
        let ghost b = container@;
        let len = container.len();
        let mut subs: Vec<SubIndex> = Vec::new();
        let mut pos: usize = match decode_header(container) {
            Ok(start) => start,
            Err(e) => {
                return Err(e);
            },
        };
        assert(sub_indexes_view(subs@) =~= Seq::empty());
        while pos < len
            invariant
                b == container@,
                len == b.len(),
                HEADER_LEN <= pos <= len,
                has_header(b),
                all_valid(sub_indexes_view(subs@)),
                parse_container(b) == match parse_records(b.skip(pos as int)) {
                    None => None::<Seq<(Seq<u8>, Seq<i32>)>>,
                    Some(rest) => Some(sub_indexes_view(subs@) + rest),
                },
            decreases len - pos,
        {
            let (text, suffixes, next) = match decode_record(container, pos) {
                Ok(record) => record,
                Err(e) => {
                    return Err(e);
                },
            };
            let ghost old_subs = subs@;
            let ghost t = text@;
            let ghost sa = suffixes@;
            proof {
                assert(b.skip(pos as int).skip(next - pos) =~= b.skip(next as int));
            }
            let sub = match SubIndex::new(text, suffixes) {
                Ok(sub) => sub,
                Err(e) => {
                    proof {
                        if let Some(rest) = parse_records(b.skip(next as int)) {
                            let records = sub_indexes_view(old_subs) + (seq![(t, sa)] + rest);
                            assert(records[old_subs.len() as int] == (t, sa));
                        }
                    }
                    return Err(e);
                },
            };
            subs.push(sub);
            proof {
                assert(sub_indexes_view(subs@) =~= sub_indexes_view(old_subs) + seq![(t, sa)]);
                assert forall|i: int| 0 <= i < subs@.len() implies valid_sub_index(
                    (#[trigger] sub_indexes_view(subs@)[i]).0,
                    sub_indexes_view(subs@)[i].1,
                ) by {}
                match parse_records(b.skip(next as int)) {
                    None => {},
                    Some(rest) => {
                        assert(sub_indexes_view(old_subs) + (seq![(t, sa)] + rest)
                            =~= sub_indexes_view(subs@) + rest);
                    },
                }
            }
            pos = next;
        }
        Ok(Reader { sub_indexes: subs })
    }

    /// The sub-indexes, in the order of the container.
    pub fn sub_indexes(&self) -> (subs: &Vec<SubIndex>)
        ensures
            sub_indexes_view(subs@) == self@,
            all_valid(self@),
    {
        proof {
            use_type_invariant(self);
        }
        &self.sub_indexes
    }

    /// Every stored line in which `query` stands: the results of the
    /// sub-indexes one after the other. A line that several sub-indexes
    /// store comes once from each of them.
    pub fn search(&self, query: &[u8]) -> (lines: Vec<Vec<u8>>)
        ensures
            lines_view(lines@) == search_all(self@, query@),
    {
        let ghost records = self@;
        let mut lines: Vec<Vec<u8>> = Vec::new();
        let mut i: usize = 0;
        while i < self.sub_indexes.len()
            invariant
                records == self@,
                records == sub_indexes_view(self.sub_indexes@),
                i <= self.sub_indexes.len(),
                lines_view(lines@) == search_all(records.take(i as int), query@),
            decreases self.sub_indexes.len() - i,
        {
            let mut part = self.sub_indexes[i].search(query);
            lines.append(&mut part);
            proof {
                let now = records.take(i as int + 1);
                assert(now.drop_last() =~= records.take(i as int));
            }
            i = i + 1;
        }
        assert(records.take(i as int) =~= records);
        lines
    }
}

} // verus!
