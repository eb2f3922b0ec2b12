use substring_search::codec::{decode_container, encode_header, encode_record};
use substring_search::error::IndexError;
use substring_search::reader::{merge_results, Reader};
use substring_search::subindex::SubIndex;
use substring_search::writer::Writer;

/// The suffix array of `text`, by sorting all suffixes.
fn suffix_array(text: &[u8]) -> Vec<i32> {
    let mut positions: Vec<usize> = (0..text.len()).collect();
    positions.sort_by_key(|&p| text[p..].to_vec());
    positions.into_iter().map(|p| i32::try_from(p).unwrap()).collect()
}

/// The record of one chunk.
fn record(chunk: &[u8]) -> Vec<u8> {
    encode_record(chunk, &suffix_array(chunk)).unwrap()
}

/// The container that holds `entries`, and the number of its records.
fn build(entries: &[&[u8]], max_chunk_len: usize) -> (Vec<u8>, usize) {
    let mut writer = Writer::new(Some(max_chunk_len));
    let mut container: Vec<u8> = encode_header();
    let mut records: usize = 0;
    for entry in entries {
        writer.add_entry(entry).unwrap();
        for chunk in writer.take_chunks() {
            container.extend(record(&chunk));
            records += 1;
        }
    }
    writer.finalize();
    for chunk in writer.take_chunks() {
        container.extend(record(&chunk));
        records += 1;
    }
    writer.finalize();
    assert!(writer.take_chunks().is_empty());
    (container, records)
}

/// The result of a search, sorted.
fn search_sorted(reader: &Reader, query: &[u8]) -> Vec<Vec<u8>> {
    let mut lines = reader.search(query);
    lines.sort();
    lines
}

fn lines_of(expected: &[&[u8]]) -> Vec<Vec<u8>> {
    let mut lines: Vec<Vec<u8>> = expected.iter().map(|l| l.to_vec()).collect();
    lines.sort();
    lines
}

#[test]
fn fruit_entries_are_found_by_substring() {
    let (container, records) = build(&[b"apple", b"banana", b"pineapple", b"grape"], 1 << 20);
    assert_eq!(records, 1);
    let reader = Reader::new(&container).unwrap();
    assert_eq!(search_sorted(&reader, b"apple"), lines_of(&[b"apple", b"pineapple"]));
    assert_eq!(search_sorted(&reader, b"an"), lines_of(&[b"banana"]));
    assert_eq!(reader.search(b"z"), Vec::<Vec<u8>>::new());
}

#[test]
fn equal_entries_are_different_lines() {
    let (container, _) = build(&[b"abc", b"abc", b"abcd"], 1 << 20);
    let reader = Reader::new(&container).unwrap();
    // Lines are told apart by where they start, so both "abc" come back.
    assert_eq!(search_sorted(&reader, b"abc"), lines_of(&[b"abc", b"abc", b"abcd"]));
    let found = reader.search(b"abc");
    assert_eq!(found.iter().filter(|l| l.as_slice() == b"abcd").count(), 1);
}

#[test]
fn small_ceiling_forces_several_chunks() {
    let entries: [&[u8]; 6] = [b"alpha", b"beta", b"gamma", b"delta", b"epsilon", b"zeta"];
    let (container, records) = build(&entries, 32);
    assert!(records >= 2);
    assert_eq!(records, 2);
    let reader = Reader::new(&container).unwrap();
    assert_eq!(reader.sub_indexes().len(), 2);
    assert_eq!(search_sorted(&reader, b"eta"), lines_of(&[b"beta", b"zeta"]));
}

#[test]
fn chunks_split_between_entries() {
    let entries: [&[u8]; 6] = [b"alpha", b"beta", b"gamma", b"delta", b"epsilon", b"zeta"];
    let (container, _) = build(&entries, 32);
    let reader = Reader::new(&container).unwrap();
    let subs = reader.sub_indexes();
    // 31 bytes fit under the ceiling of 32; "zeta" would make 36.
    assert_eq!(subs[0].text(), b"alpha\nbeta\ngamma\ndelta\nepsilon\n");
    assert_eq!(subs[1].text(), b"zeta\n");
    // "epsilon" closes the first chunk and "zeta" opens the second.
    assert_eq!(
        reader.search(b"e"),
        vec![b"delta".to_vec(), b"epsilon".to_vec(), b"beta".to_vec(), b"zeta".to_vec()]
    );
    assert_eq!(search_sorted(&reader, b"l"), lines_of(&[b"alpha", b"delta", b"epsilon"]));
    assert_eq!(search_sorted(&reader, b"\n"), lines_of(&entries));
}

#[test]
fn bytes_that_are_no_text_are_searched_alike() {
    let (container, _) = build(&[b"a\x00b\x01c", b"plain"], 1 << 20);
    let reader = Reader::new(&container).unwrap();
    assert_eq!(reader.search(b"\x00b"), vec![b"a\x00b\x01c".to_vec()]);
    assert_eq!(reader.search(b"\x01"), vec![b"a\x00b\x01c".to_vec()]);
    assert_eq!(reader.search(b"\xff"), Vec::<Vec<u8>>::new());
}

#[test]
fn entry_that_is_prefix_of_another() {
    let (container, _) = build(&[b"xy", b"xyz"], 1 << 20);
    let reader = Reader::new(&container).unwrap();
    assert_eq!(search_sorted(&reader, b"xy"), lines_of(&[b"xy", b"xyz"]));
    assert_eq!(reader.search(b"xyz"), vec![b"xyz".to_vec()]);
}

#[test]
fn overlapping_matches_give_the_line_once() {
    let (container, _) = build(&[b"ababab"], 1 << 20);
    let reader = Reader::new(&container).unwrap();
    assert_eq!(reader.search(b"abab"), vec![b"ababab".to_vec()]);
    assert_eq!(reader.search(b"ab"), vec![b"ababab".to_vec()]);
    assert_eq!(reader.search(b"b"), vec![b"ababab".to_vec()]);
}

#[test]
fn lines_come_in_suffix_array_order() {
    let (container, _) = build(&[b"cherry", b"apple", b"banana"], 1 << 20);
    let reader = Reader::new(&container).unwrap();
    // The suffixes that start with "a": "a\n" of banana, "ana\n", "anana\n",
    // "apple\n".
    assert_eq!(reader.search(b"a"), vec![b"banana".to_vec(), b"apple".to_vec()]);
    // "e\n" of apple sorts before "erry\n".
    assert_eq!(reader.search(b"e"), vec![b"apple".to_vec(), b"cherry".to_vec()]);
}

#[test]
fn every_entry_finds_itself_after_a_round_trip() {
    let entries: [&[u8]; 7] = [b"one", b"two", b"three", b"", b"four", b"onetwo", b"three"];
    for ceiling in [1usize, 4, 8, 16, 1024] {
        if entries.iter().any(|e| e.len() > ceiling) {
            continue;
        }
        let (container, _) = build(&entries, ceiling);
        let reader = Reader::new(&container).unwrap();
        for entry in entries {
            assert!(reader.search(entry).contains(&entry.to_vec()));
        }
    }
    let (container, records) = build(&entries, 6);
    assert_eq!(records, 6);
    let reader = Reader::new(&container).unwrap();
    for entry in entries {
        let found = reader.search(entry);
        assert!(found.contains(&entry.to_vec()));
        for line in found {
            assert!(entry.is_empty() || line.windows(entry.len()).any(|w| w == entry));
        }
    }
}

#[test]
fn empty_query_returns_every_line() {
    let (container, _) = build(&[b"b", b"", b"a"], 1 << 20);
    let reader = Reader::new(&container).unwrap();
    assert_eq!(search_sorted(&reader, b""), lines_of(&[b"", b"a", b"b"]));
    // In suffix-array order: the last newline ends "a", the one at 1 ends
    // "b", the one at 2 is the empty line.
    let sub = SubIndex::new(b"b\n\na\n".to_vec(), suffix_array(b"b\n\na\n")).unwrap();
    assert_eq!(sub.suffixes(), &[4, 1, 2, 3, 0]);
    assert_eq!(sub.search(b""), vec![b"a".to_vec(), b"b".to_vec(), b"".to_vec()]);
}

#[test]
fn query_with_a_newline_finds_the_line_it_starts_in() {
    let (container, _) = build(&[b"apple", b"banana"], 1 << 20);
    let reader = Reader::new(&container).unwrap();
    assert_eq!(reader.search(b"e\nb"), vec![b"apple".to_vec()]);
    assert_eq!(reader.search(b"\n"), vec![b"banana".to_vec(), b"apple".to_vec()]);
}

#[test]
fn empty_container_has_nothing() {
    let reader = Reader::new(&encode_header()).unwrap();
    assert_eq!(reader.sub_indexes().len(), 0);
    assert_eq!(reader.search(b"a"), Vec::<Vec<u8>>::new());
    assert_eq!(reader.search(b""), Vec::<Vec<u8>>::new());
}

#[test]
fn same_line_in_two_chunks_comes_twice() {
    let (container, records) = build(&[b"same", b"same"], 5);
    assert_eq!(records, 2);
    let reader = Reader::new(&container).unwrap();
    assert_eq!(reader.search(b"am"), vec![b"same".to_vec(), b"same".to_vec()]);
}

#[test]
fn reader_refuses_what_is_no_container() {
    let (container, _) = build(&[b"alpha", b"beta"], 1 << 20);
    assert!(Reader::new(&container).is_ok());
    for cut in 0..container.len() {
        if cut == 8 {
            // The header alone is a container without records.
            assert!(Reader::new(&container[..cut]).is_ok());
        } else {
            assert!(matches!(Reader::new(&container[..cut]), Err(IndexError::CorruptIndex)));
        }
    }
    assert!(matches!(Reader::new(&container[8..]), Err(IndexError::CorruptIndex)));
    let mut longer = container.clone();
    longer.push(0);
    assert!(matches!(Reader::new(&longer), Err(IndexError::CorruptIndex)));
    // Two entries of the suffix array change places.
    let mut swapped = container.clone();
    let at = 8 + 4 + 11 + 4;
    swapped.swap(at, at + 4);
    assert!(decode_container(&swapped).is_ok());
    assert!(matches!(Reader::new(&swapped), Err(IndexError::CorruptIndex)));
}

#[test]
fn merged_parts_are_the_search_of_all() {
    let entries: [&[u8]; 6] = [b"alpha", b"beta", b"gamma", b"delta", b"epsilon", b"zeta"];
    let (container, records) = build(&entries, 12);
    assert_eq!(records, 4);
    let reader = Reader::new(&container).unwrap();
    for query in [&b"a"[..], b"eta", b"", b"q", b"l", b"ta\n"] {
        let parts: Vec<Vec<Vec<u8>>> =
            reader.sub_indexes().iter().map(|sub| sub.search(query)).collect();
        assert_eq!(merge_results(parts), reader.search(query));
    }
    assert_eq!(merge_results(vec![]), Vec::<Vec<u8>>::new());
    assert_eq!(merge_results(vec![vec![], vec![]]), Vec::<Vec<u8>>::new());
    assert_eq!(
        merge_results(vec![
            vec![b"c".to_vec(), b"a".to_vec()],
            vec![],
            vec![b"b".to_vec()],
            vec![b"a".to_vec(), b"d".to_vec()],
        ]),
        vec![b"c".to_vec(), b"a".to_vec(), b"b".to_vec(), b"a".to_vec(), b"d".to_vec()]
    );
}

#[test]
fn lines_of_a_source_become_entries() {
    let mut writer = Writer::new(Some(64));
    assert_eq!(writer.add_entries_from_file_lines(b"apple\nbanana\r\npineapple\n\ngrape"), Ok(()));
    assert_eq!(writer.buffer(), b"apple\nbanana\r\npineapple\n\ngrape\n");
    writer.finalize();
    let mut container: Vec<u8> = encode_header();
    for chunk in writer.take_chunks() {
        container.extend(record(&chunk));
    }
    let reader = Reader::new(&container).unwrap();
    assert_eq!(search_sorted(&reader, b"apple"), lines_of(&[b"apple", b"pineapple"]));
    assert_eq!(reader.search(b"an"), vec![b"banana\r".to_vec()]);
    // An entry that ends in a carriage return is stored and found again.
    assert_eq!(reader.search(b"banana\r"), vec![b"banana\r".to_vec()]);
    assert_eq!(reader.search(b"\r"), vec![b"banana\r".to_vec()]);
    assert_eq!(
        search_sorted(&reader, b""),
        lines_of(&[b"", b"apple", b"banana\r", b"grape", b"pineapple"])
    );
}

/// A small generator of numbers, the same on every run.
fn next_number(state: &mut u64) -> u64 {
    *state = state.wrapping_mul(6364136223846793005).wrapping_add(1442695040888963407);
    *state >> 33
}

fn made_up_entry(state: &mut u64) -> Vec<u8> {
    let len = usize::try_from(next_number(state) % 9).unwrap();
    let mut entry: Vec<u8> = Vec::new();
    for _ in 0..len {
        let pick = usize::try_from(next_number(state) % 3).unwrap();
        entry.push(b"abc"[pick]);
    }
    entry
}

#[test]
fn search_agrees_with_a_scan() {
    let mut state: u64 = 7;
    for round in 0usize..20 {
        let count = 1 + usize::try_from(next_number(&mut state) % 40).unwrap();
        let entries: Vec<Vec<u8>> = (0..count).map(|_| made_up_entry(&mut state)).collect();
        let borrowed: Vec<&[u8]> = entries.iter().map(|e| e.as_slice()).collect();
        let ceiling = 8 + round * 5;
        let (container, _) = build(&borrowed, ceiling);
        let reader = Reader::new(&container).unwrap();
        for sub in reader.sub_indexes() {
            assert!(sub.text().len() <= ceiling + 1);
        }
        for _ in 0..30 {
            let query = made_up_entry(&mut state);
            let mut expected: Vec<Vec<u8>> = entries
                .iter()
                .filter(|e| query.is_empty() || e.windows(query.len()).any(|w| w == query.as_slice()))
                .cloned()
                .collect();
            expected.sort();
            assert_eq!(search_sorted(&reader, &query), expected);
        }
    }
}

#[test]
fn empty_query_returns_the_entries_of_all_chunks() {
    let entries: [&[u8]; 7] = [b"pear", b"", b"fig", b"pear", b"", b"plum\r", b"fig"];
    for ceiling in [5usize, 6, 10, 11, 64] {
        let (container, _) = build(&entries, ceiling);
        let reader = Reader::new(&container).unwrap();
        // Each entry comes once for each time it was added, and nothing else.
        assert_eq!(search_sorted(&reader, b""), lines_of(&entries));
        // What stands in no entry is not found, though the blobs hold newlines.
        assert_eq!(reader.search(b"rf"), Vec::<Vec<u8>>::new());
        assert_eq!(reader.search(b"gp"), Vec::<Vec<u8>>::new());
        assert_eq!(reader.search(b"x"), Vec::<Vec<u8>>::new());
        assert_eq!(reader.search(b"\x00"), Vec::<Vec<u8>>::new());
        assert_eq!(reader.search(b"\xff"), Vec::<Vec<u8>>::new());
    }
}
