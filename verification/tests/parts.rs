use substring_search::codec::{
    decode_container, decode_header, decode_record, encode_header, encode_record, FORMAT_VERSION,
    HEADER_LEN, MAGIC, MAX_TEXT_LEN,
};
use substring_search::error::IndexError;
use substring_search::lex::{classify, Side};
use substring_search::lines::{line_bounds, NEWLINE};
use substring_search::subindex::SubIndex;
use substring_search::suffix::check_suffix_array;
use substring_search::writer::{Writer, DEFAULT_CHUNK_LEN, MAX_CHUNK_LEN};

fn sorted_suffixes(text: &[u8]) -> Vec<i32> {
    let mut positions: Vec<usize> = (0..text.len()).collect();
    positions.sort_by_key(|&p| text[p..].to_vec());
    positions.into_iter().map(|p| i32::try_from(p).unwrap()).collect()
}

#[test]
fn classify_tells_the_three_sides() {
    let text: &[u8] = b"banana\n";
    assert_eq!(classify(b"an", text, 1), Side::Match);
    assert_eq!(classify(b"an", text, 3), Side::Match);
    assert_eq!(classify(b"an", text, 5), Side::Before);
    assert_eq!(classify(b"an", text, 0), Side::After);
    assert_eq!(classify(b"an", text, 2), Side::After);
    assert_eq!(classify(b"an", text, 6), Side::Before);
    assert_eq!(classify(b"an", text, 7), Side::Before);
    assert_eq!(classify(b"", text, 7), Side::Match);
    assert_eq!(classify(b"", text, 0), Side::Match);
    // A suffix that ends inside the query is too small.
    assert_eq!(classify(b"a\nb", text, 5), Side::Before);
    // Bytes compare unsigned.
    assert_eq!(classify(b"\x7f", b"\x80", 0), Side::After);
    assert_eq!(classify(b"\x80", b"\x7f", 0), Side::Before);
}

#[test]
fn suffix_array_of_banana() {
    let text: &[u8] = b"banana\n";
    assert_eq!(sorted_suffixes(text), vec![6, 5, 3, 1, 0, 4, 2]);
    assert!(check_suffix_array(text, &[6, 5, 3, 1, 0, 4, 2]));
    // Sorted, but one offset short.
    assert!(!check_suffix_array(text, &[6, 5, 3, 1, 0, 4]));
    // A permutation out of order.
    assert!(!check_suffix_array(text, &[6, 3, 5, 1, 0, 4, 2]));
    // An offset twice.
    assert!(!check_suffix_array(text, &[6, 5, 3, 1, 0, 4, 4]));
    // Offsets out of range.
    assert!(!check_suffix_array(text, &[7, 6, 5, 3, 1, 0, 4]));
    assert!(!check_suffix_array(text, &[-1, 6, 5, 3, 1, 0, 4]));
    assert!(check_suffix_array(b"", &[]));
    assert!(!check_suffix_array(b"", &[0]));
    assert!(check_suffix_array(b"aaa", &[2, 1, 0]));
    assert!(!check_suffix_array(b"aaa", &[0, 1, 2]));
    // First bytes in order, the rests not.
    let text: &[u8] = b"abab\n";
    assert!(check_suffix_array(text, &[4, 2, 0, 3, 1]));
    assert!(!check_suffix_array(text, &[4, 0, 2, 3, 1]));
    assert!(!check_suffix_array(text, &[4, 2, 0, 1, 3]));
    // Bytes compare unsigned.
    assert!(check_suffix_array(b"\x80\x7f", &[1, 0]));
    assert!(!check_suffix_array(b"\x80\x7f", &[0, 1]));
}

/// All arrangements of the offsets below `n`.
fn arrangements(n: usize) -> Vec<Vec<i32>> {
    if n == 0 {
        return vec![vec![]];
    }
    let last: i32 = i32::try_from(n - 1).unwrap();
    let mut all: Vec<Vec<i32>> = Vec::new();
    for shorter in arrangements(n - 1) {
        for at in 0..n {
            let mut longer = shorter.clone();
            longer.insert(at, last);
            all.push(longer);
        }
    }
    all
}

#[test]
fn only_the_sorted_arrangement_is_the_suffix_array() {
    let alphabet: [u8; 3] = [b'\n', b'a', b'b'];
    for len in 0usize..6 {
        let candidates = arrangements(len);
        let mut text: Vec<u8> = vec![alphabet[0]; len];
        let texts = alphabet.len().pow(u32::try_from(len).unwrap());
        for code in 0..texts {
            let mut rest: usize = code;
            for byte in text.iter_mut() {
                *byte = alphabet[rest % alphabet.len()];
                rest /= alphabet.len();
            }
            let sorted = sorted_suffixes(&text);
            for candidate in &candidates {
                assert_eq!(check_suffix_array(&text, candidate), *candidate == sorted);
            }
        }
    }
}

#[test]
fn line_bounds_stop_at_newlines() {
    let text: &[u8] = b"ab\ncd\nef\n";
    assert_eq!(line_bounds(text, 0), (0, 2));
    assert_eq!(line_bounds(text, 1), (0, 2));
    assert_eq!(line_bounds(text, 2), (0, 2));
    assert_eq!(line_bounds(text, 3), (3, 5));
    assert_eq!(line_bounds(text, 4), (3, 5));
    assert_eq!(line_bounds(text, 5), (3, 5));
    assert_eq!(line_bounds(text, 8), (6, 8));
    // Without a newline after the offset the line ends at the last byte.
    assert_eq!(line_bounds(b"ab\ncd", 3), (3, 4));
    assert_eq!(line_bounds(b"abcd", 2), (0, 3));
    assert_eq!(line_bounds(b"\n\n", 1), (1, 1));
    assert_eq!(NEWLINE, b'\n');
}

#[test]
fn locate_gives_the_range_of_matches() {
    let text: &[u8] = b"banana\n";
    let sub = SubIndex::new(text.to_vec(), sorted_suffixes(text)).unwrap();
    assert_eq!(sub.locate(b"an"), Some((2, 4)));
    assert_eq!(sub.locate(b"a"), Some((1, 4)));
    assert_eq!(sub.locate(b"\n"), Some((0, 1)));
    assert_eq!(sub.locate(b"na"), Some((5, 7)));
    assert_eq!(sub.locate(b"nana\n"), Some((6, 7)));
    assert_eq!(sub.locate(b"banana\n"), Some((4, 5)));
    assert_eq!(sub.locate(b""), Some((0, 7)));
    assert_eq!(sub.locate(b"c"), None);
    assert_eq!(sub.locate(b"\x00"), None);
    assert_eq!(sub.locate(b"z"), None);
    assert_eq!(sub.locate(b"ab"), None);
    assert_eq!(sub.locate(b"banana\nx"), None);
    assert_eq!(sub.text(), text);
    assert_eq!(sub.suffixes(), &[6, 5, 3, 1, 0, 4, 2]);
}

#[test]
fn locate_on_the_smallest_text() {
    let sub = SubIndex::new(b"\n".to_vec(), vec![0]).unwrap();
    assert_eq!(sub.locate(b"\n"), Some((0, 1)));
    assert_eq!(sub.locate(b""), Some((0, 1)));
    assert_eq!(sub.locate(b"a"), None);
    assert_eq!(sub.locate(b"\x00"), None);
    assert_eq!(sub.search(b""), vec![Vec::<u8>::new()]);
}

#[test]
fn sub_index_refuses_what_is_not_valid() {
    assert!(matches!(SubIndex::new(vec![], vec![]), Err(IndexError::CorruptIndex)));
    assert!(matches!(SubIndex::new(b"ab".to_vec(), vec![0, 1]), Err(IndexError::CorruptIndex)));
    assert!(matches!(SubIndex::new(b"a\n".to_vec(), vec![0, 1]), Err(IndexError::CorruptIndex)));
    assert!(matches!(SubIndex::new(b"a\n".to_vec(), vec![1]), Err(IndexError::CorruptIndex)));
    assert!(matches!(SubIndex::new(b"a\n".to_vec(), vec![1, 1]), Err(IndexError::CorruptIndex)));
    assert!(SubIndex::new(b"a\n".to_vec(), vec![1, 0]).is_ok());
}

#[test]
fn record_bytes_are_little_endian() {
    let bytes = encode_record(b"a\n", &[1, 0]).unwrap();
    assert_eq!(bytes, vec![2, 0, 0, 0, b'a', b'\n', 8, 0, 0, 0, 1, 0, 0, 0, 0, 0, 0, 0]);
    let text: Vec<u8> = vec![b'\n'; 300];
    let suffixes: Vec<i32> = (0..300).rev().collect();
    let bytes = encode_record(&text, &suffixes).unwrap();
    assert_eq!(bytes.len(), 8 + 5 * 300);
    assert_eq!(&bytes[..4], &[0x2c, 0x01, 0, 0]);
    assert_eq!(&bytes[304..308], &[0xb0, 0x04, 0, 0]);
    assert_eq!(&bytes[308..312], &[0x2b, 0x01, 0, 0]);
    assert_eq!(&bytes[bytes.len() - 4..], &[0, 0, 0, 0]);
}

#[test]
fn encode_refuses_a_wrong_suffix_array() {
    assert_eq!(encode_record(b"a\n", &[0, 1]), Err(IndexError::OracleFailure));
    assert_eq!(encode_record(b"a\n", &[1]), Err(IndexError::OracleFailure));
    assert_eq!(encode_record(b"a\n", &[1, 0, 0]), Err(IndexError::OracleFailure));
    assert_eq!(encode_record(b"a\n", &[1, -1]), Err(IndexError::OracleFailure));
    assert_eq!(encode_record(b"", &[]), Err(IndexError::OracleFailure));
    assert_eq!(encode_record(b"a", &[0]), Err(IndexError::OracleFailure));
}

#[test]
fn header_holds_magic_and_version() {
    assert_eq!(encode_header(), b"SSIX\x01\x00\x00\x00".to_vec());
    assert_eq!(MAGIC.to_le_bytes(), *b"SSIX");
    assert_eq!(FORMAT_VERSION, 1);
    assert_eq!(HEADER_LEN, 8);
    assert_eq!(decode_header(b"SSIX\x01\x00\x00\x00"), Ok(8));
    assert_eq!(decode_header(b"SSIX\x01\x00\x00\x00\x02\x00"), Ok(8));
    assert_eq!(decode_header(b""), Err(IndexError::CorruptIndex));
    assert_eq!(decode_header(b"SSIX\x01\x00\x00"), Err(IndexError::CorruptIndex));
    assert_eq!(decode_header(b"SSIX\x02\x00\x00\x00"), Err(IndexError::CorruptIndex));
    assert_eq!(decode_header(b"SSIX\x01\x00\x00\x01"), Err(IndexError::CorruptIndex));
    assert_eq!(decode_header(b"XISS\x01\x00\x00\x00"), Err(IndexError::CorruptIndex));
    assert_eq!(decode_header(b"ssix\x01\x00\x00\x00"), Err(IndexError::CorruptIndex));
}

#[test]
fn decode_gives_back_what_was_encoded() {
    let first = encode_record(b"b\na\n", &[3, 1, 2, 0]).unwrap();
    let second = encode_record(b"\n", &[0]).unwrap();
    let mut container = encode_header();
    container.extend(&first);
    container.extend(&second);
    let records = decode_container(&container).unwrap();
    assert_eq!(
        records,
        vec![(b"b\na\n".to_vec(), vec![3, 1, 2, 0]), (b"\n".to_vec(), vec![0])]
    );
    let (text, suffixes, next) = decode_record(&container, 8).unwrap();
    assert_eq!((text.as_slice(), suffixes.as_slice(), next), (&b"b\na\n"[..], &[3, 1, 2, 0][..], 36));
    let (text, suffixes, next) = decode_record(&container, 36).unwrap();
    assert_eq!((text.as_slice(), suffixes.as_slice(), next), (&b"\n"[..], &[0][..], 49));
    assert_eq!(decode_record(&container, 49), Err(IndexError::CorruptIndex));
    assert_eq!(decode_container(&encode_header()), Ok(vec![]));
    assert_eq!(decode_container(&[]), Err(IndexError::CorruptIndex));
    assert_eq!(decode_container(&first), Err(IndexError::CorruptIndex));
}

#[test]
fn decode_reads_signed_numbers() {
    let mut container = encode_header();
    container.extend([
        2, 0, 0, 0, b'x', b'y', 8, 0, 0, 0, 0xff, 0xff, 0xff, 0xff, 0x00, 0x00, 0x00, 0x80,
    ]);
    let records = decode_container(&container).unwrap();
    assert_eq!(records, vec![(b"xy".to_vec(), vec![-1, i32::MIN])]);
    let mut container = encode_header();
    container.extend([1, 0, 0, 0, b'x', 4, 0, 0, 0, 0x78, 0x56, 0x34, 0x12]);
    assert_eq!(decode_container(&container).unwrap(), vec![(b"x".to_vec(), vec![0x12345678])]);
}

#[test]
fn decode_refuses_broken_records() {
    let mut good = encode_header();
    good.extend(encode_record(b"a\n", &[1, 0]).unwrap());
    assert!(decode_container(&good).is_ok());
    for cut in 0..good.len() {
        if cut != 8 {
            assert_eq!(decode_container(&good[..cut]), Err(IndexError::CorruptIndex));
        }
    }
    // The text length is past the end.
    let mut long = good.clone();
    long[8] = 200;
    assert_eq!(decode_container(&long), Err(IndexError::CorruptIndex));
    // The two lengths do not go together.
    let mut odd = good.clone();
    odd[14] = 4;
    assert_eq!(decode_container(&odd), Err(IndexError::CorruptIndex));
    let mut odd = good.clone();
    odd[14] = 12;
    odd.extend([0, 0, 0, 0]);
    assert_eq!(decode_container(&odd), Err(IndexError::CorruptIndex));
    // A length that no text can have.
    let mut huge = encode_header();
    huge.extend([0xff, 0xff, 0xff, 0xff, 0, 0, 0, 0]);
    assert_eq!(decode_container(&huge), Err(IndexError::CorruptIndex));
    assert_eq!(MAX_TEXT_LEN, (1usize << 30) - 1);
}

#[test]
fn writer_flushes_before_the_ceiling_is_passed() {
    let none: Vec<Vec<u8>> = Vec::new();
    let mut writer = Writer::new(Some(10));
    assert_eq!(writer.max_chunk_len(), 10);
    assert_eq!(writer.add_entry(b"abcd"), Ok(()));
    assert_eq!(writer.buffer(), b"abcd\n");
    // 5 + 4 + 1 is 10: still within the ceiling.
    assert_eq!(writer.add_entry(b"efgh"), Ok(()));
    assert_eq!(writer.buffer(), b"abcd\nefgh\n");
    assert_eq!(writer.take_chunks(), none);
    assert_eq!(writer.add_entry(b""), Ok(()));
    assert_eq!(writer.buffer(), b"\n");
    assert_eq!(writer.add_entry(b"0123456789"), Ok(()));
    // A single entry of full length passes the ceiling by its newline.
    assert_eq!(writer.buffer(), b"0123456789\n");
    assert_eq!(writer.take_chunks(), vec![b"abcd\nefgh\n".to_vec(), b"\n".to_vec()]);
    assert_eq!(writer.take_chunks(), none);
    assert_eq!(writer.add_entry(b"x"), Ok(()));
    assert_eq!(writer.take_chunks(), vec![b"0123456789\n".to_vec()]);
    writer.dump_data();
    assert_eq!(writer.buffer(), b"");
    writer.dump_data();
    assert_eq!(writer.take_chunks(), vec![b"x\n".to_vec()]);
    assert_eq!(writer.add_entry(b"y"), Ok(()));
    writer.finalize();
    writer.finalize();
    assert_eq!(writer.buffer(), b"");
    assert_eq!(writer.take_chunks(), vec![b"y\n".to_vec()]);
    writer.finalize();
    assert_eq!(writer.take_chunks(), none);
    assert_eq!(writer.max_chunk_len(), 10);
}

#[test]
fn writer_refuses_an_entry_that_is_too_large() {
    let mut writer = Writer::new(Some(3));
    assert_eq!(writer.add_entry(b"ab"), Ok(()));
    assert_eq!(writer.add_entry(b"abcd"), Err(IndexError::EntryTooLarge));
    assert_eq!(writer.buffer(), b"ab\n");
    assert!(writer.take_chunks().is_empty());
    assert_eq!(writer.add_entry(b"abc"), Ok(()));
    assert_eq!(writer.buffer(), b"abc\n");
    assert_eq!(writer.take_chunks(), vec![b"ab\n".to_vec()]);
    let mut writer = Writer::new(Some(0));
    assert_eq!(writer.add_entry(b"a"), Err(IndexError::EntryTooLarge));
    assert_eq!(writer.add_entry(b""), Ok(()));
    assert_eq!(writer.add_entry(b""), Ok(()));
    writer.finalize();
    assert_eq!(writer.take_chunks(), vec![b"\n".to_vec(), b"\n".to_vec()]);
}

#[test]
fn writer_cuts_a_source_into_lines() {
    let mut writer = Writer::new(Some(8));
    assert_eq!(writer.add_entries_from_file_lines(b"lorem\nipsum\r\ndolor"), Ok(()));
    // The carriage return is a byte of its line like any other.
    assert_eq!(writer.take_chunks(), vec![b"lorem\n".to_vec(), b"ipsum\r\n".to_vec()]);
    assert_eq!(writer.buffer(), b"dolor\n");
    // An empty line is an entry; nothing follows the last newline.
    assert_eq!(writer.add_entries_from_file_lines(b"\ra\r\r\n\n\r\nb\r"), Ok(()));
    writer.finalize();
    assert_eq!(
        writer.take_chunks(),
        vec![b"dolor\n".to_vec(), b"\ra\r\r\n\n\r\n".to_vec(), b"b\r\n".to_vec()]
    );
    assert_eq!(writer.add_entries_from_file_lines(b""), Ok(()));
    assert_eq!(writer.buffer(), b"");
    assert_eq!(writer.add_entries_from_file_lines(b"\n"), Ok(()));
    assert_eq!(writer.buffer(), b"\n");
}

#[test]
fn a_source_gives_what_its_lines_give_one_by_one() {
    let mut from_source = Writer::new(Some(1024));
    assert_eq!(from_source.add_entries_from_file_lines(b"a\r\nb\n"), Ok(()));
    assert_eq!(from_source.buffer(), b"a\r\nb\n");
    let mut one_by_one = Writer::new(Some(1024));
    assert_eq!(one_by_one.add_entry(b"a\r"), Ok(()));
    assert_eq!(one_by_one.add_entry(b"b"), Ok(()));
    assert_eq!(from_source.buffer(), one_by_one.buffer());
    // Piece by piece is the same as all at once.
    let mut in_pieces = Writer::new(Some(1024));
    assert_eq!(in_pieces.add_entries_from_file_lines(b"a\r\n"), Ok(()));
    assert_eq!(in_pieces.add_entries_from_file_lines(b"b\n"), Ok(()));
    assert_eq!(in_pieces.buffer(), from_source.buffer());
}

#[test]
fn writer_stops_at_a_line_that_is_too_long() {
    let mut writer = Writer::new(Some(4));
    assert_eq!(
        writer.add_entries_from_file_lines(b"ab\ncd\nabcde\nef\n"),
        Err(IndexError::EntryTooLarge)
    );
    assert_eq!(writer.take_chunks(), vec![b"ab\n".to_vec()]);
    assert_eq!(writer.buffer(), b"cd\n");
    // The carriage return counts: the line has five bytes.
    assert_eq!(writer.add_entries_from_file_lines(b"abcd\r\n"), Err(IndexError::EntryTooLarge));
    assert_eq!(writer.buffer(), b"cd\n");
    assert_eq!(writer.add_entries_from_file_lines(b"abc\r\n"), Ok(()));
    assert_eq!(writer.take_chunks(), vec![b"cd\n".to_vec()]);
    assert_eq!(writer.buffer(), b"abc\r\n");
    let mut writer = Writer::new(Some(1));
    assert_eq!(writer.add_entries_from_file_lines(b"a\r\n"), Err(IndexError::EntryTooLarge));
    assert_eq!(writer.buffer(), b"");
    assert_eq!(writer.add_entries_from_file_lines(b"a\n\r"), Ok(()));
    assert_eq!(writer.take_chunks(), vec![b"a\n".to_vec()]);
    assert_eq!(writer.buffer(), b"\r\n");
}

#[test]
fn writer_has_a_default_ceiling() {
    let writer = Writer::new(None);
    assert_eq!(writer.max_chunk_len(), 512 * 1024 * 1024);
    assert_eq!(DEFAULT_CHUNK_LEN, 512 * 1024 * 1024);
    assert_eq!(MAX_CHUNK_LEN, (1usize << 30) - 2);
    assert_eq!(Writer::new(Some(MAX_CHUNK_LEN)).max_chunk_len(), MAX_CHUNK_LEN);
}

#[test]
fn errors_have_messages() {
    assert_eq!(IndexError::EntryTooLarge.message(), "entry is too big");
    assert_eq!(IndexError::CorruptIndex.message(), "index is corrupt");
    assert_eq!(IndexError::OracleFailure.message(), "suffix array is invalid");
}

#[test]
fn taking_chunks_early_changes_none_of_them() {
    let entries: [&[u8]; 8] = [b"one", b"two", b"three", b"", b"four", b"five", b"six", b"seven"];
    for ceiling in [5usize, 6, 9, 12, 20, 100] {
        let mut late = Writer::new(Some(ceiling));
        let mut early = Writer::new(Some(ceiling));
        let mut taken: Vec<Vec<u8>> = Vec::new();
        for entry in entries {
            assert_eq!(late.add_entry(entry), Ok(()));
            assert_eq!(early.add_entry(entry), Ok(()));
            taken.extend(early.take_chunks());
            assert_eq!(early.buffer(), late.buffer());
        }
        late.finalize();
        early.finalize();
        taken.extend(early.take_chunks());
        assert_eq!(taken, late.take_chunks());
        assert_eq!(taken.concat(), b"one\ntwo\nthree\n\nfour\nfive\nsix\nseven\n".to_vec());
    }
}

/// Every byte string over `alphabet` of length `len`.
fn strings_over(alphabet: &[u8], len: usize) -> Vec<Vec<u8>> {
    let mut all: Vec<Vec<u8>> = vec![Vec::new()];
    for _ in 0..len {
        let mut longer: Vec<Vec<u8>> = Vec::new();
        for shorter in &all {
            for byte in alphabet {
                let mut next = shorter.clone();
                next.push(*byte);
                longer.push(next);
            }
        }
        all = longer;
    }
    all
}

#[test]
fn line_bounds_agree_with_a_scan() {
    for len in 1usize..9 {
        for text in strings_over(b"a\n", len) {
            for pos in 0..len {
                let mut start: usize = pos;
                while start > 0 && text[start - 1] != b'\n' {
                    start -= 1;
                }
                let mut end: usize = pos;
                while end < len - 1 && text[end] != b'\n' {
                    end += 1;
                }
                assert_eq!(line_bounds(&text, pos), (start, end));
            }
        }
    }
}

#[test]
fn lines_of_a_source_are_cut_at_newlines() {
    for len in 0usize..8 {
        for source in strings_over(b"a\r\n", len) {
            let mut expected: Vec<u8> = Vec::new();
            let mut rest: &[u8] = &source;
            while !rest.is_empty() {
                let cut = rest.iter().position(|b| *b == b'\n');
                let (line, after): (&[u8], &[u8]) = match cut {
                    Some(at) => (&rest[..at], &rest[at + 1..]),
                    None => (rest, &rest[rest.len()..]),
                };
                expected.extend(line);
                expected.push(b'\n');
                rest = after;
            }
            let mut writer = Writer::new(Some(1000));
            assert_eq!(writer.add_entries_from_file_lines(&source), Ok(()));
            assert_eq!(writer.buffer(), expected.as_slice());
        }
    }
}
