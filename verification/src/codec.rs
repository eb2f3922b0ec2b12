use vstd::prelude::*;
use vstd::slice::{slice_subrange, slice_to_vec};
use byteorder::{ByteOrder, LittleEndian, WriteBytesExt};
use crate::error::IndexError;
use crate::subindex::valid_sub_index;
use crate::suffix::check_suffix_array;
use crate::lines::NEWLINE;

verus! {

/// The longest text that a record can hold: four times its length still
/// fits the 32-bit size field of the suffix array.
pub const MAX_TEXT_LEN: usize = 0x3FFF_FFFF;

/// The number that opens every container: the bytes `SSIX`.
pub const MAGIC: u32 = 0x5849_5353;

/// The version of the format: framed records, each with a suffix array of
/// one entry per byte of its text and no sentinel.
pub const FORMAT_VERSION: u32 = 1;

/// The length of a header: the magic number and the version.
pub const HEADER_LEN: usize = 8;

/// The four bytes of `v`, lowest first.
pub open spec fn u32_le(v: u32) -> Seq<u8> {
    seq![
        (v % 256) as u8,
        ((v / 256) % 256) as u8,
        ((v / 65536) % 256) as u8,
        ((v / 16777216) % 256) as u8,
    ]
}

/// The number whose bytes, lowest first, are the first four of `b`.
pub open spec fn le_u32(b: Seq<u8>) -> u32 {
    (b[0] + 256 * b[1] + 65536 * b[2] + 16777216 * b[3]) as u32
}

/// The 32 bits of `v` read as an unsigned number (two's complement).
pub open spec fn i32_bits(v: i32) -> u32 {
    if v < 0 {
        (v + 0x1_0000_0000) as u32
    } else {
        v as u32
    }
}

/// The signed number that the 32 bits of `u` stand for.
pub open spec fn bits_i32(u: u32) -> i32 {
    if u >= 0x8000_0000 {
        (u - 0x1_0000_0000) as i32
    } else {
        u as i32
    }
}

/// The four bytes of `v`, lowest first.
pub open spec fn i32_le(v: i32) -> Seq<u8> {
    u32_le(i32_bits(v))
}

/// The signed number whose bytes, lowest first, are the first four of `b`.
pub open spec fn le_i32(b: Seq<u8>) -> i32 {
    bits_i32(le_u32(b))
}

/// The bytes of a suffix array: four for each entry, lowest first.
pub open spec fn offsets_bytes(sa: Seq<i32>) -> Seq<u8> {
    Seq::new(4 * sa.len(), |k: int| i32_le(sa[k / 4])[k % 4])
}

/// The `n` numbers that `b` holds, four bytes each.
pub open spec fn parse_offsets(b: Seq<u8>, n: int) -> Seq<i32> {
    Seq::new(n as nat, |i: int| le_i32(b.subrange(4 * i, 4 * i + 4)))
}

/// One record of a container: the length of the text, the text, the length
/// of the suffix array in bytes, the suffix array.
pub open spec fn record_bytes(t: Seq<u8>, sa: Seq<i32>) -> Seq<u8> {
    u32_le(t.len() as u32) + t + u32_le((4 * sa.len()) as u32) + offsets_bytes(sa)
}

/// Records, one after the other.
pub open spec fn records_bytes(records: Seq<(Seq<u8>, Seq<i32>)>) -> Seq<u8>
    decreases records.len(),
{
    if records.len() == 0 {
        Seq::empty()
    } else {
        record_bytes(records[0].0, records[0].1) + records_bytes(records.drop_first())
    }
}

/// The header of a container: the magic number and the format version.
pub open spec fn header_bytes() -> Seq<u8> {
    u32_le(MAGIC) + u32_le(FORMAT_VERSION)
}

/// A container: the header, the records one after the other, and nothing
/// else.
pub open spec fn container_bytes(records: Seq<(Seq<u8>, Seq<i32>)>) -> Seq<u8> {
    header_bytes() + records_bytes(records)
}

/// `b` opens with the header of this format.
pub open spec fn has_header(b: Seq<u8>) -> bool {
    &&& b.len() >= HEADER_LEN
    &&& le_u32(b.subrange(0, 4)) == MAGIC
    &&& le_u32(b.subrange(4, 8)) == FORMAT_VERSION
}

/// The record at the head of `b`, and how many bytes it takes; `None`
/// where `b` is cut short or the two lengths do not go together.
pub open spec fn parse_record(b: Seq<u8>) -> Option<(Seq<u8>, Seq<i32>, int)> {
    if b.len() < 4 {
        None
    } else {
        let n = le_u32(b.subrange(0, 4)) as int;
        if b.len() < n + 8 {
            None
        } else {
            let m = le_u32(b.subrange(4 + n, 8 + n)) as int;
            if m != 4 * n || b.len() < 8 + n + m {
                None
            } else {
                Some(
                    (
                        b.subrange(4, 4 + n),
                        parse_offsets(b.subrange(8 + n, 8 + n + m), n),
                        8 + n + m,
                    ),
                )
            }
        }
    }
}

/// The records that `b` is made of; `None` where `b` is not a sequence of
/// whole records.
pub open spec fn parse_records(b: Seq<u8>) -> Option<Seq<(Seq<u8>, Seq<i32>)>>
    decreases b.len(),
{
    if b.len() == 0 {
        Some(Seq::empty())
    } else {
        match parse_record(b) {
            None => None,
            Some((t, sa, used)) => match parse_records(b.skip(used)) {
                None => None,
                Some(rest) => Some(seq![(t, sa)] + rest),
            },
        }
    }
}

/// The records of the container `b`; `None` where `b` does not open with
/// the header, or what follows it is not a sequence of whole records.
pub open spec fn parse_container(b: Seq<u8>) -> Option<Seq<(Seq<u8>, Seq<i32>)>> {
    if has_header(b) {
        parse_records(b.skip(HEADER_LEN as int))
    } else {
        None
    }
}

/// What a vector of records holds.
pub open spec fn records_view(records: Seq<(Vec<u8>, Vec<i32>)>) -> Seq<(Seq<u8>, Seq<i32>)> {
    records.map_values(|r: (Vec<u8>, Vec<i32>)| (r.0@, r.1@))
}

/// Reading back the bytes of a number gives the number.
pub proof fn lemma_u32_round_trip(v: u32)
    ensures
        u32_le(v).len() == 4,
        le_u32(u32_le(v)) == v,
{
}

/// Reading back the bytes of a signed number gives the number.
pub proof fn lemma_i32_round_trip(v: i32)
    ensures
        i32_le(v).len() == 4,
        le_i32(i32_le(v)) == v,
{
    lemma_u32_round_trip(i32_bits(v));
}

/// Reading back the bytes of a suffix array gives the array.
pub proof fn lemma_offsets_round_trip(sa: Seq<i32>)
    ensures
        offsets_bytes(sa).len() == 4 * sa.len(),
        parse_offsets(offsets_bytes(sa), sa.len() as int) == sa,
{
    let b = offsets_bytes(sa);
    assert forall|i: int| 0 <= i < sa.len() implies parse_offsets(b, sa.len() as int)[i]
        == sa[i] by {
        lemma_i32_round_trip(sa[i]);
    }
}

/// The bytes of an array that grew by one entry are the old bytes and the
/// four bytes of that entry.
pub proof fn lemma_offsets_bytes_push(sa: Seq<i32>, v: i32)
    ensures
        offsets_bytes(sa.push(v)) == offsets_bytes(sa) + i32_le(v),
{
}

/// A record followed by anything parses as that record, and takes its own
/// length.
pub proof fn lemma_record_round_trip(t: Seq<u8>, sa: Seq<i32>, rest: Seq<u8>)
    requires
        sa.len() == t.len(),
        t.len() <= MAX_TEXT_LEN,
    ensures
        record_bytes(t, sa).len() == 8 + 5 * t.len(),
        parse_record(record_bytes(t, sa) + rest) == Some((t, sa, 8 + 5 * t.len() as int)),
        (record_bytes(t, sa) + rest).skip(8 + 5 * t.len() as int) == rest,
{
    let n = t.len() as int;
    let b = record_bytes(t, sa) + rest;
    lemma_u32_round_trip(n as u32);
    lemma_u32_round_trip((4 * n) as u32);
    lemma_offsets_round_trip(sa);
    assert(b.subrange(8 + n, 8 + n + 4 * n) =~= offsets_bytes(sa));
}

/// Every record of `records` pairs a text with an array of the same
/// length, short enough to be stored.
pub open spec fn storable(records: Seq<(Seq<u8>, Seq<i32>)>) -> bool {
    forall|i: int|
        0 <= i < records.len() ==> (#[trigger] records[i]).1.len() == records[i].0.len()
            && records[i].0.len() <= MAX_TEXT_LEN
}

/// Reading records gives back, bit for bit and in order, what was written.
pub proof fn lemma_records_round_trip(records: Seq<(Seq<u8>, Seq<i32>)>)
    requires
        storable(records),
    ensures
        parse_records(records_bytes(records)) == Some(records),
    decreases records.len(),
{
    if records.len() > 0 {
        let first = records[0];
        let rest = records.drop_first();
        assert forall|i: int| 0 <= i < rest.len() implies (#[trigger] rest[i]).1.len()
            == rest[i].0.len() && rest[i].0.len() <= MAX_TEXT_LEN by {}
        lemma_records_round_trip(rest);
        lemma_record_round_trip(first.0, first.1, records_bytes(rest));
    }
}

/// Reading a container gives back, bit for bit and in order, the records
/// that were written into it.
pub proof fn lemma_container_round_trip(records: Seq<(Seq<u8>, Seq<i32>)>)
    requires
        storable(records),
    ensures
        parse_container(container_bytes(records)) == Some(records),
{
    let b = container_bytes(records);
    lemma_u32_round_trip(MAGIC);
    lemma_u32_round_trip(FORMAT_VERSION);
    assert(b.subrange(0, 4) =~= u32_le(MAGIC));
    assert(b.subrange(4, 8) =~= u32_le(FORMAT_VERSION));
    assert(b.skip(HEADER_LEN as int) =~= records_bytes(records));
    lemma_records_round_trip(records);
}

/// Appends the four bytes of `v`, lowest first.
///
/// This is `byteorder::WriteBytesExt::write_u32` in little-endian order on
/// a vector, for which writing is appending and does not fail.
#[verifier::external_body]
fn put_u32(out: &mut Vec<u8>, v: u32)
    ensures
        final(out)@ == old(out)@ + u32_le(v),
{
    let _ = out.write_u32::<LittleEndian>(v);
}

/// Appends the four bytes of `v`, lowest first.
///
/// This is `byteorder::WriteBytesExt::write_i32` in little-endian order on
/// a vector, for which writing is appending and does not fail.
#[verifier::external_body]
fn put_i32(out: &mut Vec<u8>, v: i32)
    ensures
        final(out)@ == old(out)@ + i32_le(v),
{
    let _ = out.write_i32::<LittleEndian>(v);
}

/// The number that the first four bytes hold, lowest first.
///
/// This is `byteorder::LittleEndian::read_u32`, which panics on fewer than
/// four bytes.
#[verifier::external_body]
fn get_u32(bytes: &[u8]) -> (v: u32)
    requires
        bytes@.len() >= 4,
    ensures
        v == le_u32(bytes@),
{
    LittleEndian::read_u32(bytes)
}

/// The signed number that the first four bytes hold, lowest first.
///
/// This is `byteorder::LittleEndian::read_i32`, which panics on fewer than
/// four bytes.
#[verifier::external_body]
fn get_i32(bytes: &[u8]) -> (v: i32)
    requires
        bytes@.len() >= 4,
    ensures
        v == le_i32(bytes@),
{
    LittleEndian::read_i32(bytes)
}

/// The record that stores `text` with its suffix array.
///
/// The array comes from outside, so it is checked first: nothing is
/// encoded unless `text` is a blob and `suffixes` its suffix array.
pub fn encode_record(text: &[u8], suffixes: &[i32]) -> (r: Result<Vec<u8>, IndexError>)
    ensures
        r is Ok <==> valid_sub_index(text@, suffixes@),
        r matches Ok(bytes) ==> bytes@ == record_bytes(text@, suffixes@),
        r matches Err(e) ==> e == IndexError::OracleFailure,
{
    let n = text.len();
    if n == 0 || n > MAX_TEXT_LEN || text[n - 1] != NEWLINE {
        return Err(IndexError::OracleFailure);
    }
    if !check_suffix_array(text, suffixes) {
        return Err(IndexError::OracleFailure);
    }
    let mut out: Vec<u8> = Vec::new();
    put_u32(&mut out, n as u32);
    out.extend_from_slice(text);
    put_u32(&mut out, (4 * n) as u32);
    let ghost head = out@;
    let mut i: usize = 0;
    while i < n
        invariant
            i <= n,
            n == suffixes@.len(),
            out@ == head + offsets_bytes(suffixes@.take(i as int)),
        decreases n - i,
    {
        put_i32(&mut out, suffixes[i]);
        proof {
            lemma_offsets_bytes_push(suffixes@.take(i as int), suffixes@[i as int]);
            assert(suffixes@.take(i as int).push(suffixes@[i as int]) =~= suffixes@.take(
                i as int + 1,
            ));
            assert((head + offsets_bytes(suffixes@.take(i as int))) + i32_le(suffixes@[i as int])
                =~= head + (offsets_bytes(suffixes@.take(i as int)) + i32_le(suffixes@[i as int])));
        }
        i = i + 1;
    }
    Ok(out)
}

/// The record that starts at offset `pos` of a container, and where the
/// next one starts.
pub fn decode_record(bytes: &[u8], pos: usize) -> (r: Result<
    (Vec<u8>, Vec<i32>, usize),
    IndexError,
>)
    requires
        pos <= bytes@.len(),
    ensures
        match r {
            Ok((text, suffixes, next)) => pos < next <= bytes@.len() && parse_record(
                bytes@.skip(pos as int),
            ) == Some((text@, suffixes@, next - pos)),
            Err(e) => e == IndexError::CorruptIndex && parse_record(bytes@.skip(pos as int))
                is None,
        },
{
    let ghost b = bytes@;
    let ghost tail = b.skip(pos as int);
    let len = bytes.len();
    if len - pos < 4 {
        return Err(IndexError::CorruptIndex);
    }
    let n_field = get_u32(slice_subrange(bytes, pos, pos + 4));
    let n = n_field as usize;
    if len - pos - 4 < n || len - pos - 4 - n < 4 {
        return Err(IndexError::CorruptIndex);
    }
    let m_field = get_u32(slice_subrange(bytes, pos + 4 + n, pos + 8 + n));
    let m = m_field as usize;
    if n > MAX_TEXT_LEN || m != 4 * n || len - pos - 8 - n < m {
        return Err(IndexError::CorruptIndex);
    }
    let text = slice_to_vec(slice_subrange(bytes, pos + 4, pos + 4 + n));
    let base = pos + 8 + n;
    let ghost packed = tail.subrange(8 + n, 8 + n + m);
    let mut suffixes: Vec<i32> = Vec::new();
    let mut i: usize = 0;
    while i < n
        invariant
            b == bytes@,
            len == b.len(),
            i <= n,
            m == 4 * n,
            base + m <= len,
            packed == b.subrange(base as int, base + m),
            suffixes@ == parse_offsets(packed, i as int),
        decreases n - i,
    {
        let v = get_i32(slice_subrange(bytes, base + 4 * i, base + 4 * i + 4));
        assert(b.subrange(base + 4 * i, base + 4 * i + 4) =~= packed.subrange(
            4 * i as int,
            4 * i + 4,
        ));
        suffixes.push(v);
        i = i + 1;
    }
    Ok((text, suffixes, base + m))
}

/// The header that opens a container.
pub fn encode_header() -> (header: Vec<u8>)
    ensures
        header@ == header_bytes(),
{
    let mut header: Vec<u8> = Vec::new();
    put_u32(&mut header, MAGIC);
    put_u32(&mut header, FORMAT_VERSION);
    header
}

/// Checks that a container opens with the header of this format, and
/// gives the offset of its first record.
pub fn decode_header(bytes: &[u8]) -> (r: Result<usize, IndexError>)
    ensures
        match r {
            Ok(start) => has_header(bytes@) && start == HEADER_LEN,
            Err(e) => e == IndexError::CorruptIndex && !has_header(bytes@),
        },
{
    if bytes.len() < HEADER_LEN {
        return Err(IndexError::CorruptIndex);
    }
    let magic = get_u32(slice_subrange(bytes, 0, 4));
    let version = get_u32(slice_subrange(bytes, 4, 8));
    if magic != MAGIC || version != FORMAT_VERSION {
        return Err(IndexError::CorruptIndex);
    }
    Ok(HEADER_LEN)
}

/// The records of a container, in order.
pub fn decode_container(bytes: &[u8]) -> (r: Result<Vec<(Vec<u8>, Vec<i32>)>, IndexError>)
    ensures
        match r {
            Ok(records) => parse_container(bytes@) == Some(records_view(records@)),
            Err(e) => e == IndexError::CorruptIndex && parse_container(bytes@) is None,
        },
{
    let ghost b = bytes@;
    let len = bytes.len();
    let mut records: Vec<(Vec<u8>, Vec<i32>)> = Vec::new();
    let mut pos: usize = match decode_header(bytes) {
        Ok(start) => start,
        Err(e) => {
            return Err(e);
        },
    };
    while pos < len
        invariant
            b == bytes@,
            len == b.len(),
            HEADER_LEN <= pos <= len,
            has_header(b),
            parse_container(b) == match parse_records(b.skip(pos as int)) {
                None => None::<Seq<(Seq<u8>, Seq<i32>)>>,
                Some(rest) => Some(records_view(records@) + rest),
            },
        decreases len - pos,
    {
        let (text, suffixes, next) = match decode_record(bytes, pos) {
            Ok(record) => record,
            Err(e) => {
                return Err(e);
            },
        };
        let ghost old_records = records@;
        let ghost t = text@;
        let ghost sa = suffixes@;
        records.push((text, suffixes));
        proof {
            assert(b.skip(pos as int).skip(next - pos) =~= b.skip(next as int));
            match parse_records(b.skip(next as int)) {
                None => {},
                Some(rest) => {
                    assert(records_view(old_records) + (seq![(t, sa)] + rest) =~= records_view(
                        records@,
                    ) + rest);
                },
            }
        }
        pos = next;
    }
    Ok(records)
}

} // verus!
