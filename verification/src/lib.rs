//! A substring search index for line-oriented text.
//!
//! Entries are byte strings without a newline. A [`writer::Writer`] strings
//! them together, a newline after each, into chunks of bounded length. Each
//! chunk is stored with its suffix array as one record of a container
//! ([`codec`]); the suffix array is built elsewhere and checked here
//! ([`suffix::check_suffix_array`]). A [`reader::Reader`] holds the records
//! of a container in memory and finds, by binary search over each suffix
//! array, every stored line in which a query stands.
//!
//! What is fixed here:
//!
//! - A container is a header and the records one after the other. The
//!   header is the magic number and the version of the format. A record is
//!   the length of the text, the text, the length of the suffix array in
//!   bytes, and the suffix array. All numbers take 32 bits, little-endian.
//!   In this version of the format the suffix array has one entry per byte
//!   of the text, no more.
//! - A line of a source ends at a newline, the byte 0x0A, and only that
//!   byte is taken off it: every other byte, a carriage return too, is part
//!   of the entry.
//! - The empty query stands in every line, so a search for it returns every
//!   line.
//! - Within one chunk a line is returned once, however often the query
//!   stands in it. Lines are told apart by where they start: two entries
//!   with the same bytes are two lines, and a line that is stored in two
//!   chunks is returned from both.
//! - A search returns the lines of the first chunk first, and within a
//!   chunk in the order in which the suffix array comes upon them.

pub mod codec;
pub mod entries;
pub mod error;
pub mod lex;
pub mod lines;
pub mod reader;
pub mod results;
pub mod round_trip;
pub mod seen;
pub mod subindex;
pub mod suffix;
pub mod writer;
