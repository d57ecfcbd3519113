//! A journal of short, timestamped entries kept in an append-only log.
//!
//! An [`Entry`] is a timestamp, a text, and the tags of the text: its words
//! that begin with `#`. An entry is written to the log as one line, its
//! record ([`encode`], [`decode`]), and the last entries are read back from
//! the end of the log ([`get_last_n_entries`], [`tail_window`]) without
//! going through the lines before them.
//!
//! The library touches no file: it works on bytes, and leaves reading and
//! writing them to its caller.

pub mod cli;
pub mod clock;
pub mod codec;
pub mod decimal;
pub mod entry;
pub mod output;
pub mod quote;
pub mod store;
pub mod tags;
pub mod text;
pub mod timestamp;

pub use crate::cli::{list_last_entries, requested_count, Cli};
pub use crate::clock::now;
pub use crate::codec::{decode, encode, MalformedRecord};
pub use crate::entry::{entry_at, make_entry, parse_entry, Entry};
pub use crate::output::{entry_rows, heading_text, print_entries, Shown};
pub use crate::store::{
    decode_line, first_window, get_last_n_entries, next_window, read_tail, tail_window,
    write_entry, PartialDecodeError, TailStep,
};
pub use crate::tags::{extract_tags, is_whitespace};
pub use crate::timestamp::{month_length, ClockReading, Timestamp};
