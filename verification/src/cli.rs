//! What the command line asks for.

use crate::store::{scan, tail_window, TailStep};
use vstd::prelude::*;

verus! {

/// The arguments of the command line.
#[derive(Clone, Debug, PartialEq, Eq)]
pub struct Cli {
    /// List all entries.
    pub all: bool,
    /// The words of a new entry; none to list the last entries.
    pub entry: Vec<String>,
    /// How many entries to list.
    pub number: Option<i32>,
    /// Show the tags in the listing.
    pub tags: bool,
}

/// How many entries a listing shows where the command line names no number.
pub const DEFAULT_COUNT: usize = 10;

/// How many entries a command line asks for: the number given, ten where
/// none is given. A number below zero counts from the top of the range of
/// `usize` down, which asks for more entries than any log holds.
pub open spec fn listing_count(number: Option<i32>) -> nat {
    match number {
        None => DEFAULT_COUNT as nat,
        Some(k) => if k >= 0 {
            k as nat
        } else {
            (usize::MAX + 1 + k) as nat
        },
    }
}

/// How many entries `cli` asks for.
pub fn requested_count(cli: &Cli) -> (n: usize)
    ensures
        n == listing_count(cli.number),
{
    match cli.number {
        None => DEFAULT_COUNT,
        Some(k) => {
            if k >= 0 {
                k as usize
            } else {
                let below: usize = (-(k as i64) - 1) as usize;
                usize::MAX - below
            }
        },
    }
}

/// The entries of the listing that `cli` asks for, read out of `window`,
/// the bytes of the log from its byte `base` on: the last entries, as many
/// as `cli` asks for, the oldest first; or the line that holds none; or the
/// word that the window begins too late.
pub fn list_last_entries(cli: &Cli, window: &[u8], base: u64) -> (r: TailStep)
    requires
        base + window.len() <= u64::MAX,
    ensures
        r@ == scan(window@, base as nat, listing_count(cli.number)),
        base == 0 ==> r !is NeedMore,
{
    tail_window(window, base, requested_count(cli))
}

} // verus!
