use vstd::prelude::*;

pub mod bignum;
pub mod charsets;
pub mod create_smartlist;
pub mod error;
pub mod generators;
pub mod mask;
pub mod odometer;
pub mod password_entropy;
pub mod runner;
pub mod stackbuf;
pub mod wordlist_gen;
pub mod wordlists;

verus! {

/// Capacity of the scratch buffer that the generators fill before a flush.
pub const BUFFER_SIZE: usize = 8192;

/// Bound on the length of a generated word, newline included.
pub const MAX_WORD_SIZE: usize = 512;

} // verus!
