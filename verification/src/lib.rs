//! Finds the reference list of a document in its plain text and cuts it into
//! bibliographic entries.
//!
//! A text is modelled by the sequence of its characters, and the contracts
//! speak of characters. The search for the header and for the first marker
//! runs on the UTF-8 bytes of the text; `encoding` proves that a place found
//! in the bytes is the same place in the characters. Finding the markers of
//! the entries is left to the `regex` crate and trimming to std: `matching`
//! holds those calls, and the contracts name what they return.

pub mod encoding;
pub mod laws;
pub mod matching;
pub mod raw_text;
pub mod scan;
