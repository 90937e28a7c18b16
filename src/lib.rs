//! Compact printable encodings of bounded integer sequences.
//!
//! `ordered` keeps the exact sequence, `unordered` keeps only its multiset.
//! Both re-express an intermediate numeral in the 95 printable ASCII
//! characters through `util::translate_radix`.
pub mod util;
pub mod ordered;
pub mod unordered;
