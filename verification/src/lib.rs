//! Canonical ordering, fingerprints and small counting helpers for texts.
//!
//! Every function is a pure function of its arguments. The contracts speak
//! of texts as sequences of characters and of lists as sequences of texts.

pub mod counting;
pub mod fingerprint;
pub mod hashing;
pub mod matching;
pub mod membership;
pub mod order;
pub mod sorting;
pub mod summing;
pub mod text;

pub use counting::str_count;
pub use fingerprint::sort_package_str;
pub use hashing::hash_address_n_token_id;
pub use membership::str_count_int;
pub use sorting::{sort_package, StringList};
pub use summing::str_ascii;
