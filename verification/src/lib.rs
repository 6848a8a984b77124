//! Generic worst-case-linear-time partitioning built on discriminators:
//! strategy values that group key/value pairs by key without pairwise key
//! comparison, composing under invert, rename, sum and product combinators.

pub mod combinators;
pub mod discriminator;
mod either_spec;
pub mod groups;
pub mod is_pair;
pub mod laws;
mod seq_facts;
pub mod split_either;
