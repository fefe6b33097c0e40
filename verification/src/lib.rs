//! Relational join engine for an in-memory columnar table library, together
//! with the validity bitmap that backs its columns.
//!
//! Given two [`table::Table`]s, a set of key columns, and a
//! [`join::JoinSpec`], [`table::Table::join`] produces a new table
//! combining matching rows under inner, left, full outer, semi, anti,
//! as-of, or cross semantics.  The pipeline: the validator checks key
//! lists, cardinality, and types ([`join`]); the normalizer reconciles
//! categorical dictionaries and converts keys to a canonical physical form
//! ([`normalize`]); the dispatcher picks the matcher and the build/probe
//! orientation ([`join`]); the matcher produces the index-pair sequence
//! ([`matcher`]); and the assembler slices the pairs, gathers both
//! projections as a fork-join pair, resolves name collisions, and
//! coalesces outer-join keys ([`assemble`]).

pub mod assemble;
pub mod bitmap;
pub mod join;
pub mod matcher;
pub mod normalize;
pub mod table;
