//! Packed Unicode property tables: the build-side routines that deduplicate
//! and bit-pack a per-code-point column, and the run-time lookups that read
//! the packed tables back.

pub mod column;
pub mod bits;
pub mod lookup;
pub mod radical;
pub mod dash;
pub mod composition_exclusion;
pub mod id_compat_math_start;
pub mod laws;
pub mod codegen;
pub mod generated;
