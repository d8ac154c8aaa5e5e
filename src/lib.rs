//! Alternative encodings of a JIT code-generation context and the
//! accounting used to compare their memory footprint.

pub mod initial_context;
pub mod compact_temp_mapping;
pub mod packed_context;
pub mod hash_cons;
pub mod hash_cons_2;
pub mod deduplicated;
pub mod size_accounting;
