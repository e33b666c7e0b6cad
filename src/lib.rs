//! Constrained directional enhancement filter driver of an AV1 decoder,
//! with the block-context helpers and palette packing that sit beside it.
pub mod cdef;
pub mod cdef_apply;
pub mod staging;
pub mod dsp;
pub mod brow;
pub mod env;
pub mod pal;
