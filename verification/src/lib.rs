//! Reader for ASAM MDF 4 measurement files, working on an in-memory image of
//! the file. Every function is verified against a contract stated over the
//! bytes of that image.

pub mod error;
pub mod data_serde;
pub mod float_bits;
pub mod block;
pub mod parser;
pub mod components;
pub mod wrapper;
