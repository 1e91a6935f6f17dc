//! The parts of a measurement: data blocks, data groups, channel groups,
//! channels with their conversions and sources, and channel arrays.

pub mod dx;
pub mod si;
pub mod cc;
pub mod ca;
pub mod cn;
pub mod cg;
pub mod dg;
