//! A local replica of a breach-password count index: hashes, record encoding,
//! bulk source parsing and the partitioned upstream sweep.

pub mod ascii;
pub mod bulk;
pub mod count;
pub mod hash;
pub mod lookup;
pub mod store;
pub mod sweep;
pub mod text;
pub mod upstream;
