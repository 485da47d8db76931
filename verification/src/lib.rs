//! Bijective, length-prefixed variable-length integer encodings.

pub mod bijou128;
pub mod codec;
pub mod bijou32;
pub mod bijou64;
pub mod census;
pub mod i128;
pub mod i32;
pub mod i64;
pub mod wire;
pub use bijou128 as u128;
pub use bijou32 as u32;
pub use bijou64 as u64;
pub use codec::{Decode, Encode};
