//! A pool of values of one type that hands out opaque keys, with verified
//! key issuance, identity-scoped validation, slot reuse and batched access
//! to several values at once through pairwise distinct keys.

pub mod batch;
pub mod key;
pub mod laws;
pub mod slots;
pub mod pool;

pub use key::PoolKey;
pub use pool::{PoolFull, TypePool};
