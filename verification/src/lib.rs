//! An invertible Bloom lookup table (IBLT): a fixed-capacity probabilistic
//! key-to-value map over 32-bit keys and values. The table is a sequence of
//! accumulator cells partitioned into equal areas; every operation on a key
//! touches exactly one cell per area, chosen by a salted hash of the key.
//! Besides insertion, point lookup and deletion, the table supports full
//! enumeration of its contents through a single forward peeling pass, even
//! though no key is stored verbatim.

pub mod hashing;
pub mod iblt;
pub mod iblt_error;
pub mod laws;

pub use crate::iblt::InvertibleBloomLookupTable;
pub use crate::iblt::InvertibleBloomLookupTableNode;
pub use crate::iblt::Output;
pub use crate::iblt::OutputList;
pub use crate::iblt_error::IBLTError;
