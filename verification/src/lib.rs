//! Integer core of a conjugate-gradient benchmark kernel: the 46-bit linear
//! congruential generator, the synthesis of the sparse matrix pattern, the
//! benchmark classes, the driver's state machine and a set of stopwatches.

pub mod class;
pub mod csr;
pub mod driver;
pub mod makea;
pub mod randdp;
pub mod rowgen;
pub mod sparse;
pub mod staging;
pub mod timers;
