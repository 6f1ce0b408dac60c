//! A budgeted recursive branching algorithm: expanding an n-ary tree of work
//! items under a finite depth budget, with an overflow-signaling protocol
//! between a node and its ancestors and two decay policies that throttle the
//! budget handed to descendants once overflow has been observed.

pub mod builder;
pub mod counter;
pub mod decay;
pub mod laws;
pub mod protocol;
