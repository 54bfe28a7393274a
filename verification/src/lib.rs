//! Exact subset-sum search over 64-bit unsigned integers.
//!
//! A caller hands over entries, each a value with the position it came from,
//! and asks for selections of them that add up to a target while using a
//! bounded number of entries. One answer can be asked for in a single call
//! (`solver`, `mitm`), or all of them from a session that is driven in
//! bounded steps (`batch`).
//!
//! What a selection and a goal are is said in `entry`. The searches work on
//! the entries in rising order of value (`prepared`, `arrange`) and think of a
//! selection as a path of places in that order (`paths`, `masks`). `walk`
//! says step by step what a session does, `cancel` reads the flag by which a
//! caller calls a search off, and `laws` holds what is true of every search.

pub mod entry;
pub mod paths;
pub mod prepared;
pub mod arrange;
pub mod cancel;
pub mod masks;
pub mod solver;
pub mod mitm;
pub mod walk;
pub mod batch;
pub mod laws;
