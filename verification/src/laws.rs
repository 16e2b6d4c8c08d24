//! What the operations promise, in terms of the bytes of a region and of what
//! goes into an operation and comes out of it.
//!
//! Each law speaks of calls: whatever a function returned for some arguments,
//! this holds of it.
pub mod collecting;
pub mod lookup;
pub mod opening;
pub mod places;
pub mod protocol;
pub mod reading;
pub mod words;
pub mod writing;
