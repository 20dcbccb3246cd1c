//! A small verified task-tracking library.
//!
//! Tasks (a title plus a completion flag) are persisted as comma-separated
//! text records behind a header row.  The library owns the record codec, the
//! store that renders and scans the backing file's content, and the query
//! engine that filters and sorts tasks for listing.  File input and output,
//! argument parsing and table rendering live outside the library.

pub mod task;
pub mod codec;
pub mod store;
pub mod query;
pub mod dispatch;
