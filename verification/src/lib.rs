//! Most-recently-used ranking: a per-realm record of when each value was last
//! used, and a pipeline that orders lines so that older values come first.

pub mod codec;
pub mod command;
pub mod error;
pub mod order;
pub mod rank;
pub mod store;
