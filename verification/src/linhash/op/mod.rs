//! The operations of the index, one type each.

pub mod get;
pub mod insert;
pub mod layout;
pub mod query;
pub mod split;

pub use get::Get;
pub use insert::Insert;
pub use query::Query;
pub use split::Split;
