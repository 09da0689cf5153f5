//! Line-oriented editing of hosts files: finding, creating, updating and
//! deleting the mapping record of a domain, and searching lines by substring.

pub mod text;
pub mod matcher;
pub mod error;
pub mod edit;
pub mod laws;
