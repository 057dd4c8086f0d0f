//! What holds of the events as a whole, over the meaning that the parsers are proved to give
//! to the bytes.

pub mod blocks;
pub mod entries;
pub mod gtid;
pub mod gtid_bytes;
pub mod mariadb;
pub mod mariadb_bytes;
pub mod query;
pub mod query_bytes;
pub mod reads;
pub mod status_vars;
pub mod text;
pub mod written_vars;
