//! The event bodies.

pub mod gtid_event;
pub mod mariadb_gtid_event;
pub mod query_event;
