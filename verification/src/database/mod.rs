pub mod error;
pub mod store;
pub mod ttl_table;
pub mod db;
pub mod maintenance;
