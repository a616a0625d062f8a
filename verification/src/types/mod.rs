pub mod text;
pub mod bytes;
pub mod key;
pub mod paths;
pub mod time;
pub mod config;
pub mod ttl_key;
pub mod value;
