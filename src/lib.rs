pub mod error;
pub mod key_store;
pub mod provider;
