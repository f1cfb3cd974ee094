pub mod client;
pub mod urls;
