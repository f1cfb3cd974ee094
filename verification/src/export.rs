pub mod entries;
pub mod events;
pub mod matcher;
pub mod pairing;
pub mod requests;
