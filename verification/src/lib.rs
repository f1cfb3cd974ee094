pub mod data;
pub mod deferred_data;
pub mod export;
pub mod http;
pub mod tile_manager;
pub mod timestamp;
