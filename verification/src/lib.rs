pub mod text;
pub mod hex;
pub mod config;
pub mod cache;
pub mod throttle;
pub mod render;
pub mod session;
pub mod page;
