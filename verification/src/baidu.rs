//! Speech recognition by Baidu.
pub mod asr;
pub mod auth;
pub mod errors;
