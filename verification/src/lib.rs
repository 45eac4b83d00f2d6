//! Verified core of a local web gallery for Sony PlayMemories cameras.

pub mod text;
pub mod decimal;
pub mod url;
pub mod model;
pub mod didl;
pub mod xml;
pub mod browse;
pub mod pager;
pub mod http;
pub mod discover;
pub mod camera;
pub mod mock;
pub mod state;
pub mod json;
pub mod api;
pub mod cli;
