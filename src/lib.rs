//! HTTP cookies: the value model and its text codec, with proved contracts.

pub mod cookie;
pub mod model;
pub mod percent;
pub mod round_trip;
pub mod strings;
pub mod text;
pub mod timestamp;
