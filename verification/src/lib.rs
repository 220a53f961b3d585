//! Reads nginx access logs.
//!
//! A log format such as `$remote_addr [$time_local] $request` is compiled
//! once into a [`Format`]; every log line is then matched against it as a
//! whole, and the fields are read from the resulting [`format::Entry`] by
//! name.
//!
//! - [`syntax`] states the grammar of a format and proves what reading a
//!   format keeps.
//! - [`encoding`] relates a format as bytes to the same format as text.
//! - [`pattern`] states the regular expression that a format is matched with.
//! - [`engine`] holds what is taken on trust of the regular expression
//!   engine and of the UTF-8 decoder.
//! - [`format`] reads formats and takes lines apart.
//! - [`text`] compares text.

pub mod encoding;
pub mod engine;
pub mod format;
pub mod pattern;
pub mod syntax;
pub mod text;

pub use format::Format;
