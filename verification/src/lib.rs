//! Pipe text, HTML or ANSI-coloured terminal output to a browser window:
//! the verified core of the converters and the stream state machines.
mod text;
pub mod escape;
pub mod number;
pub mod ansi;
pub mod html;
pub mod reader;
pub mod browser;
pub mod server;
pub mod page;
