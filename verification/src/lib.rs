//! A hexdump engine: renders a byte stream as fixed-width lines, each with an
//! offset prefix, a hexadecimal section padded to a fixed width, and an ASCII
//! gutter in which non-printable bytes are shown as a replacement character.

pub mod config;
pub mod render;
pub mod dump;
pub mod cli;
