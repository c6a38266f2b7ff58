//! The encoding engine and its parts.

pub mod archive;
pub mod bitbuf;
pub mod decoding;
pub mod dictionary;
pub mod packer;
pub mod theory;
pub mod width;
