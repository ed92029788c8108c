//! Dependency-free handling of DEFLATE streams and zip archives, together with
//! the small platform-independent pieces of the cacti utilities.

pub mod bits;
pub mod error;
pub mod bit_reader;
pub mod huffman;
pub mod window;
pub mod inflate_spec;
pub mod inflate;
pub mod deflate;
pub mod text;
pub mod crc32;
pub mod zip_spec;
pub mod zip;
pub mod display;
pub mod dyn_lib;
pub mod naming;
pub mod hot_reload;
pub mod watch;
pub mod temp;
