//! A little fail-safe filesystem for microcontroller flash, with its
//! on-disk encodings, block-device caching and block allocation proved
//! correct with Verus.

pub mod defines;
pub mod util;
pub mod tag;
pub mod pair;
pub mod bd;
pub mod fs;
pub mod allocator;
pub mod ctz;
pub mod path;
pub mod lfs1;
pub mod commit;
pub mod mdir;
pub mod file;
pub mod cache1;
pub mod write;
pub mod flush;
pub mod fileops;
