//! Packs a file or a flat directory of files into a deflate-compressed zip
//! archive held in memory, and turns such an archive back into a plan of
//! directory and file steps under a destination root.
pub mod codec;
pub mod laws;
pub mod names;
pub mod pack;
pub mod unpack;
pub mod model;
