//! A file archiver that looks for channels and rows in its input, replaces bytes by their
//! differences from a prediction, and compresses what is left with Zstandard.
//!
//! * `entropy`: byte histograms and entropy readings.
//! * `predict`: the one- and two-dimensional prediction filters.
//! * `channels`: splitting data into interleaved channels and merging them again.
//! * `layout`: finding the number of channels and the length of a row.
//! * `optimize`: choosing an engine for a file, applying it, and undoing it.
//! * `codec`: the calls into Zstandard and into the UTF-8 decoder.
//! * `little_endian`: the numbers of the archive format.
//! * `archive`: packing files into an archive and unpacking them.

pub mod archive;
pub mod channels;
pub mod codec;
pub mod entropy;
pub mod layout;
pub mod little_endian;
pub mod optimize;
pub mod predict;
