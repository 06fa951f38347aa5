//! Finds subtitles for a media file: fingerprints the file, ranks catalog results
//! against a query, and drives the interactive narrowing to one file.
pub mod catalog;
pub mod emojis;
pub mod fingerprint;
pub mod grouping;
pub mod paths;
pub mod ranking;
pub mod selection;
pub mod scorer;
