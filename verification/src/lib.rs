//! Verified editor core for a delimiter-segmented binary move container.
//!
//! The container format is `<header> <delimiter> { <4*k record bytes> <delimiter> }*`
//! where the delimiter is the 4-byte sentinel `FF FF FF FF` and each record is a
//! little-endian 16-bit move id followed by a little-endian 16-bit level.
//!
//! `file` holds the codec: scanning for the delimiter, decoding and encoding
//! records, parsing a byte buffer into a [`file::SaveFile`], serializing it back,
//! and the order-preserving mutations on a single species' move list.
//! `app` holds the interactive selection state that a front end drives.

pub mod app;
pub mod file;
