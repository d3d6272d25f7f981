//! Verified core of the rnote file formats and stroke styles.
pub mod color;
pub mod error;
pub mod text;
pub mod xml;
pub mod xopp;
pub mod file;
pub mod textured;
