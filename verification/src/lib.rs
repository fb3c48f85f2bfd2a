//! Building installable Wii U Virtual Console packages out of Wii and GameCube discs.
//!
//! The library holds the rules: how a disc becomes an NFS image, how staged files become
//! contents, hash trees, a file system table and title metadata, and how a title is read
//! back. Reading and writing files, the network and the disc containers stay with the
//! caller, which hands in plain values and performs what the library decides.

pub mod aes_cbc;
pub mod assets;
pub mod base;
pub mod cli;
pub mod consts;
pub mod digest;
pub mod disc_patch;
pub mod error;
pub mod fwimg;
pub mod input;
pub mod io;
pub mod keys;
pub mod messages;
pub mod meta;
pub mod nfs;
pub mod nincfg;
pub mod nus;
pub mod package;
pub mod pipeline;
pub mod text;
pub mod util;
pub mod video;
