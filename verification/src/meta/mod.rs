//! The identifiers and XML files of an injected title.

pub mod appxml;
pub mod metaxml;
pub mod titleid;
pub mod xml;
