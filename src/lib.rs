//! A network service's core: named, layered Bloom filters that count how often
//! a key was seen, their page-tracked bitmaps, their INI persistence, and the
//! line protocol that drives them.

pub mod bitmap;
pub mod bloom;
pub mod config;
pub mod decimal;
pub mod filter;
pub mod hash;
pub mod inifile;
pub mod lbf;
pub mod server;
pub mod text;
pub mod wrappers;
