//! Configuration-driven backups: which files a set of configured paths
//! leads to, under which names they enter a ZIP archive, and how the
//! archive file itself is named.

pub mod archive;
pub mod config;
pub mod crawl;
pub mod name;
pub mod resolve;
pub mod run;
