//! Verified core of a small collection of cross-platform file utilities:
//! path arithmetic used to mirror a source tree, the rules that decide how an
//! existing destination file is treated, directory scanning, naming of
//! downloads and archives, and the texts that the tools report.

pub mod text;
pub mod path;
pub mod download;
pub mod listing;
pub mod copy;
pub mod serve;
pub mod peek;
pub mod wscat;
