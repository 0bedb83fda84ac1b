//! Read-only access to a "romdir" archive: a firmware-style blob holding a
//! table of named byte ranges, exposed through filesystem-like operations.
//!
//! `romdir` decodes the binary table and serves bounded reads of the entries;
//! `romdirfs` maps inode-based filesystem operations (lookup, attributes,
//! read, directory listing) onto a decoded archive.

pub mod romdir;
pub mod romdirfs;
