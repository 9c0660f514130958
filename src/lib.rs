//! Reading and writing UNIX-style hosts files.
//!
//! A hosts file is split into lines; blank lines and lines whose first
//! non-blank character is `#` are skipped, and every other line holds one
//! IP address followed by one or more hostnames. The parser works on bytes
//! and is specified over byte sequences; the serializer renders a document
//! back to canonical text.
pub mod text;
pub mod shape;
pub mod address;
pub mod entry;
pub mod document;
pub mod laws;


pub use document::{parse_hosts_buffer, HostFile};
pub use entry::{parse_line, HostEntry, ParseError};
