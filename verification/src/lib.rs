//! Storage of versioned pages in snapshot files, and a registry of connections.
//!
//! A snapshot file holds all versions of the pages of one segment of a relish in a
//! range of log positions. The library reads and writes such files in memory, and
//! finds in them what is needed to make a page as it was at a position:
//!
//! - `relish`, `lsn`, `ids`, `conf`: what is stored, and where;
//! - `text`, `file_name`: the names of the files;
//! - `ordered_map`, `page`, `wire`, `codec`, `book`: the contents of the files;
//! - `lookup`, `dump`, `error`, `snapshot_layer`: the layers that stand for files.
//!
//! `connection_registry` keeps track of connections by timeline.
pub mod book;
pub mod codec;
pub mod conf;
pub mod connection_registry;
pub mod dump;
pub mod error;
pub mod file_name;
pub mod ids;
pub mod lookup;
pub mod lsn;
pub mod ordered_map;
pub mod page;
pub mod relish;
pub mod snapshot_layer;
pub mod text;
pub mod wire;
