//! Verified core of a syslog viewer: tailing rotated, append-only log files,
//! parsing their lines, storing them in a chunked, bidirectionally indexable
//! store, filtering them by tag with a cached skip-link iterator, and merging
//! several logs into one chronologically ordered stream.

pub mod bytes;
pub mod content;
pub mod filter;
pub mod hub;
pub mod line;
pub mod reader;
pub mod rotated;
pub mod search;
pub mod tags;
pub mod watcher;
