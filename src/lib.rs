//! A memcache-compatible key/value store: the cache engine, the text protocol's framing and
//! parsing, reply encoding, and the glue that answers a command from the cache.
pub mod cmd;
pub mod dispatch;
pub mod reply;
pub mod storage;
pub mod transport;
