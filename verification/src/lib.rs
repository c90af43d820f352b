//! Remote unit-test execution support for Picodata plugins.
//!
//! The crate covers the pieces that carry a test outcome between two
//! processes: a codec that turns a panic report into a single line of
//! printable text and back, a supervision registry that routes captured
//! panics to the right fiber, the building of the Lua call script, the
//! scraping of the console output that comes back, and the parsing of
//! plugin migration files.

pub mod b64;
pub mod client;
pub mod codec;
pub mod internal;
pub mod migration;
pub mod runner;
pub mod strutil;
pub mod supervision;
