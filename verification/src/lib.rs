//! An interactive code-symbol index: walks source files, extracts structural
//! symbols (functions, types, modules, ...) according to per-language rules,
//! and streams them to a fuzzy-selection front end while caching results per
//! file, keyed by modification time.
//!
//! The extraction engine, the cache, the output-line protocol and the
//! per-file scheduling decisions live here and are verified; process
//! orchestration (spawning the file enumerator and the selection front end,
//! threads, file I/O) lives outside the library.

pub mod assoc;
pub mod cache;
pub mod chars;
pub mod classify;
pub mod config;
pub mod extract;
pub mod parser;
pub mod protocol;
pub mod query;
pub mod scopes;
pub mod symbol;
pub mod text;
pub mod worker;
