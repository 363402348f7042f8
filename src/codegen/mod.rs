//! Code generation: the cursor, the emitter, the export database, the
//! orchestrator of passes and the pool of files.
pub mod cursor;
pub mod emitter;
pub mod names;
pub mod orchestrator;
pub mod export_database;
pub mod file_pool;
pub mod file_defs_buf;
