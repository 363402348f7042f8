//! A declarative source-patching engine for a modded game's script files.
//!
//! Mods ship recipes that say where a snippet goes in an existing script, or
//! which text it replaces. A build parses every recipe ([`parser`]), lends
//! exported locators to the directives that use them
//! ([`codegen::export_database`]), runs the directives wave by wave as the
//! names their guards test become defined ([`codegen::orchestrator`],
//! [`codegen::file_pool`]), and splices each snippet where the cursor leads
//! ([`codegen::cursor`], [`codegen::emitter`]).
//!
//! Text is handled as characters: positions and lengths count characters.
pub mod codegen;
pub mod encoding;
pub mod game;
pub mod parser;
pub mod text;
