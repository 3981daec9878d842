//! Playthrough hinter: reads an Archipelago spoiler log, finds the items of
//! the playthrough that nobody has collected or been hinted yet, and keeps a
//! small text file of the hints already given.
pub mod types;
pub mod text;
pub mod parser;
pub mod parser_laws;
pub mod hint_generator;
pub mod hint_laws;
