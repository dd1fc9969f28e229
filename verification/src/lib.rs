//! Extraction of bot-directed commands from webhook comment text.
//!
//! The parser scans comment text for lines of the form `@<bot> <command> <args>`
//! and returns one record per recognized line; guard checks reject events whose
//! author is itself a bot, whose action is a deletion, or whose author lacks
//! sufficient repository permission.

pub mod guards;
pub mod parser;
