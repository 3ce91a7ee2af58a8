//! Lifepath records for a life-path character creation system: reading them
//! from JSON, ordering them into settings, indexing them and rendering them.
pub mod json;
pub mod lifepaths;
pub mod lp_parser;
pub mod text;
