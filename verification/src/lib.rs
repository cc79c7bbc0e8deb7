pub mod cache;
pub mod casing;
pub mod checker;
pub mod commands;
pub mod fragmentizer;
pub mod glyph;
pub mod pieces;
pub mod processor;
pub mod rope;
pub mod sentence;
pub mod span;
pub mod syntax;
pub mod utf8;
