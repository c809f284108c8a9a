//! Verified core of a project-scaffolding tool.
//!
//! A template tree contains branded placeholders: a fixed sentinel token
//! combined with a variable fragment, written in one of nine casing
//! families.  This crate recognizes those placeholders, reduces each
//! fragment to a canonical name, and substitutes caller-supplied values
//! while preserving the casing family of every occurrence.
//!
//! Text is handled as bytes.  The placeholder grammar is pure ASCII, so
//! scanning and substitution never split a multi-byte encoded character:
//! bytes outside the ASCII range are never part of a match and are copied
//! through unchanged.  All file and network I/O stays outside this crate;
//! callers hand in byte strings and directory listings and receive byte
//! strings and decisions back.

pub mod cases;
pub mod config;
pub mod engine;
pub mod generator;
pub mod resolver;
pub mod template;
pub mod utils;
