//! Synchronisation of per-locale translation files: the document model, the
//! dotted key-path codec, key enumeration, lookup, update and validation.

pub mod document;
pub mod keypath;
pub mod error;
pub mod access;
pub mod validate;
pub mod json;
pub mod resolve;
pub mod cli;
pub mod config;
pub mod files;
pub mod commands;
