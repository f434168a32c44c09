//! An incremental compiler from utility class names to CSS.
//!
//! A class token such as `md:hover:mt-4` is resolved against a style
//! vocabulary into one CSS rule; a registry counts, over all tracked files,
//! which classes are in use; and the stylesheet is rendered from the classes
//! that at least one file references.

pub mod cache;
pub mod classes;
pub mod decimal;
pub mod engine;
pub mod generator;
pub mod registry;
pub mod resolve;
pub mod string_map;
pub mod text;
pub mod vocabulary;
pub mod watcher;
