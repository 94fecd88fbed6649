//! Reading a process's per-mapping memory report and comparing two snapshots of it.
//!
//! - `parse` turns the report's text into records (`memory_map::MemoryMap`);
//! - `diff` classifies the mappings of two snapshots as added, removed or changed;
//! - `resident` reads the resident total from the process's memory status line;
//! - `text` holds the character-level scanning and number reading they share.
pub mod memory_map;
pub mod text;
pub mod parse;
pub mod diff;
pub mod resident;
