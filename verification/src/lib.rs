//! Convert Kindle `My Clippings.txt` exports into Markdown.
//!
//! The library parses clippings, renders them as Markdown, plans the files of
//! an export, and makes the decisions of the command-line program. Reading and
//! writing files, the environment and argument parsing live in the program.

pub mod error;
pub mod text;
pub mod pattern;
pub mod clippings;
pub mod markdown;
pub mod paths;
pub mod export;
pub mod settings;
pub mod process;
pub mod cli;

pub use clippings::{KindleEntry, parse_kindle_clippings};
pub use export::{OutputLayout, OutputTarget, raw_destination_for_output, resolve_output_target};
pub use markdown::convert_to_markdown;
pub use paths::{HostPlatform, default_export_directory, default_pull_destination};
pub use process::{SortKey, process_entries, render_book_stats};
