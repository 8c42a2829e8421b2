//! The editing core of a terminal text editor: a line-oriented text buffer
//! with grapheme-accurate addressing, an incremental per-line syntax
//! tokenizer, selection tracking with interval merging, and a command-based
//! undo/redo engine with a bounded history.

pub mod commands;
pub mod document;
pub mod filetype;
pub mod graphemes;
pub mod highlighting;
pub mod laws;
pub mod position;
pub mod row;

pub use commands::delete_chars_at;
pub use commands::insert_string_at;
pub use commands::Command;
pub use commands::CommandGroup;
pub use commands::CommandType;
pub use commands::CopyCommand;
pub use commands::DeleteCommand;
pub use commands::History;
pub use commands::InsertCommand;
pub use commands::PasteCommand;
pub use document::Document;
pub use filetype::FileType;
pub use filetype::HighlightingOptions;
pub use highlighting::Type;
pub use position::Position;
pub use position::SearchDirection;
pub use position::Selection;
pub use row::Row;
