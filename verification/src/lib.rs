//! Babel Player core: a time-synchronized, multi-language, word-level lyrics
//! data model, the structural editor that keeps its cross-referencing indices
//! consistent, the active-window resolver that maps a playback timestamp to
//! the currently active line, segment and highlighted translation words, and
//! the import/export adapters for the persisted document form.

pub mod codec;
pub mod editor;
pub mod segments;
pub mod words;
pub mod ids;
pub mod import;
pub mod lyrics;
pub mod player;
pub mod resolver;
pub mod timestamp;

pub use timestamp::Timestamp;
