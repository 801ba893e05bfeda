//! Praat TextGrid annotation documents: a time-consistent data model, a
//! validator, an edit engine with bounded undo/redo, and codecs for the
//! long text, short text and binary formats.

pub mod time;
pub mod model;
pub mod grid;
pub mod validate;
pub mod words;
pub mod lines;
pub mod text_read;
pub mod text_write;
pub mod binary;
pub mod text_round_trip;

pub use binary::{BinaryGrid, BinaryInterval, BinaryPoint, BinaryTier, decode_binary, encode_binary};
pub use grid::{HISTORY_CAPACITY, TextGrid};
pub use lines::{extract_quoted_value, extract_quoted_value_short};
pub use model::{Interval, Point, TextGridError, Tier, TierType};
pub use text_read::parse_textgrid;
pub use text_write::{write_long_format, write_short_format, write_textgrid};
pub use time::Time;
pub use validate::validate_textgrid;
