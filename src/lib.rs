//! Reading and writing karaoke song files: a block of `#TAG:value` header
//! lines followed by a stream of timed lyric notes and an `E` terminator.
pub mod note;
pub mod round_trip;
pub mod song;
pub mod text;

pub use note::{Note, NoteError, NoteField, NoteType, NoteView};
pub use song::{Bpm, Song, SongError, TagField};
