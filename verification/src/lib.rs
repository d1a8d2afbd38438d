//! A personal journal store: free-text entries keyed by minute-resolution
//! timestamps, an inline hashtag grammar, and a tag index kept consistent
//! with the stored entries.

pub mod diary;
pub mod entryinput;
pub mod key;
pub mod laws;
pub mod listing;
pub mod tags;
pub mod text;
pub mod index;
pub mod store;
pub mod strutil;

pub use diary::{Diary, MatchingDateBehavior};
pub use key::DiaryEntryKey;
pub use index::TagIndex;
