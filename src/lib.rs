//! A daily-notes store: today's notes as one timestamped text, kept either
//! as one text per day or as discrete entries, with a cache of today's text.
pub mod cache;
pub mod clock;
pub mod entry;
pub mod format;
pub mod laws;
pub mod store;
pub mod table;
pub mod text;
