//! A music player for a directory of files, with a shuffle that adapts to what
//! the listener skips and plays through.

pub mod app;
pub mod backend;
pub mod catalog;
pub mod cli;
pub mod collection;
pub mod debug;
pub mod encoding;
pub mod error;
pub mod explain;
pub mod filesystem;
pub mod formats;
pub mod history;
pub mod json;
pub mod library;
pub mod mpv;
pub mod offer;
pub mod path;
pub mod player;
pub mod rating;
pub mod selection;
pub mod text;
pub mod time;
pub mod track;
pub mod ui;
pub mod track_events;

pub use time::Duration;
pub use time::Time;
pub use track::TrackId;
pub use track::TrackIds;
pub use track::TrackName;
pub use track::TrackNames;
pub use history::History;
pub use library::Library;
