//! What can go wrong reading the music or its collection file.

use crate::path::FsPath;
use crate::path::path_text;
use crate::text;
use vstd::prelude::*;

verus! {

/// What can go wrong reading the music or its collection file.
#[derive(Debug)]
pub enum Error {
    /// The platform reports no application data directory.
    NoDataDirectory,
    /// The collection file could not be read, parsed, or written.
    File {
        /// The collection file.
        path: FsPath,
        /// What went wrong.
        message: String,
    },
    /// The collection file was written by a later version.
    UnsupportedVersion {
        /// The collection file.
        path: FsPath,
        /// The version found in the file.
        version: u64,
    },
    /// The directory to play is not below the root.
    OutsideRoot {
        /// The directory that was requested.
        path: FsPath,
        /// The root the music lives below.
        root: FsPath,
    },
    /// The path to play is not a directory.
    NotADirectory {
        /// The path that was requested.
        path: FsPath,
    },
    /// The directory could not be walked.
    Unreadable {
        /// The directory that was searched.
        path: FsPath,
        /// What went wrong.
        message: String,
    },
}

impl Error {
    /// The text `to_string` gives.
    pub open spec fn text_spec(&self) -> Seq<char> {
        match self {
            Error::NoDataDirectory => "this platform has no application data directory: pass a state file explicitly"@,
            Error::File { path, message } => "the state file `"@ + path_text(path@)
                + "` could not be used: "@ + message@,
            Error::UnsupportedVersion { path, version } => "the state file `"@ + path_text(path@)
                + "` has unsupported version "@ + text::decimal_text(*version as nat),
            Error::OutsideRoot { path, root } => "`"@ + path_text(path@) + "` is not below `"@
                + path_text(root@) + "`: pass --root to play music kept somewhere else"@,
            Error::NotADirectory { path } => "`"@ + path_text(path@) + "` is not a directory"@,
            Error::Unreadable { path, message } => "`"@ + path_text(path@) + "` could not be read: "@
                + message@,
        }
    }

    /// What the error says.
    pub fn to_string(&self) -> (s: String)
        ensures
            s@ == self.text_spec(),
    {
        let mut s = String::new();
        match self {
            Error::NoDataDirectory => {
                text::append(
                    &mut s,
                    "this platform has no application data directory: pass a state file explicitly",
                );
            },
            Error::File { path, message } => {
                text::append(&mut s, "the state file `");
                let shown = path.to_string();
                text::append(&mut s, shown.as_str());
                text::append(&mut s, "` could not be used: ");
                text::append(&mut s, message.as_str());
            },
            Error::UnsupportedVersion { path, version } => {
                text::append(&mut s, "the state file `");
                let shown = path.to_string();
                text::append(&mut s, shown.as_str());
                text::append(&mut s, "` has unsupported version ");
                text::append_decimal(&mut s, *version);
            },
            Error::OutsideRoot { path, root } => {
                text::append(&mut s, "`");
                let shown = path.to_string();
                text::append(&mut s, shown.as_str());
                text::append(&mut s, "` is not below `");
                let shown_root = root.to_string();
                text::append(&mut s, shown_root.as_str());
                text::append(&mut s, "`: pass --root to play music kept somewhere else");
            },
            Error::NotADirectory { path } => {
                text::append(&mut s, "`");
                let shown = path.to_string();
                text::append(&mut s, shown.as_str());
                text::append(&mut s, "` is not a directory");
            },
            Error::Unreadable { path, message } => {
                text::append(&mut s, "`");
                let shown = path.to_string();
                text::append(&mut s, shown.as_str());
                text::append(&mut s, "` could not be read: ");
                text::append(&mut s, message.as_str());
            },
        }
        s
    }
}

} // verus!
