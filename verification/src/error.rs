//! What can stop the player from running.

use crate::backend::BackendError;
use crate::filesystem;
use crate::path::FsPath;
use crate::path::path_text;
use crate::text;
use vstd::prelude::*;

verus! {

/// Anything that stops the player.
#[derive(Debug)]
pub enum Error {
    /// An argument that is not recognized.
    UnknownArgument {
        /// The argument as it was given.
        argument: String,
    },
    /// A flag that takes a value was given without one.
    MissingValue {
        /// The flag given without a value.
        flag: String,
    },
    /// A value that should have been a number was not.
    NotANumber {
        /// The value as it was given.
        value: String,
        /// The unit it was meant to count.
        unit: String,
    },
    /// Neither the command line nor the collection file says where the music
    /// is.
    NoDirectory,
    /// The directory holds no audio files.
    NoTracks {
        /// The directory that was searched.
        path: FsPath,
    },
    /// The music or its collection file could not be read or written.
    Filesystem(filesystem::Error),
    /// The terminal could not be driven.
    Terminal {
        /// What went wrong.
        message: String,
    },
    /// The audio backend is unusable.
    Backend {
        /// What went wrong.
        source: BackendError,
    },
}

impl Error {
    /// The text `to_string` gives.
    pub open spec fn text_spec(&self) -> Seq<char> {
        match self {
            Error::UnknownArgument { argument } => "unknown argument `"@ + argument@
                + "`: pass --help for what is understood"@,
            Error::MissingValue { flag } => "`"@ + flag@ + "` needs a directory after it"@,
            Error::NotANumber { value, unit } => "`"@ + value@ + "` is not a number of "@ + unit@,
            Error::NoDirectory => "nothing to play: pass a directory, or say where your music lives with --root"@,
            Error::NoTracks { path } => "`"@ + path_text(path@) + "` holds no audio files"@,
            Error::Filesystem(inner) => inner.text_spec(),
            Error::Terminal { message } => "the terminal could not be used: "@ + message@,
            Error::Backend { source } => source.message(),
        }
    }

    /// What the error says.
    pub fn to_string(&self) -> (s: String)
        ensures
            s@ == self.text_spec(),
    {
        match self {
            Error::UnknownArgument { argument } => {
                let mut s = String::new();
                text::append(&mut s, "unknown argument `");
                text::append(&mut s, argument.as_str());
                text::append(&mut s, "`: pass --help for what is understood");
                s
            },
            Error::MissingValue { flag } => {
                let mut s = String::new();
                text::append(&mut s, "`");
                text::append(&mut s, flag.as_str());
                text::append(&mut s, "` needs a directory after it");
                s
            },
            Error::NotANumber { value, unit } => {
                let mut s = String::new();
                text::append(&mut s, "`");
                text::append(&mut s, value.as_str());
                text::append(&mut s, "` is not a number of ");
                text::append(&mut s, unit.as_str());
                s
            },
            Error::NoDirectory => {
                let mut s = String::new();
                text::append(
                    &mut s,
                    "nothing to play: pass a directory, or say where your music lives with --root",
                );
                s
            },
            Error::NoTracks { path } => {
                let mut s = String::new();
                text::append(&mut s, "`");
                let shown = path.to_string();
                text::append(&mut s, shown.as_str());
                text::append(&mut s, "` holds no audio files");
                s
            },
            Error::Filesystem(inner) => inner.to_string(),
            Error::Terminal { message } => {
                let mut s = String::new();
                text::append(&mut s, "the terminal could not be used: ");
                text::append(&mut s, message.as_str());
                s
            },
            Error::Backend { source } => source.to_string(),
        }
    }
}

} // verus!
