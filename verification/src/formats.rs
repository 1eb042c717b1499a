//! The file extensions treated as audio.
//!
//! `SUPPORTED_EXTENSIONS` determines which files become tracks. It is not
//! checked against what a backend can decode, and the two may disagree in
//! either direction: a listed extension no backend can decode becomes a track
//! that fails when played, and an extension a backend supports but the list
//! omits is never discovered.

use crate::path::FsPath;
use crate::path::file_name_spec;
use crate::path::split_name;
use crate::path::split_file_name;
use crate::text;
use crate::text::ascii_lowercase;
use crate::track::TrackName;
use vstd::prelude::*;

verus! {

/// The file extensions treated as tracks, lowercase.
pub const SUPPORTED_EXTENSIONS: [&'static str; 16] = [
    "aac", "aif", "aiff", "alac", "ape", "flac", "m4a", "m4b", "mka", "mp3", "oga", "ogg", "opus",
    "wav", "wma", "wv",
];

/// The extension of the file a path names: what follows the last `.` of its
/// last component, unless that `.` begins it.
pub open spec fn extension_of(path: (bool, Seq<Seq<char>>)) -> Option<Seq<char>> {
    match file_name_spec(path) {
        Some(name) => split_name(name).1,
        None => None,
    }
}

/// Whether `extension` is one of the supported extensions.
pub open spec fn listed(extension: Seq<char>) -> bool {
    exists|i: int| 0 <= i < SUPPORTED_EXTENSIONS@.len() && (#[trigger] SUPPORTED_EXTENSIONS@[i])@ == extension
}

/// Whether a path names a file type treated as a track: its extension,
/// lowercased, is listed. Determined by extension alone; a file whose
/// contents do not match its extension is detected only when a backend tries
/// to play it.
pub fn is_supported(path: &FsPath) -> (supported: bool)
    ensures
        supported == match extension_of(path@) {
            Some(extension) => listed(ascii_lowercase(extension)),
            None => false,
        },
{
    let name = match path.file_name() {
        Some(name) => name,
        None => return false,
    };
    let (_, extension) = split_file_name(&name);
    let extension = match extension {
        Some(extension) => extension,
        None => return false,
    };
    let lower = text::string_of(&text::lowercase_chars(&text::chars_of(extension.as_str())));
    let mut i: usize = 0;
    while i < SUPPORTED_EXTENSIONS.len()
        invariant
            i <= SUPPORTED_EXTENSIONS@.len(),
            lower@ == ascii_lowercase(extension@),
            extension_of(path@) == Some(extension@),
            forall|k: int| 0 <= k < i ==> (#[trigger] SUPPORTED_EXTENSIONS@[k])@ != lower@,
        decreases SUPPORTED_EXTENSIONS.len() - i,
    {
        let listed_one = text::owned(SUPPORTED_EXTENSIONS[i]);
        if crate::path::same_text(&listed_one, &lower) {
            assert((SUPPORTED_EXTENSIONS@[i as int])@ == lower@);
            return true;
        }
        i = i + 1;
    }
    false
}

/// The name a track is shown under: its file name, without the extension.
pub fn display_name(path: &FsPath) -> (name: TrackName)
    ensures
        name@ == match file_name_spec(path@) {
            Some(file) => split_name(file).0,
            None => Seq::empty(),
        },
{
    match path.file_name() {
        Some(file) => {
            let (stem, _) = split_file_name(&file);
            TrackName::from_string(stem)
        },
        None => TrackName::from_string(String::new()),
    }
}

} // verus!
