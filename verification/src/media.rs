//! Media-type detection by file-extension sniffing, as an outside guesser
//! provides it.

use vstd::prelude::*;

verus! {

/// The media type guessed from a path, as its lowercase `type/subtype`
/// essence, or nothing when no type is known for the path's extension. The
/// guess is a fixed function of the path text alone.
pub uninterp spec fn guessed_media_type(path: Seq<char>) -> Option<Seq<char>>;

/// Relies on mime_guess's `from_path` (a guess from the path's extension
/// alone) and mime's `essence_str` (the `type/subtype` part of the guessed
/// type) to name a file's media type.
#[verifier::external_body]
pub fn guess_media_type(path: &str) -> (r: Option<String>)
    ensures
        match r {
            Some(m) => guessed_media_type(path@) == Some(m@),
            None => guessed_media_type(path@) is None,
        },
{
    mime_guess::from_path(std::path::Path::new(path)).first().map(|m| m.essence_str().to_owned())
}

} // verus!
