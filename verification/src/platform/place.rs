//! Where the files of segments lie.

use crate::text::{add_text, text};
use vstd::prelude::*;

verus! {

/// Where a system keeps the files that processes share.
pub enum Place {
    /// The file system in memory of Linux.
    Linux,
    /// The directory for temporary files of Windows, with the separator at its
    /// end.
    Windows(String),
    /// The directory for temporary files of other systems.
    Other,
}

impl Place {
    /// The path of a file: `name` behind a prefix that depends on the place.
    pub open spec fn path_of(
        self,
        linux: Seq<char>,
        windows: Seq<char>,
        other: Seq<char>,
        name: Seq<char>,
    ) -> Seq<char> {
        match self {
            Place::Linux => linux + name,
            Place::Windows(dir) => dir@ + windows + name,
            Place::Other => other + name,
        }
    }

    /// The path of a file, computed.
    pub(crate) fn file(&self, linux: &str, windows: &str, other: &str, name: &str) -> (r: String)
        ensures
            r@ == self.path_of(linux@, windows@, other@, name@),
    {
        match self {
            Place::Linux => add_text(text(linux), name),
            Place::Windows(dir) => add_text(add_text(text(dir.as_str()), windows), name),
            Place::Other => add_text(text(other), name),
        }
    }
}

} // verus!
