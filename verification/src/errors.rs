//! Typed failures of the bookmark operations. The dispatcher is the only
//! place that turns one of these into a process exit.

use vstd::prelude::*;
use vstd::string::*;

verus! {

/// A failure of a bookmark-store, alias or configuration operation,
/// with the context a user-facing diagnostic needs.
#[derive(Debug)]
pub enum BmarkError {
    /// `add` was asked for a name that is already in the table.
    DuplicateName(String),
    /// `remove` was asked for a name that is not in the table.
    NotFound(String),
    /// The bookmark store file could not be opened or read; carries
    /// the file's path.
    StoreUnreadable(String),
    /// The bookmark store file does not parse.
    StoreCorrupt,
    /// A bookmark name must be non-empty.
    InvalidName,
    /// No data directory could be determined.
    DataDirUnresolvable,
    /// The picker returned no selection.
    NoChoice,
    /// The picker returned a line the display format cannot explain.
    UnparseableChoice,
}

impl BmarkError {
    /// The diagnostic text for this failure.
    pub open spec fn spec_message(&self) -> Seq<char> {
        match self {
            BmarkError::DuplicateName(n) => "A bookmark with the name '"@ + n@
                + "' already exists."@,
            BmarkError::NotFound(n) => "ERROR: could not find bookmark `"@ + n@ + "`."@,
            BmarkError::StoreUnreadable(f) => "ERROR: could not open bookmarks file: `"@ + f@
                + "`"@,
            BmarkError::StoreCorrupt => "ERROR: Could not parse bookmarks file."@,
            BmarkError::InvalidName => "ERROR: Bookmark names must be non-empty."@,
            BmarkError::DataDirUnresolvable => "ERROR: Could not determine data directory."@,
            BmarkError::NoChoice => "No bookmark chosen."@,
            BmarkError::UnparseableChoice => "ERROR: Could not parse chosen bookmark line."@,
        }
    }

    /// Renders the diagnostic text.
    pub fn message(&self) -> (r: String)
        ensures
            r@ == self.spec_message(),
    {
        match self {
            BmarkError::DuplicateName(n) => {
                let r = "A bookmark with the name '".to_owned().concat(n.as_str()).concat(
                    "' already exists.",
                );
                proof {
                    assert(r@ =~= self.spec_message());
                }
                r
            },
            BmarkError::NotFound(n) => {
                let r = "ERROR: could not find bookmark `".to_owned().concat(n.as_str()).concat(
                    "`.",
                );
                proof {
                    assert(r@ =~= self.spec_message());
                }
                r
            },
            BmarkError::StoreUnreadable(f) => {
                let r = "ERROR: could not open bookmarks file: `".to_owned().concat(
                    f.as_str(),
                ).concat("`");
                proof {
                    assert(r@ =~= self.spec_message());
                }
                r
            },
            BmarkError::StoreCorrupt => "ERROR: Could not parse bookmarks file.".to_owned(),
            BmarkError::InvalidName => "ERROR: Bookmark names must be non-empty.".to_owned(),
            BmarkError::DataDirUnresolvable => {
                "ERROR: Could not determine data directory.".to_owned()
            },
            BmarkError::NoChoice => "No bookmark chosen.".to_owned(),
            BmarkError::UnparseableChoice => {
                "ERROR: Could not parse chosen bookmark line.".to_owned()
            },
        }
    }
}

} // verus!
