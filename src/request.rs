use vstd::prelude::*;

verus! {

/// One request of the command line, as a plain record.
pub enum Bookie {
    /// List every bookmark.
    Display {},
    /// Store a new bookmark.
    Add { url: String, title: String, notes: String, tags: Vec<String> },
    /// Delete the bookmark with this id, after confirmation.
    Delete { id: u32 },
    /// Editing a bookmark is not supported.
    Update {},
}

} // verus!
