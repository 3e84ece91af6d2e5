use vstd::prelude::*;

verus! {

/// A bookmark as callers see it: its stored row together with its tag names.
#[derive(Clone, Debug)]
pub struct Bookmark {
    pub id: u32,
    pub title: String,
    pub url: String,
    pub notes: String,
    pub tags: Vec<String>,
    pub date_added: String,
}

/// The text of each name, in order.
pub open spec fn names_view(v: Seq<String>) -> Seq<Seq<char>> {
    v.map_values(|s: String| s@)
}

impl Bookmark {
    pub fn new(
        id: u32,
        title: String,
        url: String,
        notes: String,
        tags: Vec<String>,
        date_added: String,
    ) -> (r: Self)
        ensures
            r.id == id,
            r.title == title,
            r.url == url,
            r.notes == notes,
            r.tags == tags,
            r.date_added == date_added,
    {
        Bookmark { id, title, url, notes, tags, date_added }
    }
}

} // verus!
