use vstd::prelude::*;
use vstd::string::StringExecFns;
use crate::bookmark::{Bookmark, names_view};
use crate::model::BookmarkRow;
use crate::store::{DB, DbError};

verus! {

/// `p` occurs in `s` as a contiguous run of characters.
pub open spec fn has_substring(s: Seq<char>, p: Seq<char>) -> bool {
    exists|i: int| 0 <= i && i + p.len() <= s.len() && #[trigger] s.subrange(i, i + p.len()) == p
}

/// Some pattern occurs in `s`.
pub open spec fn text_hit(s: Seq<char>, pats: Seq<Seq<char>>) -> bool {
    exists|p: int| 0 <= p < pats.len() && has_substring(s, #[trigger] pats[p])
}

/// Some pattern occurs in some tag name.
pub open spec fn tag_hit(tags: Seq<Seq<char>>, pats: Seq<Seq<char>>) -> bool {
    exists|t: int| 0 <= t < tags.len() && text_hit(#[trigger] tags[t], pats)
}

/// One searched text: a tag name, the title and the url, joined with no
/// separator. A pattern may therefore match across the border of two of
/// them.
pub open spec fn search_text(tag: Seq<char>, title: Seq<char>, url: Seq<char>) -> Seq<char> {
    tag + title + url
}

/// A free-text match: some pattern occurs in the title and url joined, or in
/// one tag name joined with the title and url. Each tag is tried on its own,
/// and a bookmark without tags is still searched through its title and url.
pub open spec fn text_row_hit(
    tags: Seq<Seq<char>>,
    title: Seq<char>,
    url: Seq<char>,
    pats: Seq<Seq<char>>,
) -> bool {
    text_hit(search_text(Seq::<char>::empty(), title, url), pats) || exists|t: int|
        0 <= t < tags.len() && text_hit(search_text(#[trigger] tags[t], title, url), pats)
}

pub open spec fn strs_view(v: Seq<&str>) -> Seq<Seq<char>> {
    v.map_values(|s: &str| s@)
}

/// Relies on str::contains: true exactly when `pattern` occurs in `s` as a
/// contiguous run.
#[verifier::external_body]
fn str_contains(s: &str, pattern: &str) -> (r: bool)
    ensures
        r == has_substring(s@, pattern@),
{
    s.contains(pattern)
}

/// Whether some pattern occurs in `s`.
pub fn any_match(s: &str, pats: &Vec<String>) -> (r: bool)
    ensures
        r == text_hit(s@, names_view(pats@)),
{
    let ghost pv = names_view(pats@);
    let mut p: usize = 0;
    while p < pats.len()
        invariant
            p <= pats.len(),
            pv == names_view(pats@),
            forall|q: int| 0 <= q < p ==> !has_substring(s@, #[trigger] pv[q]),
        decreases pats.len() - p,
    {
        if str_contains(s, pats[p].as_str()) {
            assert(has_substring(s@, pv[p as int]));
            return true;
        }
        p = p + 1;
    }
    false
}

/// Whether some pattern occurs in some tag name.
pub fn tag_match(tags: &Vec<String>, pats: &Vec<String>) -> (r: bool)
    ensures
        r == tag_hit(names_view(tags@), names_view(pats@)),
{
    let ghost tv = names_view(tags@);
    let mut t: usize = 0;
    while t < tags.len()
        invariant
            t <= tags.len(),
            tv == names_view(tags@),
            forall|q: int| 0 <= q < t ==> !text_hit(#[trigger] tv[q], names_view(pats@)),
        decreases tags.len() - t,
    {
        if any_match(tags[t].as_str(), pats) {
            assert(text_hit(tv[t as int], names_view(pats@)));
            return true;
        }
        t = t + 1;
    }
    false
}

/// One tag name, the title and the url joined into one string.
pub fn joined_text(tag: &str, title: &String, url: &String) -> (r: String)
    ensures
        r@ == search_text(tag@, title@, url@),
{
    let mut r = String::from_str(tag);
    r.append(title.as_str());
    r.append(url.as_str());
    r
}

/// Whether some pattern occurs in the title and url joined, or in one tag
/// name joined with the title and url.
pub fn text_match(tags: &Vec<String>, title: &String, url: &String, pats: &Vec<String>) -> (r:
    bool)
    ensures
        r == text_row_hit(names_view(tags@), title@, url@, names_view(pats@)),
{
    let ghost tv = names_view(tags@);
    let base = joined_text("", title, url);
    proof {
        reveal_strlit("");
        assert(Seq::<char>::empty() + title@ + url@ == base@);
    }
    if any_match(base.as_str(), pats) {
        return true;
    }
    let mut t: usize = 0;
    while t < tags.len()
        invariant
            t <= tags.len(),
            tv == names_view(tags@),
            forall|q: int|
                0 <= q < t ==> !text_hit(search_text(#[trigger] tv[q], title@, url@), names_view(pats@)),
        decreases tags.len() - t,
    {
        let text = joined_text(tags[t].as_str(), title, url);
        if any_match(text.as_str(), pats) {
            assert(text_hit(search_text(tv[t as int], title@, url@), names_view(pats@)));
            return true;
        }
        t = t + 1;
    }
    false
}

impl DB {
    /// The bookmark row matches the patterns: through a tag name, or through
    /// its title, url and each tag name (see `text_row_hit`) when `by_text`
    /// holds.
    pub open spec fn row_matches(&self, r: BookmarkRow, pats: Seq<Seq<char>>, by_text: bool) -> bool {
        if by_text {
            text_row_hit(self.tags_of(r.id), r.title@, r.url@, pats)
        } else {
            tag_hit(self.tags_of(r.id), pats)
        }
    }

    /// The rows that match, in their order.
    pub open spec fn selected(&self, rows: Seq<BookmarkRow>, pats: Seq<Seq<char>>, by_text: bool) -> Seq<BookmarkRow>
        decreases rows.len(),
    {
        if rows.len() == 0 {
            rows
        } else {
            let rest = self.selected(rows.drop_last(), pats, by_text);
            if self.row_matches(rows.last(), pats, by_text) {
                rest.push(rows.last())
            } else {
                rest
            }
        }
    }

    /// Every stored bookmark that matches, in ascending id order, each once.
    fn collect(&self, pats: &Vec<String>, by_text: bool) -> (r: Vec<Bookmark>)
        requires
            self.wf(),
        ensures
            r@.len() == self.selected(self.spec_rows(), names_view(pats@), by_text).len(),
            forall|i: int| 0 <= i < r@.len() ==> self.shows(#[trigger] r@[i], self.selected(self.spec_rows(), names_view(pats@), by_text)[i]),
    {
        let ghost pv = names_view(pats@);
        let all = self.get_all_bookmarks();
        let mut r: Vec<Bookmark> = Vec::new();
        let mut i: usize = 0;
        while i < all.len()
            invariant
                self.wf(),
                i <= all.len(),
                pv == names_view(pats@),
                all@.len() == self.spec_rows().len(),
                forall|j: int| 0 <= j < all@.len() ==> self.shows(#[trigger] all@[j], self.spec_rows()[j]),
                r@.len() == self.selected(self.spec_rows().take(i as int), pv, by_text).len(),
                forall|j: int| 0 <= j < r@.len() ==> self.shows(#[trigger] r@[j], self.selected(self.spec_rows().take(i as int), pv, by_text)[j]),
            decreases all.len() - i,
        {
            let ghost rows = self.spec_rows();
            proof {
                let t = rows.take(i as int + 1);
                assert(t.drop_last() =~= rows.take(i as int));
                assert(t.last() == rows[i as int]);
                assert(self.shows(all@[i as int], rows[i as int]));
            }
            let b = &all[i];
            let hit = if by_text {
                text_match(&b.tags, &b.title, &b.url, pats)
            } else {
                tag_match(&b.tags, pats)
            };
            if hit {
                let c = Bookmark::new(
                    b.id,
                    b.title.clone(),
                    b.url.clone(),
                    b.notes.clone(),
                    b.tags.clone(),
                    b.date_added.clone(),
                );
                r.push(c);
            }
            i = i + 1;
        }
        proof {
            assert(self.spec_rows().take(all.len() as int) =~= self.spec_rows());
        }
        r
    }

    /// Every bookmark with a tag name that contains one of the patterns
    /// (case-sensitive), in ascending id order, each once. An empty pattern
    /// list gives `NoSearchTerms`.
    pub fn search_by_tag(&self, tags: Vec<&str>) -> (r: Result<Vec<Bookmark>, DbError>)
        requires
            self.wf(),
        ensures
            tags@.len() == 0 <==> r == Err::<Vec<Bookmark>, DbError>(DbError::NoSearchTerms),
            tags@.len() > 0 ==> r is Ok,
            r is Ok ==> {
                let sel = self.selected(self.spec_rows(), strs_view(tags@), false);
                &&& r->Ok_0@.len() == sel.len()
                &&& forall|i: int| 0 <= i < sel.len() ==> self.shows(#[trigger] r->Ok_0@[i], sel[i])
            },
    {
        if tags.len() == 0 {
            return Err(DbError::NoSearchTerms);
        }
        let mut pats: Vec<String> = Vec::new();
        let mut i: usize = 0;
        while i < tags.len()
            invariant
                i <= tags.len(),
                names_view(pats@) == strs_view(tags@).take(i as int),
            decreases tags.len() - i,
        {
            let ghost p0 = pats@;
            pats.push(String::from_str(tags[i]));
            proof {
                assert(names_view(pats@) =~= names_view(p0).push(tags@[i as int]@));
                assert(strs_view(tags@).take(i as int + 1) =~= strs_view(tags@).take(i as int).push(tags@[i as int]@));
            }
            i = i + 1;
        }
        proof {
            assert(strs_view(tags@).take(tags.len() as int) =~= strs_view(tags@));
        }
        Ok(self.collect(&pats, false))
    }

    /// Every bookmark where one of the patterns occurs in the title and url
    /// joined, or in one tag name joined with the title and url (case-sensitive), in ascending id order,
    /// each once. An empty pattern list gives `NoSearchTerms`.
    pub fn search(&self, search_list: Vec<String>) -> (r: Result<Vec<Bookmark>, DbError>)
        requires
            self.wf(),
        ensures
            search_list@.len() == 0 <==> r == Err::<Vec<Bookmark>, DbError>(DbError::NoSearchTerms),
            search_list@.len() > 0 ==> r is Ok,
            r is Ok ==> {
                let sel = self.selected(self.spec_rows(), names_view(search_list@), true);
                &&& r->Ok_0@.len() == sel.len()
                &&& forall|i: int| 0 <= i < sel.len() ==> self.shows(#[trigger] r->Ok_0@[i], sel[i])
            },
    {
        if search_list.len() == 0 {
            return Err(DbError::NoSearchTerms);
        }
        Ok(self.collect(&search_list, true))
    }
}

} // verus!
