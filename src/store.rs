use vstd::prelude::*;
use crate::bookmark::{Bookmark, names_view};
use crate::clock::local_timestamp;
use crate::model::{
    BookmarkRow, LinkRow, TagRow, add_new, url_index, loadable, tag_names, unique_names, dedup, drop_links, has_id, lemma_drop_links_from,
    lemma_add_new_contains, lemma_add_new_grows, lemma_drop_links_no_dup, lemma_drop_links_none,
    lemma_names_for_drop, has_link, has_url, lemma_names_for_contains,
    lemma_names_for_new_name, lemma_names_for_unlinked, names_for, next_id, row_is, valid_store,
};

verus! {

/// Conditions that the store reports instead of changing state.
#[derive(Clone, Copy, PartialEq, Eq, Structural, Debug)]
pub enum DbError {
    /// A bookmark with that url is already stored; nothing was added.
    DuplicateUrl,
    /// The id space of bookmarks or tags is used up; nothing was added.
    StoreFull,
    /// No bookmark is stored under the given url.
    NoSuchBookmark,
    /// A search was asked for with no pattern at all.
    NoSearchTerms,
    /// Loaded rows break one of the store's integrity rules.
    IntegrityViolation,
}

/// The bookmark catalogue: three relations kept under their integrity rules.
///
/// Bookmarks are kept in ascending id order, tags in creation order (tag `k`
/// has id `k + 1`), links in creation order. One handle serves one caller at
/// a time; sharing it needs outside synchronisation.
pub struct DB {
    bookmarks: Vec<BookmarkRow>,
    tags: Vec<String>,
    links: Vec<LinkRow>,
}

/// Where `name` stands among the first `upto` names, if it is there.
fn find_name(names: &Vec<String>, upto: usize, name: &String) -> (r: Option<usize>)
    requires
        upto <= names@.len(),
    ensures
        match r {
            Some(i) => i < upto && names@[i as int]@ == name@,
            None => forall|j: int| 0 <= j < upto ==> (#[trigger] names@[j])@ != name@,
        },
{
    let mut i: usize = 0;
    while i < upto
        invariant
            i <= upto <= names@.len(),
            forall|j: int| 0 <= j < i ==> (#[trigger] names@[j])@ != name@,
        decreases upto - i,
    {
        if names[i] == *name {
            return Some(i);
        }
        i = i + 1;
    }
    None
}

/// Where this url stands among the first `upto` rows, if it is there.
fn url_position(rows: &Vec<BookmarkRow>, upto: usize, url: &String) -> (r: Option<usize>)
    requires
        upto <= rows@.len(),
    ensures
        r is Some <==> has_url(rows@.take(upto as int), url@),
        r is Some ==> r->Some_0 < upto && rows@[r->Some_0 as int].url@ == url@,
{
    let ghost pre = rows@.take(upto as int);
    let mut i: usize = 0;
    while i < upto
        invariant
            i <= upto <= rows@.len(),
            pre == rows@.take(upto as int),
            forall|j: int| 0 <= j < i ==> (#[trigger] pre[j]).url@ != url@,
        decreases upto - i,
    {
        if rows[i].url == *url {
            assert(pre[i as int] == rows@[i as int]);
            return Some(i);
        }
        i = i + 1;
    }
    None
}

/// Whether one of the first `upto` links equals `l`.
fn link_in(links: &Vec<LinkRow>, upto: usize, l: LinkRow) -> (r: bool)
    requires
        upto <= links@.len(),
    ensures
        r == has_link(links@.take(upto as int), l.bookmark_id, l.tag_id),
{
    let ghost pre = links@.take(upto as int);
    let mut k: usize = 0;
    while k < upto
        invariant
            k <= upto <= links@.len(),
            pre == links@.take(upto as int),
            forall|m: int|
                0 <= m < k ==> !((#[trigger] pre[m]).bookmark_id == l.bookmark_id && pre[m].tag_id
                    == l.tag_id),
        decreases upto - k,
    {
        if links[k].bookmark_id == l.bookmark_id && links[k].tag_id == l.tag_id {
            assert(pre[k as int] == links@[k as int]);
            return true;
        }
        k = k + 1;
    }
    false
}

/// Whether a row has this id.
fn id_in(rows: &Vec<BookmarkRow>, id: u32) -> (r: bool)
    ensures
        r == has_id(rows@, id),
{
    let mut i: usize = 0;
    while i < rows.len()
        invariant
            i <= rows@.len(),
            forall|j: int| 0 <= j < i ==> (#[trigger] rows@[j]).id != id,
        decreases rows.len() - i,
    {
        if rows[i].id == id {
            return true;
        }
        i = i + 1;
    }
    false
}

/// `new` is `old` with one bookmark added under `id`: its row last, its tags
/// linked in order of first occurrence, every other bookmark's tags kept.
pub open spec fn adds(
    old: DB,
    new: DB,
    id: u32,
    title: Seq<char>,
    url: Seq<char>,
    notes: Seq<char>,
    tags: Seq<Seq<char>>,
) -> bool {
    &&& !has_url(old.spec_rows(), url)
    &&& id == next_id(old.spec_rows())
    &&& new.spec_rows().drop_last() == old.spec_rows()
    &&& new.spec_rows().len() == old.spec_rows().len() + 1
    &&& row_is(new.spec_rows().last(), id, title, url, notes, new.spec_rows().last().date_added@)
    &&& new.tags_of(id) == dedup(tags)
    &&& forall|c: u32| c != id ==> new.tags_of(c) == old.tags_of(c)
    &&& new.spec_tags() == add_new(old.spec_tags(), tags)
    &&& new.spec_links().len() == old.spec_links().len() + dedup(tags).len()
    &&& new.spec_links().subrange(0, old.spec_links().len() as int) == old.spec_links()
    &&& forall|k: int|
        old.spec_links().len() <= k < new.spec_links().len() ==> (#[trigger] new.spec_links()[k]).bookmark_id
            == id
}

impl DB {
    pub closed spec fn spec_rows(&self) -> Seq<BookmarkRow> {
        self.bookmarks@
    }

    pub closed spec fn spec_tags(&self) -> Seq<Seq<char>> {
        names_view(self.tags@)
    }

    pub closed spec fn spec_links(&self) -> Seq<LinkRow> {
        self.links@
    }

    pub open spec fn wf(&self) -> bool {
        valid_store(self.spec_rows(), self.spec_tags(), self.spec_links())
    }

    /// The tag names of bookmark `b`, in order of linking.
    pub open spec fn tags_of(&self, b: u32) -> Seq<Seq<char>> {
        names_for(self.spec_links(), self.spec_tags(), b)
    }

    /// `bk` is the row `r` together with its tags.
    pub open spec fn shows(&self, bk: Bookmark, r: BookmarkRow) -> bool {
        &&& row_is(r, bk.id, bk.title@, bk.url@, bk.notes@, bk.date_added@)
        &&& names_view(bk.tags@) == self.tags_of(r.id)
    }

    /// An empty store, with all three relations in place.
    pub fn new() -> (r: DB)
        ensures
            r.wf(),
            r.spec_rows().len() == 0,
            r.spec_tags().len() == 0,
            r.spec_links().len() == 0,
    {
        let r = DB { bookmarks: Vec::new(), tags: Vec::new(), links: Vec::new() };
        assert(r.spec_tags() =~= seq![]);
        r
    }

    /// Where the tag named `name` stands, if it exists.
    fn find_tag(&self, name: &String) -> (r: Option<usize>)
        ensures
            match r {
                Some(i) => i < self.spec_tags().len() && self.spec_tags()[i as int] == name@,
                None => !self.spec_tags().contains(name@),
            },
    {
        let r = find_name(&self.tags, self.tags.len(), name);
        proof {
            if self.spec_tags().contains(name@) {
                let j = choose|j: int| 0 <= j < self.spec_tags().len() && self.spec_tags()[j] == name@;
            }
        }
        r
    }

    /// Whether bookmark `b` is linked to tag `t`.
    fn link_exists(&self, b: u32, t: u32) -> (r: bool)
        ensures
            r == has_link(self.spec_links(), b, t),
    {
        let r = link_in(&self.links, self.links.len(), LinkRow { bookmark_id: b, tag_id: t });
        assert(self.links@.take(self.links.len() as int) =~= self.links@);
        r
    }

    /// Whether a bookmark with this url is stored.
    fn url_taken(&self, url: &String) -> (r: bool)
        ensures
            r == has_url(self.spec_rows(), url@),
    {
        let r = url_position(&self.bookmarks, self.bookmarks.len(), url).is_some();
        assert(self.bookmarks@.take(self.bookmarks.len() as int) =~= self.bookmarks@);
        r
    }

    /// Creates the tag `name` unless it exists, then links it to bookmark
    /// `b` unless that link exists.
    fn link_tag(&mut self, b: u32, name: &String)
        requires
            old(self).wf(),
            has_id(old(self).spec_rows(), b),
            add_new(old(self).spec_tags(), seq![name@]).len() <= u32::MAX,
        ensures
            final(self).wf(),
            final(self).spec_rows() == old(self).spec_rows(),
            final(self).spec_tags() == add_new(old(self).spec_tags(), seq![name@]),
            final(self).tags_of(b) == add_new(old(self).tags_of(b), seq![name@]),
            forall|c: u32| c != b ==> final(self).tags_of(c) == old(self).tags_of(c),
            final(self).spec_links().len() == old(self).spec_links().len() + (
            final(self).tags_of(b).len() - old(self).tags_of(b).len()),
            final(self).spec_links().subrange(0, old(self).spec_links().len() as int) == old(
                self,
            ).spec_links(),
            forall|k: int|
                old(self).spec_links().len() <= k < final(self).spec_links().len() ==> (
                #[trigger] final(self).spec_links()[k]).bookmark_id == b,
    {
        let ghost one = seq![name@];
        assert(one.drop_last() =~= Seq::<Seq<char>>::empty());
        assert(one.last() == name@);
        assert(add_new(old(self).spec_tags(), one.drop_last()) == old(self).spec_tags());
        let ghost t0 = old(self).tags_of(b);
        let tid: u32 = match self.find_tag(name) {
            Some(i) => (i + 1) as u32,
            None => {
                let ghost n0 = self.spec_tags();
                self.tags.push(name.clone());
                proof {
                    assert(self.spec_tags() =~= n0.push(name@));
                    assert forall|c: u32| #[trigger]
                        names_for(self.spec_links(), self.spec_tags(), c) == names_for(
                            self.spec_links(),
                            n0,
                            c,
                        ) by {
                        lemma_names_for_new_name(self.spec_links(), n0, name@, c);
                    }
                }
                self.tags.len() as u32
            },
        };
        proof {
            assert(self.spec_tags()[tid - 1] == name@);
            assert(forall|c: u32| #[trigger] self.tags_of(c) == old(self).tags_of(c));
            lemma_names_for_contains(self.spec_links(), self.spec_tags(), b, tid);
        }
        proof {
            assert(add_new(old(self).spec_tags(), one.drop_last()) == old(self).spec_tags());
            assert(add_new(t0, one.drop_last()) == t0);
        }
        if !self.link_exists(b, tid) {
            let ghost l0 = self.spec_links();
            self.links.push(LinkRow { bookmark_id: b, tag_id: tid });
            proof {
                assert(self.spec_links().drop_last() =~= l0);
                assert(self.spec_links().subrange(0, l0.len() as int) =~= l0);
                let l = self.spec_links();
                assert forall|k: int, m: int|
                    0 <= k < l.len() && 0 <= m < l.len() && k != m implies l[k] != l[m] by {
                    if k < l0.len() && m < l0.len() {
                        assert(l[k] == l0[k] && l[m] == l0[m]);
                    } else if k < l0.len() {
                        assert(l[k] == l0[k]);
                    } else {
                        assert(l[m] == l0[m]);
                    }
                }
                assert forall|k: int| 0 <= k < l.len() implies has_id(
                    self.spec_rows(),
                    (#[trigger] l[k]).bookmark_id,
                ) by {
                    if k < l0.len() {
                        assert(l[k] == l0[k]);
                    }
                }
                assert forall|c: u32| #[trigger] self.tags_of(c) == (if c == b {
                    t0.push(name@)
                } else {
                    old(self).tags_of(c)
                }) by {
                    assert(names_for(l, self.spec_tags(), c) == (if c == b {
                        names_for(l0, self.spec_tags(), c).push(name@)
                    } else {
                        names_for(l0, self.spec_tags(), c)
                    }));
                }
            }
        } else {
            assert(self.spec_links().subrange(0, self.spec_links().len() as int) =~= self.spec_links());
        }
    }

    /// Links each tag of `tags`, in order, to bookmark `b`, creating the
    /// tags that do not exist yet.
    fn link_tags(&mut self, b: u32, tags: &Vec<String>)
        requires
            old(self).wf(),
            has_id(old(self).spec_rows(), b),
            add_new(old(self).spec_tags(), names_view(tags@)).len() <= u32::MAX,
        ensures
            final(self).wf(),
            final(self).spec_rows() == old(self).spec_rows(),
            final(self).spec_tags() == add_new(old(self).spec_tags(), names_view(tags@)),
            final(self).tags_of(b) == add_new(old(self).tags_of(b), names_view(tags@)),
            forall|c: u32| c != b ==> final(self).tags_of(c) == old(self).tags_of(c),
            final(self).spec_links().len() == old(self).spec_links().len() + (
            final(self).tags_of(b).len() - old(self).tags_of(b).len()),
            final(self).spec_links().subrange(0, old(self).spec_links().len() as int) == old(
                self,
            ).spec_links(),
            forall|k: int|
                old(self).spec_links().len() <= k < final(self).spec_links().len() ==> (
                #[trigger] final(self).spec_links()[k]).bookmark_id == b,
    {
        proof {
            assert(names_view(tags@).take(0) =~= Seq::<Seq<char>>::empty());
            assert(self.spec_links().subrange(0, self.spec_links().len() as int) =~= self.spec_links());
        }
        let ghost n0 = self.spec_tags();
        let ghost l0 = self.spec_links();
        let ghost names = names_view(tags@);
        let mut i: usize = 0;
        while i < tags.len()
            invariant
                i <= tags.len(),
                names == names_view(tags@),
                self.wf(),
                self.spec_rows() == old(self).spec_rows(),
                has_id(self.spec_rows(), b),
                self.tags_of(b) == add_new(old(self).tags_of(b), names.take(i as int)),
                forall|c: u32| c != b ==> self.tags_of(c) == old(self).tags_of(c),
                self.spec_tags() == add_new(n0, names.take(i as int)),
                add_new(n0, names).len() <= u32::MAX,
                self.spec_links().subrange(0, l0.len() as int) == l0,
                l0.len() <= self.spec_links().len(),
                forall|k: int|
                    l0.len() <= k < self.spec_links().len() ==> (#[trigger] self.spec_links()[k]).bookmark_id
                        == b,
                self.spec_links().len() == l0.len() + self.tags_of(b).len() - old(self).tags_of(
                    b,
                ).len(),
            decreases tags.len() - i,
        {
            proof {
                let t = names.take(i as int + 1);
                assert(t.drop_last() =~= names.take(i as int));
                assert(t.last() == tags@[i as int]@);
            }
            let ghost before_tags = self.spec_tags();
            let ghost before_own = self.tags_of(b);
            let ghost mid = self.spec_links();
            proof {
                let x = tags@[i as int]@;
                let one = seq![x];
                assert(one.drop_last() =~= Seq::<Seq<char>>::empty());
                assert(add_new(before_tags, one.drop_last()) == before_tags);
                assert(add_new(before_tags, one) == add_new(n0, names.take(i as int + 1)));
                lemma_add_new_grows(n0, names, i as int + 1);
            }
            self.link_tag(b, &tags[i]);
            proof {
                let x = tags@[i as int]@;
                let one = seq![x];
                assert(one.drop_last() =~= Seq::<Seq<char>>::empty());
                assert(add_new(before_own, one.drop_last()) == before_own);
                let l = self.spec_links();
                assert forall|k: int| 0 <= k < mid.len() implies l[k] == mid[k] by {
                    assert(l.subrange(0, mid.len() as int)[k] == l[k]);
                }
                assert forall|k: int| 0 <= k < l0.len() implies l[k] == l0[k] by {
                    assert(mid.subrange(0, l0.len() as int)[k] == mid[k]);
                }
                assert(l.subrange(0, l0.len() as int) =~= l0);
                assert(add_new(before_own, one) == add_new(
                    old(self).tags_of(b),
                    names.take(i as int + 1),
                ));
            }
            i = i + 1;
        }
        proof {
            assert(names.take(tags.len() as int) =~= names);
        }
    }

    /// How many names of `tags` are not tags yet, repeats counted once.
    fn new_tag_count(&self, tags: &Vec<String>) -> (r: usize)
        requires
            self.wf(),
        ensures
            r == add_new(self.spec_tags(), names_view(tags@)).len() - self.spec_tags().len(),
    {
        let ghost n0 = self.spec_tags();
        let ghost names = names_view(tags@);
        proof {
            assert(names.take(0) =~= Seq::<Seq<char>>::empty());
        }
        let mut count: usize = 0;
        let mut i: usize = 0;
        while i < tags.len()
            invariant
                self.wf(),
                i <= tags.len(),
                n0 == self.spec_tags(),
                names == names_view(tags@),
                count <= i,
                count == add_new(n0, names.take(i as int)).len() - n0.len(),
            decreases tags.len() - i,
        {
            let ghost pre = names.take(i as int);
            let ghost x = tags@[i as int]@;
            proof {
                let t = names.take(i as int + 1);
                assert(t.drop_last() =~= pre);
                assert(t.last() == x);
                lemma_add_new_contains(n0, pre, x);
            }
            let known = self.find_tag(&tags[i]).is_some();
            let repeated = find_name(tags, i, &tags[i]).is_some();
            proof {
                if pre.contains(x) {
                    let j = choose|j: int| 0 <= j < pre.len() && pre[j] == x;
                    assert(tags@[j]@ == pre[j]);
                }
                if repeated {
                    let j = choose|j: int| 0 <= j < i && (#[trigger] tags@[j])@ == x;
                    assert(pre[j] == x);
                }
            }
            if !known && !repeated {
                count = count + 1;
            }
            i = i + 1;
        }
        proof {
            assert(names.take(tags.len() as int) =~= names);
        }
        count
    }

    /// Stores a bookmark with the given creation time and links its tags,
    /// returning its id. A url that is already stored gives `DuplicateUrl`;
    /// an exhausted id space gives `StoreFull`. On an error nothing changes.
    pub fn add_bookmark_at(
        &mut self,
        title: &String,
        url: &String,
        notes: &String,
        tags: &Vec<String>,
        date_added: String,
    ) -> (r: Result<u32, DbError>)
        requires
            old(self).wf(),
        ensures
            final(self).wf(),
            has_url(old(self).spec_rows(), url@) ==> r == Err::<u32, DbError>(DbError::DuplicateUrl),
            !has_url(old(self).spec_rows(), url@) && (next_id(old(self).spec_rows()) > u32::MAX
                || add_new(old(self).spec_tags(), names_view(tags@)).len() > u32::MAX) ==> r == Err::<
                u32,
                DbError,
            >(DbError::StoreFull),
            !has_url(old(self).spec_rows(), url@) && next_id(old(self).spec_rows()) <= u32::MAX
                && add_new(old(self).spec_tags(), names_view(tags@)).len() <= u32::MAX ==> r is Ok,
            r is Err ==> *final(self) == *old(self),
            r is Ok ==> adds(*old(self), *final(self), r->Ok_0, title@, url@, notes@, names_view(tags@))
                && final(self).spec_rows().last().date_added@ == date_added@,
    {
        if self.url_taken(url) {
            return Err(DbError::DuplicateUrl);
        }
        let n = self.bookmarks.len();
        let id: u32 = if n == 0 {
            1
        } else {
            let last = self.bookmarks[n - 1].id;
            if last == u32::MAX {
                return Err(DbError::StoreFull);
            }
            last + 1
        };
        let fresh = self.new_tag_count(tags);
        if fresh > u32::MAX as usize - self.tags.len() {
            return Err(DbError::StoreFull);
        }
        proof {
            assert(self.spec_tags().len() == self.tags@.len());
        }
        let ghost r0 = self.spec_rows();
        assert(self.spec_links() == old(self).spec_links());
        let row = BookmarkRow {
            id,
            title: title.clone(),
            url: url.clone(),
            notes: notes.clone(),
            date_added,
        };
        self.bookmarks.push(row);
        proof {
            let rows = self.spec_rows();
            assert(rows.drop_last() =~= r0);
            assert forall|k: int| 0 <= k < self.spec_links().len() implies has_id(
                rows,
                (#[trigger] self.spec_links()[k]).bookmark_id,
            ) by {
                assert(has_id(r0, self.spec_links()[k].bookmark_id));
                let i = choose|i: int| 0 <= i < r0.len() && (#[trigger] r0[i]).id == self.spec_links()[k].bookmark_id;
                assert(rows[i] == r0[i]);
            }
            assert forall|k: int| 0 <= k < self.spec_links().len() implies (
            #[trigger] self.spec_links()[k]).bookmark_id != id by {
                assert(has_id(r0, self.spec_links()[k].bookmark_id));
                let i = choose|i: int| 0 <= i < r0.len() && (#[trigger] r0[i]).id == self.spec_links()[k].bookmark_id;
                assert(r0[i].id <= r0.last().id);
            }
            lemma_names_for_unlinked(self.spec_links(), self.spec_tags(), id);
            assert(has_id(rows, id)) by {
                assert(rows[rows.len() - 1].id == id);
            }
            assert(names_view(tags@).take(0) =~= Seq::<Seq<char>>::empty());
        }
        self.link_tags(id, tags);
        proof {
            assert(self.spec_rows().drop_last() =~= old(self).spec_rows());
        }
        Ok(id)
    }

    /// The names of the tags of bookmark `bookmark_id`, in order of linking;
    /// empty for an id that is not stored.
    pub fn get_tags(&self, bookmark_id: u32) -> (r: Vec<String>)
        requires
            self.wf(),
        ensures
            names_view(r@) == self.tags_of(bookmark_id),
    {
        let mut r: Vec<String> = Vec::new();
        let mut k: usize = 0;
        while k < self.links.len()
            invariant
                self.wf(),
                k <= self.links.len(),
                names_view(r@) == names_for(self.spec_links().take(k as int), self.spec_tags(), bookmark_id),
            decreases self.links.len() - k,
        {
            proof {
                let t = self.spec_links().take(k as int + 1);
                assert(t.drop_last() =~= self.spec_links().take(k as int));
                assert(t.last() == self.spec_links()[k as int]);
            }
            let l = self.links[k];
            if l.bookmark_id == bookmark_id {
                let ghost r0 = r@;
                assert(1 <= l.tag_id <= self.spec_tags().len());
                r.push(self.tags[(l.tag_id - 1) as usize].clone());
                proof {
                    assert(names_view(r@) =~= names_view(r0).push(self.spec_tags()[l.tag_id - 1]));
                }
            }
            k = k + 1;
        }
        proof {
            assert(self.spec_links().take(self.links.len() as int) =~= self.spec_links());
        }
        r
    }

    /// The row at `i` together with its tags.
    fn hydrate(&self, i: usize) -> (r: Bookmark)
        requires
            self.wf(),
            i < self.spec_rows().len(),
        ensures
            self.shows(r, self.spec_rows()[i as int]),
    {
        let row = &self.bookmarks[i];
        let tags = self.get_tags(row.id);
        Bookmark::new(
            row.id,
            row.title.clone(),
            row.url.clone(),
            row.notes.clone(),
            tags,
            row.date_added.clone(),
        )
    }

    /// Where the bookmark with this id stands, if it is stored.
    fn position(&self, id: u32) -> (r: Option<usize>)
        ensures
            match r {
                Some(k) => k < self.spec_rows().len() && self.spec_rows()[k as int].id == id,
                None => !has_id(self.spec_rows(), id),
            },
    {
        let mut i: usize = 0;
        while i < self.bookmarks.len()
            invariant
                i <= self.bookmarks.len(),
                forall|j: int| 0 <= j < i ==> (#[trigger] self.spec_rows()[j]).id != id,
            decreases self.bookmarks.len() - i,
        {
            if self.bookmarks[i].id == id {
                return Some(i);
            }
            i = i + 1;
        }
        None
    }

    /// Every bookmark with its tags, in ascending id order.
    pub fn get_all_bookmarks(&self) -> (r: Vec<Bookmark>)
        requires
            self.wf(),
        ensures
            r@.len() == self.spec_rows().len(),
            forall|i: int| 0 <= i < r@.len() ==> self.shows(#[trigger] r@[i], self.spec_rows()[i]),
    {
        let mut r: Vec<Bookmark> = Vec::new();
        let mut i: usize = 0;
        while i < self.bookmarks.len()
            invariant
                self.wf(),
                i <= self.bookmarks.len(),
                r@.len() == i,
                forall|j: int| 0 <= j < i ==> self.shows(#[trigger] r@[j], self.spec_rows()[j]),
            decreases self.bookmarks.len() - i,
        {
            let b = self.hydrate(i);
            r.push(b);
            i = i + 1;
        }
        r
    }

    /// The bookmark with this id, with its tags: one item if it is stored,
    /// none otherwise.
    pub fn get_selected_bookmark(&self, id: u32) -> (r: Vec<Bookmark>)
        requires
            self.wf(),
        ensures
            r@.len() == (if has_id(self.spec_rows(), id) { 1int } else { 0int }),
            r@.len() == 1 ==> exists|k: int|
                0 <= k < self.spec_rows().len() && (#[trigger] self.spec_rows()[k]).id == id
                    && self.shows(r@[0], self.spec_rows()[k]),
    {
        let mut r: Vec<Bookmark> = Vec::new();
        match self.position(id) {
            Some(k) => {
                let b = self.hydrate(k);
                r.push(b);
                assert(self.shows(r@[0], self.spec_rows()[k as int]));
            },
            None => {},
        }
        r
    }

    /// The url of the bookmark with this id; `None` when no such bookmark is
    /// stored.
    pub fn get_url_by_id(&self, id: u32) -> (r: Option<String>)
        ensures
            r is Some <==> has_id(self.spec_rows(), id),
            r is Some ==> exists|k: int|
                0 <= k < self.spec_rows().len() && (#[trigger] self.spec_rows()[k]).id == id
                    && self.spec_rows()[k].url@ == r->Some_0@,
    {
        match self.position(id) {
            Some(k) => Some(self.bookmarks[k].url.clone()),
            None => None,
        }
    }

    /// How many bookmarks are stored.
    pub fn get_bookmark_count(&self) -> (r: usize)
        ensures
            r == self.spec_rows().len(),
    {
        self.bookmarks.len()
    }

    /// Whether a bookmark with this id is stored.
    pub fn bookmark_exists(&self, id: u32) -> (r: bool)
        ensures
            r == has_id(self.spec_rows(), id),
    {
        self.position(id).is_some()
    }

    /// Removes the bookmark with this id together with all its links. An id
    /// that is not stored changes nothing.
    pub fn delete_bookmark(&mut self, id: u32)
        requires
            old(self).wf(),
        ensures
            final(self).wf(),
            !has_id(old(self).spec_rows(), id) ==> *final(self) == *old(self),
            has_id(old(self).spec_rows(), id) ==> exists|k: int|
                0 <= k < old(self).spec_rows().len() && (#[trigger] old(self).spec_rows()[k]).id
                    == id && final(self).spec_rows() == old(self).spec_rows().remove(k),
            !has_id(final(self).spec_rows(), id),
            forall|k: int|
                0 <= k < final(self).spec_links().len() ==> (#[trigger] final(self).spec_links()[k]).bookmark_id
                    != id,
            final(self).spec_tags() == old(self).spec_tags(),
            final(self).spec_links() == drop_links(old(self).spec_links(), id),
            final(self).tags_of(id) == Seq::<Seq<char>>::empty(),
            forall|c: u32| c != id ==> final(self).tags_of(c) == old(self).tags_of(c),
    {
        let k = match self.position(id) {
            Some(k) => k,
            None => {
                proof {
                    assert forall|k: int| 0 <= k < self.spec_links().len() implies (
                    #[trigger] self.spec_links()[k]).bookmark_id != id by {
                        let i = choose|i: int| 0 <= i < self.spec_rows().len() && (#[trigger] self.spec_rows()[i]).id == self.spec_links()[k].bookmark_id;
                    }
                    lemma_drop_links_none(self.spec_links(), id);
                    lemma_names_for_unlinked(self.spec_links(), self.spec_tags(), id);
                }
                return;
            },
        };
        let ghost r0 = self.spec_rows();
        let ghost l0 = self.spec_links();
        self.bookmarks.remove(k);
        let mut kept: Vec<LinkRow> = Vec::new();
        let mut m: usize = 0;
        while m < self.links.len()
            invariant
                m <= self.links.len(),
                self.spec_links() == l0,
                kept@ == drop_links(l0.take(m as int), id),
            decreases self.links.len() - m,
        {
            proof {
                let t = l0.take(m as int + 1);
                assert(t.drop_last() =~= l0.take(m as int));
                assert(t.last() == l0[m as int]);
            }
            let l = self.links[m];
            if l.bookmark_id != id {
                kept.push(l);
            }
            m = m + 1;
        }
        proof {
            assert(l0.take(l0.len() as int) =~= l0);
        }
        self.links = kept;
        proof {
            let rows = self.spec_rows();
            let links = self.spec_links();
            assert forall|i: int| 0 <= i < rows.len() implies (#[trigger] rows[i]).id != id by {
                if i < k {
                    assert(rows[i] == r0[i]);
                } else {
                    assert(rows[i] == r0[i + 1]);
                }
            }
            assert forall|i: int, j: int| 0 <= i < j < rows.len() implies rows[i].id < rows[j].id by {
                assert(rows[i] == r0[if i < k { i } else { i + 1 }]);
                assert(rows[j] == r0[if j < k { j } else { j + 1 }]);
            }
            assert forall|i: int, j: int|
                0 <= i < rows.len() && 0 <= j < rows.len() && i != j implies rows[i].url@
                != rows[j].url@ by {
                assert(rows[i] == r0[if i < k { i } else { i + 1 }]);
                assert(rows[j] == r0[if j < k { j } else { j + 1 }]);
            }
            assert forall|q: int| 0 <= q < links.len() implies 1 <= (#[trigger] links[q]).tag_id
                <= self.spec_tags().len() && has_id(rows, links[q].bookmark_id) by {
                lemma_drop_links_from(l0, id, links[q]);
                assert(links.contains(links[q]));
                let p = choose|p: int| 0 <= p < l0.len() && l0[p] == links[q];
                let i = choose|i: int| 0 <= i < r0.len() && (#[trigger] r0[i]).id == l0[p].bookmark_id;
                assert(i != k);
                if i < k {
                    assert(rows[i] == r0[i]);
                } else {
                    assert(rows[i - 1] == r0[i]);
                }
            }
            lemma_drop_links_no_dup(l0, id);
            assert forall|c: u32| #[trigger] self.tags_of(c) == (if c == id {
                Seq::<Seq<char>>::empty()
            } else {
                old(self).tags_of(c)
            }) by {
                lemma_names_for_drop(l0, self.spec_tags(), id, c);
            }
        }
    }

    /// Stores a bookmark created now (local time, `YYYY-MM-DD HH:MM:SS`) and
    /// links its tags, returning its id. A url that is already stored gives
    /// `DuplicateUrl`; an exhausted id space gives `StoreFull`. On an error
    /// nothing changes.
    pub fn add_bookmark(
        &mut self,
        title: &String,
        url: &String,
        notes: &String,
        tags: &Vec<String>,
    ) -> (r: Result<u32, DbError>)
        requires
            old(self).wf(),
        ensures
            final(self).wf(),
            has_url(old(self).spec_rows(), url@) ==> r == Err::<u32, DbError>(DbError::DuplicateUrl),
            !has_url(old(self).spec_rows(), url@) && (next_id(old(self).spec_rows()) > u32::MAX
                || add_new(old(self).spec_tags(), names_view(tags@)).len() > u32::MAX) ==> r == Err::<
                u32,
                DbError,
            >(DbError::StoreFull),
            !has_url(old(self).spec_rows(), url@) && next_id(old(self).spec_rows()) <= u32::MAX
                && add_new(old(self).spec_tags(), names_view(tags@)).len() <= u32::MAX ==> r is Ok,
            r is Err ==> *final(self) == *old(self),
            r is Ok ==> adds(*old(self), *final(self), r->Ok_0, title@, url@, notes@, names_view(tags@)),
    {
        let now = local_timestamp();
        self.add_bookmark_at(title, url, notes, tags, now)
    }

    /// A store holding exactly these rows, or `IntegrityViolation` when they
    /// break a rule: tags not numbered 1, 2, ... in order, bookmark ids not
    /// ascending, a url or tag name twice, a link to a missing bookmark or
    /// tag, or a link twice.
    pub fn from_rows(bookmarks: Vec<BookmarkRow>, tags: Vec<TagRow>, links: Vec<LinkRow>) -> (r:
        Result<DB, DbError>)
        ensures
            r is Ok <==> loadable(bookmarks@, tags@, links@),
            r is Ok ==> {
                let db = r->Ok_0;
                &&& db.wf()
                &&& db.spec_rows() == bookmarks@
                &&& db.spec_tags() == tag_names(tags@)
                &&& db.spec_links() == links@
            },
            r is Err ==> r->Err_0 == DbError::IntegrityViolation,
    {
        let ghost tn = tag_names(tags@);
        if tags.len() > u32::MAX as usize {
            return Err(DbError::IntegrityViolation);
        }
        let mut names: Vec<String> = Vec::new();
        let mut i: usize = 0;
        while i < tags.len()
            invariant
                i <= tags@.len() <= u32::MAX,
                tn == tag_names(tags@),
                names_view(names@) == tn.take(i as int),
                unique_names(names_view(names@)),
                forall|j: int| 0 <= j < i ==> (#[trigger] tags@[j]).id == j + 1,
            decreases tags.len() - i,
        {
            if tags[i].id as usize != i + 1 {
                return Err(DbError::IntegrityViolation);
            }
            match find_name(&names, names.len(), &tags[i].name) {
                Some(j) => {
                    proof {
                        assert(names_view(names@).len() == names@.len());
                        assert(names_view(names@)[j as int] == names@[j as int]@);
                        assert(tn.take(i as int)[j as int] == tn[j as int]);
                        assert(tn[i as int] == tags@[i as int].name@);
                        assert(tn[j as int] == tn[i as int]);
                        assert(!unique_names(tn));
                    }
                    return Err(DbError::IntegrityViolation);
                },
                None => {},
            }
            let ghost n0 = names@;
            names.push(tags[i].name.clone());
            proof {
                assert(names_view(names@) =~= names_view(n0).push(tags@[i as int].name@));
                assert(tn.take(i as int + 1) =~= tn.take(i as int).push(tn[i as int]));
                assert(forall|j: int| 0 <= j < i ==> names_view(n0)[j] == (#[trigger] n0[j])@);
            }
            i = i + 1;
        }
        proof {
            assert(tn.take(tags.len() as int) =~= tn);
        }
        let mut i: usize = 0;
        while i < bookmarks.len()
            invariant
                i <= bookmarks@.len(),
                forall|j: int, k: int| 0 <= j < k < i ==> bookmarks@[j].id < bookmarks@[k].id,
                forall|j: int, k: int|
                    0 <= j < i && 0 <= k < i && j != k ==> bookmarks@[j].url@ != bookmarks@[k].url@,
            decreases bookmarks.len() - i,
        {
            if i > 0 && bookmarks[i - 1].id >= bookmarks[i].id {
                return Err(DbError::IntegrityViolation);
            }
            if url_position(&bookmarks, i, &bookmarks[i].url).is_some() {
                proof {
                    let pre = bookmarks@.take(i as int);
                    let j = choose|j: int| 0 <= j < pre.len() && (#[trigger] pre[j]).url@ == bookmarks@[i as int].url@;
                    assert(pre[j] == bookmarks@[j]);
                }
                return Err(DbError::IntegrityViolation);
            }
            proof {
                assert forall|j: int| 0 <= j < i implies bookmarks@[j].url@ != bookmarks@[i as int].url@ by {
                    let pre = bookmarks@.take(i as int);
                    assert(pre[j] == bookmarks@[j]);
                }
                assert forall|j: int| 0 <= j < i implies bookmarks@[j].id < bookmarks@[i as int].id by {
                    if j < i - 1 {
                        assert(bookmarks@[j].id < bookmarks@[i - 1].id);
                    }
                }
            }
            i = i + 1;
        }
        let mut k: usize = 0;
        while k < links.len()
            invariant
                k <= links@.len(),
                names@.len() == tags@.len() <= u32::MAX,
                forall|m: int|
                    0 <= m < k ==> 1 <= (#[trigger] links@[m]).tag_id <= names@.len() && has_id(
                        bookmarks@,
                        links@[m].bookmark_id,
                    ),
                forall|m: int, q: int| 0 <= m < k && 0 <= q < k && m != q ==> links@[m] != links@[q],
            decreases links.len() - k,
        {
            let l = links[k];
            if l.tag_id < 1 || l.tag_id as usize > names.len() || !id_in(&bookmarks, l.bookmark_id) {
                return Err(DbError::IntegrityViolation);
            }
            if link_in(&links, k, l) {
                proof {
                    let pre = links@.take(k as int);
                    let m = choose|m: int| 0 <= m < pre.len() && (#[trigger] pre[m]).bookmark_id == l.bookmark_id && pre[m].tag_id == l.tag_id;
                    assert(pre[m] == links@[m]);
                    assert(links@[m] == links@[k as int]);
                }
                return Err(DbError::IntegrityViolation);
            }
            proof {
                assert forall|m: int| 0 <= m < k implies links@[m] != links@[k as int] by {
                    let pre = links@.take(k as int);
                    assert(pre[m] == links@[m]);
                }
            }
            k = k + 1;
        }
        let db = DB { bookmarks, tags: names, links };
        proof {
            assert(db.spec_tags() == tn);
        }
        Ok(db)
    }

    /// The bookmark rows, in ascending id order.
    pub fn bookmark_rows(&self) -> (r: &Vec<BookmarkRow>)
        ensures
            r@ == self.spec_rows(),
    {
        &self.bookmarks
    }

    /// The tag rows, numbered 1, 2, ... in order of creation.
    pub fn tag_rows(&self) -> (r: Vec<TagRow>)
        requires
            self.wf(),
        ensures
            tag_names(r@) == self.spec_tags(),
            forall|i: int| 0 <= i < r@.len() ==> (#[trigger] r@[i]).id == i + 1,
    {
        let mut r: Vec<TagRow> = Vec::new();
        let mut i: usize = 0;
        while i < self.tags.len()
            invariant
                i <= self.tags@.len(),
                self.spec_tags().len() == self.tags@.len() <= u32::MAX,
                r@.len() == i,
                tag_names(r@) == self.spec_tags().take(i as int),
                forall|j: int| 0 <= j < i ==> (#[trigger] r@[j]).id == j + 1,
            decreases self.tags.len() - i,
        {
            let ghost r0 = r@;
            r.push(TagRow { id: (i + 1) as u32, name: self.tags[i].clone() });
            proof {
                assert(tag_names(r@) =~= tag_names(r0).push(self.tags@[i as int]@));
                assert(self.spec_tags().take(i as int + 1) =~= self.spec_tags().take(i as int).push(
                    self.spec_tags()[i as int],
                ));
            }
            i = i + 1;
        }
        proof {
            assert(self.spec_tags().take(self.tags@.len() as int) =~= self.spec_tags());
        }
        r
    }

    /// The links, in order of creation.
    pub fn link_rows(&self) -> (r: &Vec<LinkRow>)
        ensures
            r@ == self.spec_links(),
    {
        &self.links
    }

    /// Links each tag of `tags`, in order, to the bookmark stored under
    /// `url`, creating the tags that do not exist yet. A tag already linked
    /// to it is left as it is, so a second call with the same arguments
    /// changes nothing. A url that is not stored gives `NoSuchBookmark`; an
    /// exhausted tag id space gives `StoreFull`. On an error nothing changes.
    pub fn add_tags(&mut self, tags: &Vec<String>, url: &String) -> (r: Result<(), DbError>)
        requires
            old(self).wf(),
        ensures
            final(self).wf(),
            !has_url(old(self).spec_rows(), url@) ==> r == Err::<(), DbError>(DbError::NoSuchBookmark),
            has_url(old(self).spec_rows(), url@) && add_new(old(self).spec_tags(), names_view(tags@)).len() > u32::MAX
                ==> r == Err::<(), DbError>(DbError::StoreFull),
            has_url(old(self).spec_rows(), url@) && add_new(old(self).spec_tags(), names_view(tags@)).len() <= u32::MAX
                ==> r is Ok,
            r is Err ==> *final(self) == *old(self),
            r is Ok ==> {
                let b = old(self).spec_rows()[url_index(old(self).spec_rows(), url@)].id;
                &&& final(self).spec_rows() == old(self).spec_rows()
                &&& final(self).spec_tags() == add_new(old(self).spec_tags(), names_view(tags@))
                &&& final(self).tags_of(b) == add_new(old(self).tags_of(b), names_view(tags@))
                &&& forall|c: u32| c != b ==> final(self).tags_of(c) == old(self).tags_of(c)
                &&& final(self).spec_links().len() == old(self).spec_links().len() + (final(self).tags_of(b).len() - old(self).tags_of(b).len())
                &&& final(self).spec_links().subrange(0, old(self).spec_links().len() as int) == old(self).spec_links()
                &&& forall|k: int|
                    old(self).spec_links().len() <= k < final(self).spec_links().len() ==> (
                    #[trigger] final(self).spec_links()[k]).bookmark_id == b
            },
    {
        let k = match url_position(&self.bookmarks, self.bookmarks.len(), url) {
            Some(k) => k,
            None => {
                assert(self.bookmarks@.take(self.bookmarks.len() as int) =~= self.bookmarks@);
                return Err(DbError::NoSuchBookmark);
            },
        };
        proof {
            assert(self.bookmarks@.take(self.bookmarks.len() as int) =~= self.bookmarks@);
            let j = url_index(self.spec_rows(), url@);
            assert(self.spec_rows()[j].url@ == url@);
            assert(j == k);
        }
        let fresh = self.new_tag_count(tags);
        if fresh > u32::MAX as usize - self.tags.len() {
            return Err(DbError::StoreFull);
        }
        let b = self.bookmarks[k].id;
        proof {
            assert(self.spec_tags().len() == self.tags@.len());
            assert(has_id(self.spec_rows(), b)) by {
                assert(self.spec_rows()[k as int].id == b);
            }
        }
        self.link_tags(b, tags);
        Ok(())
    }
}

} // verus!
