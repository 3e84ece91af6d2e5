use vstd::prelude::*;

verus! {

/// A stored bookmark row, without its tags.
#[derive(Clone, Debug)]
pub struct BookmarkRow {
    pub id: u32,
    pub title: String,
    pub url: String,
    pub notes: String,
    pub date_added: String,
}

/// A stored tag row; tags are numbered from 1 in order of creation.
#[derive(Clone, Debug)]
pub struct TagRow {
    pub id: u32,
    pub name: String,
}

/// A link between a bookmark and a tag, both by id.
#[derive(Clone, Copy, PartialEq, Eq, Structural, Debug)]
pub struct LinkRow {
    pub bookmark_id: u32,
    pub tag_id: u32,
}

pub open spec fn has_url(rows: Seq<BookmarkRow>, url: Seq<char>) -> bool {
    exists|i: int| 0 <= i < rows.len() && (#[trigger] rows[i]).url@ == url
}

/// The position of the row with this url (one of them, if several).
pub open spec fn url_index(rows: Seq<BookmarkRow>, url: Seq<char>) -> int {
    choose|i: int| 0 <= i < rows.len() && (#[trigger] rows[i]).url@ == url
}

pub open spec fn has_id(rows: Seq<BookmarkRow>, id: u32) -> bool {
    exists|i: int| 0 <= i < rows.len() && (#[trigger] rows[i]).id == id
}

pub open spec fn has_link(links: Seq<LinkRow>, bookmark_id: u32, tag_id: u32) -> bool {
    exists|k: int|
        0 <= k < links.len() && (#[trigger] links[k]).bookmark_id == bookmark_id
            && links[k].tag_id == tag_id
}

/// The names of the tag rows, in order.
pub open spec fn tag_names(tags: Seq<TagRow>) -> Seq<Seq<char>> {
    tags.map_values(|t: TagRow| t.name@)
}

/// Rows that form a store: tags numbered 1, 2, ... in order, and the
/// integrity rules met.
pub open spec fn loadable(rows: Seq<BookmarkRow>, tags: Seq<TagRow>, links: Seq<LinkRow>) -> bool {
    &&& forall|i: int| 0 <= i < tags.len() ==> (#[trigger] tags[i]).id == i + 1
    &&& valid_store(rows, tag_names(tags), links)
}

/// The integrity rules: ids ascending, urls unique, tag names unique, every
/// link pointing at a stored bookmark and a stored tag, no link twice.
pub open spec fn valid_store(
    rows: Seq<BookmarkRow>,
    names: Seq<Seq<char>>,
    links: Seq<LinkRow>,
) -> bool {
    &&& forall|i: int, j: int| 0 <= i < j < rows.len() ==> rows[i].id < rows[j].id
    &&& forall|i: int, j: int|
        0 <= i < rows.len() && 0 <= j < rows.len() && i != j ==> rows[i].url@ != rows[j].url@
    &&& unique_names(names)
    &&& names.len() <= u32::MAX
    &&& tags_in_range(links, names.len() as int)
    &&& forall|k: int| 0 <= k < links.len() ==> has_id(rows, (#[trigger] links[k]).bookmark_id)
    &&& no_dup_links(links)
}

/// The names of the tags linked to a bookmark, in order of linking.
pub open spec fn names_for(links: Seq<LinkRow>, names: Seq<Seq<char>>, b: u32) -> Seq<Seq<char>>
    decreases links.len(),
{
    if links.len() == 0 {
        seq![]
    } else {
        let rest = names_for(links.drop_last(), names, b);
        if links.last().bookmark_id == b {
            rest.push(names[links.last().tag_id - 1])
        } else {
            rest
        }
    }
}

/// `acc` followed by the items of `s` that are new, each once, in order of
/// first occurrence.
pub open spec fn add_new(acc: Seq<Seq<char>>, s: Seq<Seq<char>>) -> Seq<Seq<char>>
    decreases s.len(),
{
    if s.len() == 0 {
        acc
    } else {
        let prev = add_new(acc, s.drop_last());
        if prev.contains(s.last()) {
            prev
        } else {
            prev.push(s.last())
        }
    }
}

/// Adding a prefix of `s` gives no more names than adding all of `s`.
pub proof fn lemma_add_new_grows(acc: Seq<Seq<char>>, s: Seq<Seq<char>>, i: int)
    requires
        0 <= i <= s.len(),
    ensures
        add_new(acc, s.take(i)).len() <= add_new(acc, s).len(),
    decreases s.len() - i,
{
    if i < s.len() {
        lemma_add_new_grows(acc, s, i + 1);
        assert(s.take(i + 1).drop_last() =~= s.take(i));
    } else {
        assert(s.take(i) =~= s);
    }
}

/// A name is present after adding `s` exactly when it was present before
/// or occurs in `s`.
pub proof fn lemma_add_new_contains(acc: Seq<Seq<char>>, s: Seq<Seq<char>>, x: Seq<char>)
    ensures
        add_new(acc, s).contains(x) <==> acc.contains(x) || s.contains(x),
    decreases s.len(),
{
    if s.len() > 0 {
        let p = s.drop_last();
        lemma_add_new_contains(acc, p, x);
        let prev = add_new(acc, p);
        if s.contains(x) {
            let i = choose|i: int| 0 <= i < s.len() && s[i] == x;
            if i < p.len() {
                assert(p[i] == s[i]);
            }
        }
        if p.contains(x) {
            let i = choose|i: int| 0 <= i < p.len() && p[i] == x;
            assert(s[i] == p[i]);
        }
        if x == s.last() {
            assert(s[s.len() - 1] == x);
        }
        if !prev.contains(s.last()) {
            let e = prev.push(s.last());
            if e.contains(x) {
                let i = choose|i: int| 0 <= i < e.len() && e[i] == x;
                if i < prev.len() {
                    assert(prev[i] == e[i]);
                }
            }
            if prev.contains(x) {
                let i = choose|i: int| 0 <= i < prev.len() && prev[i] == x;
                assert(e[i] == prev[i]);
            }
            if x == s.last() {
                assert(e[prev.len() as int] == x);
            }
        }
    }
}

/// `s` with repeats dropped, first occurrences kept in order.
pub open spec fn dedup(s: Seq<Seq<char>>) -> Seq<Seq<char>> {
    add_new(seq![], s)
}

/// The id the store gives to the next bookmark: one past the last id.
pub open spec fn next_id(rows: Seq<BookmarkRow>) -> int {
    if rows.len() == 0 {
        1
    } else {
        rows.last().id + 1
    }
}

/// The row holds exactly these values.
pub open spec fn row_is(
    r: BookmarkRow,
    id: u32,
    title: Seq<char>,
    url: Seq<char>,
    notes: Seq<char>,
    date_added: Seq<char>,
) -> bool {
    r.id == id && r.title@ == title && r.url@ == url && r.notes@ == notes && r.date_added@
        == date_added
}


/// The links that do not belong to bookmark `b`, in order.
pub open spec fn drop_links(links: Seq<LinkRow>, b: u32) -> Seq<LinkRow>
    decreases links.len(),
{
    if links.len() == 0 {
        links
    } else {
        let rest = drop_links(links.drop_last(), b);
        if links.last().bookmark_id == b {
            rest
        } else {
            rest.push(links.last())
        }
    }
}

/// Every link points at a tag that exists.
pub open spec fn tags_in_range(links: Seq<LinkRow>, n: int) -> bool {
    forall|k: int| 0 <= k < links.len() ==> 1 <= (#[trigger] links[k]).tag_id <= n
}

pub open spec fn unique_names(names: Seq<Seq<char>>) -> bool {
    forall|i: int, j: int|
        0 <= i < names.len() && 0 <= j < names.len() && i != j ==> names[i] != names[j]
}

/// A new tag name changes no bookmark's tags.
pub proof fn lemma_names_for_new_name(links: Seq<LinkRow>, names: Seq<Seq<char>>, x: Seq<char>, b: u32)
    requires
        tags_in_range(links, names.len() as int),
    ensures
        names_for(links, names.push(x), b) == names_for(links, names, b),
    decreases links.len(),
{
    if links.len() > 0 {
        lemma_names_for_new_name(links.drop_last(), names, x, b);
    }
}

/// With unique names, a bookmark shows a tag exactly when it is linked to it.
pub proof fn lemma_names_for_contains(links: Seq<LinkRow>, names: Seq<Seq<char>>, b: u32, t: u32)
    requires
        1 <= t <= names.len(),
        tags_in_range(links, names.len() as int),
        unique_names(names),
    ensures
        names_for(links, names, b).contains(names[t - 1]) <==> has_link(links, b, t),
    decreases links.len(),
{
    if links.len() > 0 {
        let p = links.drop_last();
        let l = links.last();
        lemma_names_for_contains(p, names, b, t);
        let rest = names_for(p, names, b);
        if has_link(p, b, t) {
            let k = choose|k: int| 0 <= k < p.len() && (#[trigger] p[k]).bookmark_id == b && p[k].tag_id == t;
            assert(links[k] == p[k]);
        }
        if has_link(links, b, t) {
            let k = choose|k: int| 0 <= k < links.len() && (#[trigger] links[k]).bookmark_id == b && links[k].tag_id == t;
            if k < p.len() {
                assert(p[k] == links[k]);
            }
        }
        if l.bookmark_id == b {
            let x = names[l.tag_id - 1];
            let full = rest.push(x);
            if full.contains(names[t - 1]) {
                let i = choose|i: int| 0 <= i < full.len() && full[i] == names[t - 1];
                if i < rest.len() {
                    assert(rest[i] == full[i]);
                } else {
                    assert(l.tag_id == t);
                }
            }
            if rest.contains(names[t - 1]) {
                let i = choose|i: int| 0 <= i < rest.len() && rest[i] == names[t - 1];
                assert(full[i] == rest[i]);
            }
            if l.tag_id == t {
                assert(full[rest.len() as int] == x);
            }
        }
    }
}

/// A bookmark that no link names has no tags.
pub proof fn lemma_names_for_unlinked(links: Seq<LinkRow>, names: Seq<Seq<char>>, b: u32)
    requires
        forall|k: int| 0 <= k < links.len() ==> (#[trigger] links[k]).bookmark_id != b,
    ensures
        names_for(links, names, b) == Seq::<Seq<char>>::empty(),
    decreases links.len(),
{
    if links.len() > 0 {
        let p = links.drop_last();
        assert forall|k: int| 0 <= k < p.len() implies (#[trigger] p[k]).bookmark_id != b by {
            assert(p[k] == links[k]);
        }
        lemma_names_for_unlinked(p, names, b);
    }
}

/// Dropping the links of `b` empties its tags and keeps everyone else's.
pub proof fn lemma_names_for_drop(links: Seq<LinkRow>, names: Seq<Seq<char>>, b: u32, c: u32)
    ensures
        names_for(drop_links(links, b), names, c) == (if c == b {
            Seq::<Seq<char>>::empty()
        } else {
            names_for(links, names, c)
        }),
    decreases links.len(),
{
    if links.len() > 0 {
        let p = links.drop_last();
        lemma_names_for_drop(p, names, b, c);
        let d = drop_links(p, b);
        if links.last().bookmark_id != b {
            assert(d.push(links.last()).drop_last() =~= d);
        }
    }
}

/// What is left after dropping the links of `b` came from `links` and is
/// not of `b`.
pub proof fn lemma_drop_links_from(links: Seq<LinkRow>, b: u32, x: LinkRow)
    ensures
        drop_links(links, b).contains(x) ==> links.contains(x) && x.bookmark_id != b,
    decreases links.len(),
{
    if links.len() > 0 {
        let p = links.drop_last();
        lemma_drop_links_from(p, b, x);
        let d = drop_links(p, b);
        if drop_links(links, b).contains(x) {
            if links.last().bookmark_id != b {
                let i = choose|i: int| 0 <= i < d.len() + 1 && d.push(links.last())[i] == x;
                if i < d.len() {
                    assert(d.push(links.last())[i] == d[i]);
                    assert(d.contains(x));
                    let m = choose|m: int| 0 <= m < p.len() && p[m] == x;
                    assert(links[m] == p[m]);
                } else {
                    assert(links[links.len() - 1] == x);
                }
            } else {
                let m = choose|m: int| 0 <= m < p.len() && p[m] == x;
                assert(links[m] == p[m]);
            }
        }
    }
}

/// Dropping the links of a bookmark that has none changes nothing.
pub proof fn lemma_drop_links_none(links: Seq<LinkRow>, b: u32)
    requires
        forall|k: int| 0 <= k < links.len() ==> (#[trigger] links[k]).bookmark_id != b,
    ensures
        drop_links(links, b) == links,
    decreases links.len(),
{
    if links.len() > 0 {
        let p = links.drop_last();
        assert forall|k: int| 0 <= k < p.len() implies (#[trigger] p[k]).bookmark_id != b by {
            assert(p[k] == links[k]);
        }
        lemma_drop_links_none(p, b);
        assert(p.push(links.last()) =~= links);
    }
}

pub open spec fn no_dup_links(links: Seq<LinkRow>) -> bool {
    forall|k: int, m: int| 0 <= k < links.len() && 0 <= m < links.len() && k != m ==> links[k] != links[m]
}

/// Dropping links keeps them free of repeats.
pub proof fn lemma_drop_links_no_dup(links: Seq<LinkRow>, b: u32)
    requires
        no_dup_links(links),
    ensures
        no_dup_links(drop_links(links, b)),
    decreases links.len(),
{
    if links.len() > 0 {
        let p = links.drop_last();
        let l = links.last();
        assert(no_dup_links(p)) by {
            assert forall|k: int, m: int| 0 <= k < p.len() && 0 <= m < p.len() && k != m implies p[k] != p[m] by {
                assert(p[k] == links[k] && p[m] == links[m]);
            }
        }
        lemma_drop_links_no_dup(p, b);
        let d = drop_links(p, b);
        if l.bookmark_id != b {
            lemma_drop_links_from(p, b, l);
            if p.contains(l) {
                let m = choose|m: int| 0 <= m < p.len() && p[m] == l;
                assert(links[m] == links[links.len() - 1]);
            }
            let e = d.push(l);
            assert forall|k: int, m: int| 0 <= k < e.len() && 0 <= m < e.len() && k != m implies e[k] != e[m] by {
                if k == d.len() {
                    assert(e[m] == d[m]);
                    assert(d.contains(d[m]));
                } else if m == d.len() {
                    assert(e[k] == d[k]);
                    assert(d.contains(d[k]));
                } else {
                    assert(e[k] == d[k] && e[m] == d[m]);
                }
            }
        }
    }
}

} // verus!
