use vstd::prelude::*;
use crate::model::{BookmarkRow, add_new, unique_names, dedup, has_id, has_url, next_id, row_is};
use crate::store::{DB, adds};

verus! {

/// Adding the new items of `s` to a list without repeats keeps it without
/// repeats, keeps it as a prefix, and yields exactly the items of both.
pub proof fn lemma_add_new(acc: Seq<Seq<char>>, s: Seq<Seq<char>>)
    requires
        unique_names(acc),
    ensures
        unique_names(add_new(acc, s)),
        add_new(acc, s).len() >= acc.len(),
        add_new(acc, s).subrange(0, acc.len() as int) == acc,
        forall|x: Seq<char>| #[trigger] add_new(acc, s).contains(x) <==> acc.contains(x) || s.contains(x),
    decreases s.len(),
{
    if s.len() > 0 {
        let p = s.drop_last();
        lemma_add_new(acc, p);
        let prev = add_new(acc, p);
        assert forall|x: Seq<char>| s.contains(x) <==> p.contains(x) || x == s.last() by {
            if s.contains(x) {
                let i = choose|i: int| 0 <= i < s.len() && s[i] == x;
                if i < p.len() {
                    assert(p[i] == s[i]);
                }
            }
            if p.contains(x) {
                let i = choose|i: int| 0 <= i < p.len() && p[i] == x;
                assert(s[i] == p[i]);
            }
            if x == s.last() {
                assert(s[s.len() - 1] == x);
            }
        }
        if !prev.contains(s.last()) {
            let e = prev.push(s.last());
            assert forall|x: Seq<char>| e.contains(x) <==> prev.contains(x) || x == s.last() by {
                if e.contains(x) {
                    let i = choose|i: int| 0 <= i < e.len() && e[i] == x;
                    if i < prev.len() {
                        assert(prev[i] == e[i]);
                    }
                }
                if prev.contains(x) {
                    let i = choose|i: int| 0 <= i < prev.len() && prev[i] == x;
                    assert(e[i] == prev[i]);
                }
                if x == s.last() {
                    assert(e[prev.len() as int] == x);
                }
            }
            assert forall|i: int, j: int| 0 <= i < e.len() && 0 <= j < e.len() && i != j implies e[i] != e[j] by {
                if i < prev.len() && j < prev.len() {
                    assert(e[i] == prev[i] && e[j] == prev[j]);
                } else if i < prev.len() {
                    assert(e[i] == prev[i]);
                    assert(prev.contains(prev[i]));
                } else {
                    assert(e[j] == prev[j]);
                    assert(prev.contains(prev[j]));
                }
            }
            assert(e.subrange(0, acc.len() as int) =~= prev.subrange(0, acc.len() as int));
        }
    }
}

/// The tags of a new bookmark, as `add` records them, hold each input tag
/// once: no repeats, and exactly the names of the input.
pub proof fn lemma_dedup(s: Seq<Seq<char>>)
    ensures
        unique_names(dedup(s)),
        forall|x: Seq<char>| #[trigger] dedup(s).contains(x) <==> s.contains(x),
{
    lemma_add_new(Seq::<Seq<char>>::empty(), s);
}

/// After an add, reading the bookmark back by its id gives the title, url
/// and notes that were added, and the added tags with repeats collapsed in
/// order of first occurrence.
pub proof fn lemma_add_then_get(
    old: DB,
    new: DB,
    id: u32,
    title: Seq<char>,
    url: Seq<char>,
    notes: Seq<char>,
    tags: Seq<Seq<char>>,
)
    requires
        old.wf(),
        new.wf(),
        adds(old, new, id, title, url, notes, tags),
    ensures
        has_id(new.spec_rows(), id),
        forall|k: int|
            0 <= k < new.spec_rows().len() && (#[trigger] new.spec_rows()[k]).id == id ==> row_is(
                new.spec_rows()[k],
                id,
                title,
                url,
                notes,
                new.spec_rows()[k].date_added@,
            ),
        new.tags_of(id) == dedup(tags),
        unique_names(new.tags_of(id)),
        forall|x: Seq<char>| #[trigger] new.tags_of(id).contains(x) <==> tags.contains(x),
{
    let rows = new.spec_rows();
    let last = rows.len() - 1;
    assert(rows[last].id == id);
    assert forall|k: int| 0 <= k < rows.len() && (#[trigger] rows[k]).id == id implies k == last by {
        if k < last {
            assert(rows[k].id < rows[last].id);
        }
    }
    lemma_dedup(tags);
}

/// Once a url has been added, a second add of it finds it stored, and so
/// reports a duplicate and changes nothing.
pub proof fn lemma_added_url_is_taken(
    old: DB,
    new: DB,
    id: u32,
    title: Seq<char>,
    url: Seq<char>,
    notes: Seq<char>,
    tags: Seq<Seq<char>>,
)
    requires
        adds(old, new, id, title, url, notes, tags),
    ensures
        has_url(new.spec_rows(), url),
{
    assert(new.spec_rows()[new.spec_rows().len() - 1].url@ == url);
}

/// Starting from an empty store, `n` successive adds leave exactly `n`
/// bookmarks, in the order they were added, with ascending ids.
pub proof fn lemma_adds_in_order(
    stores: Seq<DB>,
    ids: Seq<u32>,
    titles: Seq<Seq<char>>,
    urls: Seq<Seq<char>>,
    notes: Seq<Seq<char>>,
    tags: Seq<Seq<Seq<char>>>,
)
    requires
        stores.len() == ids.len() + 1,
        titles.len() == ids.len() && urls.len() == ids.len() && notes.len() == ids.len()
            && tags.len() == ids.len(),
        stores[0].spec_rows().len() == 0,
        forall|i: int|
            0 <= i < ids.len() ==> adds(
                #[trigger] stores[i],
                stores[i + 1],
                ids[i],
                titles[i],
                urls[i],
                notes[i],
                tags[i],
            ),
    ensures
        stores.last().spec_rows().len() == ids.len(),
        forall|i: int|
            0 <= i < ids.len() ==> row_is(
                #[trigger] stores.last().spec_rows()[i],
                ids[i],
                titles[i],
                urls[i],
                notes[i],
                stores.last().spec_rows()[i].date_added@,
            ),
        forall|i: int, j: int| 0 <= i < j < ids.len() ==> ids[i] < ids[j],
    decreases ids.len(),
{
    let n = ids.len();
    if n > 0 {
        let m = n - 1;
        lemma_adds_in_order(
            stores.drop_last(),
            ids.drop_last(),
            titles.drop_last(),
            urls.drop_last(),
            notes.drop_last(),
            tags.drop_last(),
        );
        let before = stores[m].spec_rows();
        let after = stores[n as int].spec_rows();
        assert(adds(stores[m], stores[m + 1], ids[m], titles[m], urls[m], notes[m], tags[m]));
        assert forall|i: int| 0 <= i < m implies after[i] == before[i] by {
            assert(after.drop_last()[i] == after[i]);
        }
        assert forall|i: int, j: int| 0 <= i < j < n implies ids[i] < ids[j] by {
            if j == m {
                assert(before[i].id == ids[i]);
                assert(stores.drop_last().last() == stores[m]);
                assert(before.last().id >= before[i].id) by {
                    if i < m - 1 {
                        assert(ids.drop_last()[i] < ids.drop_last()[m - 1]);
                    }
                }
                assert(ids[m] == next_id(before));
            } else {
                assert(ids.drop_last()[i] < ids.drop_last()[j]);
            }
        }
    }
}

/// Adding names that are all present already changes nothing.
pub proof fn lemma_add_new_known(acc: Seq<Seq<char>>, s: Seq<Seq<char>>)
    requires
        forall|i: int| 0 <= i < s.len() ==> acc.contains(#[trigger] s[i]),
    ensures
        add_new(acc, s) == acc,
    decreases s.len(),
{
    if s.len() > 0 {
        let p = s.drop_last();
        assert forall|i: int| 0 <= i < p.len() implies acc.contains(#[trigger] p[i]) by {
            assert(p[i] == s[i]);
        }
        lemma_add_new_known(acc, p);
        assert(acc.contains(s[s.len() - 1]));
    }
}

/// Every name of `s` is present after adding `s`.
pub proof fn lemma_add_new_holds_all(acc: Seq<Seq<char>>, s: Seq<Seq<char>>)
    ensures
        forall|i: int| 0 <= i < s.len() ==> add_new(acc, s).contains(#[trigger] s[i]),
    decreases s.len(),
{
    if s.len() > 0 {
        let p = s.drop_last();
        lemma_add_new_holds_all(acc, p);
        let prev = add_new(acc, p);
        assert forall|i: int| 0 <= i < s.len() implies add_new(acc, s).contains(#[trigger] s[i]) by {
            if i < p.len() {
                assert(p[i] == s[i]);
                let j = choose|j: int| 0 <= j < prev.len() && prev[j] == p[i];
                if !prev.contains(s.last()) {
                    assert(prev.push(s.last())[j] == prev[j]);
                }
            } else if !prev.contains(s.last()) {
                assert(prev.push(s.last())[prev.len() as int] == s.last());
            }
        }
    }
}

/// Adding the same names a second time adds nothing.
pub proof fn lemma_add_new_idempotent(acc: Seq<Seq<char>>, s: Seq<Seq<char>>)
    ensures
        add_new(add_new(acc, s), s) == add_new(acc, s),
{
    lemma_add_new_holds_all(acc, s);
    lemma_add_new_known(add_new(acc, s), s);
}

/// Linking a bookmark to the same tags twice: the second call is owed
/// success (no new tag id is needed), and it leaves the bookmarks, the tags
/// and the links exactly as the first call left them.
pub proof fn lemma_add_tags_twice(before: DB, once: DB, twice: DB, b: u32, tags: Seq<Seq<char>>)
    requires
        once.wf(),
        once.spec_tags() == add_new(before.spec_tags(), tags),
        once.tags_of(b) == add_new(before.tags_of(b), tags),
        twice.spec_rows() == once.spec_rows(),
        twice.spec_tags() == add_new(once.spec_tags(), tags),
        twice.tags_of(b) == add_new(once.tags_of(b), tags),
        twice.spec_links().len() == once.spec_links().len() + (twice.tags_of(b).len()
            - once.tags_of(b).len()),
        twice.spec_links().subrange(0, once.spec_links().len() as int) == once.spec_links(),
    ensures
        add_new(once.spec_tags(), tags).len() <= u32::MAX,
        twice.spec_rows() == once.spec_rows(),
        twice.spec_tags() == once.spec_tags(),
        twice.tags_of(b) == once.tags_of(b),
        twice.spec_links() == once.spec_links(),
{
    lemma_add_new_idempotent(before.spec_tags(), tags);
    lemma_add_new_idempotent(before.tags_of(b), tags);
    assert(twice.spec_links() =~= twice.spec_links().subrange(0, once.spec_links().len() as int));
}

} // verus!
