use bookie::bookmark::Bookmark;
use bookie::model::{BookmarkRow, LinkRow, TagRow};
use bookie::search::{any_match, joined_text, tag_match, text_match};
use bookie::store::{DbError, DB};

fn s(x: &str) -> String {
    x.to_string()
}

fn strings(xs: &[&str]) -> Vec<String> {
    xs.iter().map(|x| x.to_string()).collect()
}

fn test_db_setup() -> DB {
    let mut db = DB::new();
    let bm1 = Bookmark {
        id: 1,
        title: s("Wikipedia"),
        url: s("wikipedia.org"),
        notes: s(""),
        tags: strings(&["knowledge", "encyclopedia"]),
        date_added: s(""),
    };
    let _ = db.add_bookmark(&bm1.title, &bm1.url, &bm1.notes, &bm1.tags);
    let bm2 = Bookmark {
        id: 2,
        title: s("GitHub"),
        url: s("github.com"),
        notes: s("Where code lives"),
        tags: strings(&["programming", "Coding"]),
        date_added: s(""),
    };
    let _ = db.add_bookmark(&bm2.title, &bm2.url, &bm2.notes, &bm2.tags);
    db
}

#[test]
fn test_get_url_by_id() {
    let db = test_db_setup();
    let b = db.get_url_by_id(1);
    assert_eq!(Some(s("wikipedia.org")), b);
}

#[test]
fn test_bm_count() {
    let db = test_db_setup();
    assert_eq!(2, db.get_bookmark_count())
}

#[test]
fn test_delete_bookmark() {
    let mut db = test_db_setup();
    db.delete_bookmark(1);
    assert_eq!(1, db.get_bookmark_count());
}

#[test]
fn test_bookmark_exists() {
    let db = test_db_setup();
    assert!(db.bookmark_exists(1));
    assert!(!db.bookmark_exists(10));
}

#[test]
fn url_of_missing_id_is_none() {
    let db = test_db_setup();
    assert_eq!(None, db.get_url_by_id(10));
}

#[test]
fn add_then_get_by_id_collapses_repeated_tags() {
    let mut db = DB::new();
    let id = db
        .add_bookmark_at(
            &s("Rust"),
            &s("rust-lang.org"),
            &s("the book"),
            &strings(&["lang", "sys", "lang", "fast", "sys"]),
            s("2024-01-02 03:04:05"),
        )
        .unwrap();
    assert_eq!(1, id);
    let got = db.get_selected_bookmark(id);
    assert_eq!(1, got.len());
    let b = &got[0];
    assert_eq!(id, b.id);
    assert_eq!("Rust", b.title);
    assert_eq!("rust-lang.org", b.url);
    assert_eq!("the book", b.notes);
    assert_eq!("2024-01-02 03:04:05", b.date_added);
    assert_eq!(strings(&["lang", "sys", "fast"]), b.tags);
    assert_eq!(3, db.tag_rows().len());
    assert_eq!(3, db.link_rows().len());
}

#[test]
fn get_selected_of_missing_id_is_empty() {
    let db = test_db_setup();
    assert!(db.get_selected_bookmark(7).is_empty());
}

#[test]
fn add_with_no_tags_links_nothing() {
    let mut db = DB::new();
    let id = db.add_bookmark(&s(""), &s("example.com"), &s(""), &Vec::new()).unwrap();
    assert!(db.get_tags(id).is_empty());
    assert!(db.tag_rows().is_empty());
    assert!(db.link_rows().is_empty());
    assert_eq!("", db.get_selected_bookmark(id)[0].title);
}

#[test]
fn add_records_a_timestamp() {
    let mut db = DB::new();
    let id = db.add_bookmark(&s("t"), &s("u"), &s("n"), &Vec::new()).unwrap();
    let date = db.get_selected_bookmark(id)[0].date_added.clone();
    assert_eq!(19, date.len());
    assert_eq!(Some('-'), date.chars().nth(4));
    assert_eq!(Some(' '), date.chars().nth(10));
    assert_eq!(Some(':'), date.chars().nth(13));
}

#[test]
fn duplicate_url_is_reported_and_changes_nothing() {
    let mut db = DB::new();
    let first = db.add_bookmark(&s("a"), &s("same.org"), &s(""), &strings(&["x"]));
    assert_eq!(Ok(1), first);
    let second = db.add_bookmark(&s("b"), &s("same.org"), &s("other"), &strings(&["y"]));
    assert_eq!(Err(DbError::DuplicateUrl), second);
    assert_eq!(1, db.get_bookmark_count());
    assert_eq!(1, db.tag_rows().len());
    assert_eq!(1, db.link_rows().len());
}

#[test]
fn delete_removes_bookmark_and_its_links() {
    let mut db = test_db_setup();
    db.delete_bookmark(1);
    let all = db.get_all_bookmarks();
    assert_eq!(1, all.len());
    assert_eq!(2, all[0].id);
    assert!(db.link_rows().iter().all(|l| l.bookmark_id != 1));
    assert_eq!(2, db.link_rows().len());
    assert!(db.get_tags(1).is_empty());
    // the same tags again, on a new bookmark: no link is left over
    let id = db
        .add_bookmark(&s("Wikipedia"), &s("wikipedia.org"), &s(""), &strings(&["knowledge", "encyclopedia"]))
        .unwrap();
    assert_eq!(3, id);
    assert_eq!(strings(&["knowledge", "encyclopedia"]), db.get_tags(id));
    assert_eq!(4, db.link_rows().len());
    assert_eq!(4, db.tag_rows().len());
}

#[test]
fn delete_of_missing_id_keeps_count() {
    let mut db = test_db_setup();
    db.delete_bookmark(99);
    assert_eq!(2, db.get_bookmark_count());
    assert_eq!(4, db.link_rows().len());
}

#[test]
fn id_of_deleted_last_bookmark_is_reused() {
    let mut db = test_db_setup();
    db.delete_bookmark(2);
    let id = db.add_bookmark(&s("x"), &s("x.org"), &s(""), &Vec::new()).unwrap();
    assert_eq!(2, id);
}

#[test]
fn shared_tag_makes_one_tag_row_and_two_links() {
    let mut db = DB::new();
    db.add_bookmark(&s("one"), &s("one.org"), &s(""), &strings(&["shared"])).unwrap();
    db.add_bookmark(&s("two"), &s("two.org"), &s(""), &strings(&["shared"])).unwrap();
    let tags = db.tag_rows();
    assert_eq!(1, tags.len());
    assert_eq!(1, tags[0].id);
    assert_eq!("shared", tags[0].name);
    assert_eq!(
        vec![LinkRow { bookmark_id: 1, tag_id: 1 }, LinkRow { bookmark_id: 2, tag_id: 1 }],
        *db.link_rows()
    );
}

#[test]
fn tag_names_are_case_sensitive() {
    let mut db = DB::new();
    db.add_bookmark(&s("a"), &s("a.org"), &s(""), &strings(&["Rust", "rust"])).unwrap();
    assert_eq!(2, db.tag_rows().len());
}

fn search_store() -> DB {
    let mut db = DB::new();
    db.add_bookmark(&s("P"), &s("p.org"), &s(""), &strings(&["programming"])).unwrap();
    db.add_bookmark(&s("B"), &s("b.org"), &s(""), &strings(&["basics"])).unwrap();
    db.add_bookmark(&s("M"), &s("m.org"), &s(""), &strings(&["music"])).unwrap();
    db
}

#[test]
fn search_by_tag_matches_any_pattern_in_id_order() {
    let db = search_store();
    let found = db.search_by_tag(vec!["program", "basi"]).unwrap();
    let ids: Vec<u32> = found.iter().map(|b| b.id).collect();
    assert_eq!(vec![1, 2], ids);
    assert_eq!(strings(&["programming"]), found[0].tags);
}

#[test]
fn search_by_tag_without_match_is_empty() {
    let db = search_store();
    assert!(db.search_by_tag(vec!["jazz"]).unwrap().is_empty());
    assert!(db.search_by_tag(vec!["Music"]).unwrap().is_empty());
}

#[test]
fn search_by_tag_lists_each_bookmark_once() {
    let mut db = DB::new();
    db.add_bookmark(&s("t"), &s("t.org"), &s(""), &strings(&["rust", "rustacean"])).unwrap();
    let found = db.search_by_tag(vec!["rust", "ace"]).unwrap();
    assert_eq!(1, found.len());
}

#[test]
fn search_by_tag_without_patterns_is_an_error() {
    let db = search_store();
    assert_eq!(Err(DbError::NoSearchTerms), db.search_by_tag(Vec::new()).map(|v| v.len()));
}

#[test]
fn search_text_finds_url_and_title() {
    let mut db = DB::new();
    db.add_bookmark(&s("Wikipedia"), &s("wikipedia.org"), &s(""), &Vec::new()).unwrap();
    let found = db.search(strings(&["wiki"])).unwrap();
    assert_eq!(1, found.len());
    assert_eq!("wikipedia.org", found[0].url);
    assert_eq!(Err(DbError::NoSearchTerms), db.search(Vec::new()).map(|v| v.len()));
}

#[test]
fn search_text_skips_notes_and_unmatched() {
    let db = test_db_setup();
    assert!(db.search(strings(&["Where code"])).unwrap().is_empty());
    let found = db.search(strings(&["Coding", "nothing"])).unwrap();
    assert_eq!(1, found.len());
    assert_eq!(2, found[0].id);
}

#[test]
fn search_text_may_match_across_fields() {
    let mut db = DB::new();
    db.add_bookmark(&s("Zed"), &s("z.org"), &s(""), &strings(&["ab"])).unwrap();
    // "bZ" spans the end of the tag and the start of the title
    assert_eq!(1, db.search(strings(&["bZ"])).unwrap().len());
    assert_eq!(1, db.search(strings(&["Zedz.o"])).unwrap().len());
}

#[test]
fn text_helpers() {
    let text = joined_text("a", &s("T"), &s("u.org"));
    assert_eq!("aTu.org", text);
    assert!(text_match(&strings(&["ab", "cd"]), &s("ef"), &s("u"), &strings(&["def"])));
    assert!(text_match(&Vec::new(), &s("ef"), &s("u"), &strings(&["fu"])));
    assert!(!text_match(&strings(&["ab", "cd"]), &s("ef"), &s("u"), &strings(&["bc"])));
    assert!(any_match("hello", &strings(&["zz", "ell"])));
    assert!(!any_match("hello", &strings(&["zz", "hello!"])));
    assert!(!any_match("hello", &Vec::new()));
    assert!(tag_match(&strings(&["x", "music"]), &strings(&["us"])));
    assert!(!tag_match(&strings(&["x", "music"]), &strings(&["sum"])));
}

#[test]
fn all_bookmarks_come_back_in_insertion_order() {
    let mut db = DB::new();
    let urls = ["a.org", "b.org", "c.org", "d.org", "e.org"];
    let mut ids = Vec::new();
    for u in urls.iter() {
        ids.push(db.add_bookmark(&s("t"), &s(u), &s(""), &strings(&["k"])).unwrap());
    }
    let all = db.get_all_bookmarks();
    assert_eq!(urls.len(), all.len());
    for (i, b) in all.iter().enumerate() {
        assert_eq!(ids[i], b.id);
        assert_eq!(urls[i], b.url);
        assert_eq!(strings(&["k"]), b.tags);
    }
    assert_eq!(vec![1, 2, 3, 4, 5], ids);
}

fn row(id: u32, url: &str) -> BookmarkRow {
    BookmarkRow { id, title: s("t"), url: s(url), notes: s(""), date_added: s("2020-01-01 00:00:00") }
}

fn tag(id: u32, name: &str) -> TagRow {
    TagRow { id, name: s(name) }
}

#[test]
fn from_rows_loads_a_valid_store() {
    let db = DB::from_rows(
        vec![row(3, "a.org"), row(7, "b.org")],
        vec![tag(1, "x"), tag(2, "y")],
        vec![LinkRow { bookmark_id: 7, tag_id: 2 }, LinkRow { bookmark_id: 7, tag_id: 1 }],
    )
    .unwrap();
    assert_eq!(2, db.get_bookmark_count());
    assert_eq!(strings(&["y", "x"]), db.get_tags(7));
    assert!(db.get_tags(3).is_empty());
    let mut db = db;
    assert_eq!(Ok(8), db.add_bookmark(&s("n"), &s("c.org"), &s(""), &strings(&["y", "z"])));
    let tags = db.tag_rows();
    assert_eq!(3, tags[2].id);
    assert_eq!("z", tags[2].name);
}

#[test]
fn from_rows_rejects_broken_rows() {
    let bad = Err(DbError::IntegrityViolation);
    let link = |b: u32, t: u32| LinkRow { bookmark_id: b, tag_id: t };
    assert_eq!(bad, DB::from_rows(vec![row(2, "a"), row(2, "b")], vec![], vec![]).map(|_| ()));
    assert_eq!(bad, DB::from_rows(vec![row(3, "a"), row(2, "b")], vec![], vec![]).map(|_| ()));
    assert_eq!(bad, DB::from_rows(vec![row(1, "a"), row(2, "a")], vec![], vec![]).map(|_| ()));
    assert_eq!(bad, DB::from_rows(vec![], vec![tag(2, "x")], vec![]).map(|_| ()));
    assert_eq!(bad, DB::from_rows(vec![], vec![tag(1, "x"), tag(2, "x")], vec![]).map(|_| ()));
    assert_eq!(bad, DB::from_rows(vec![row(1, "a")], vec![tag(1, "x")], vec![link(2, 1)]).map(|_| ()));
    assert_eq!(bad, DB::from_rows(vec![row(1, "a")], vec![tag(1, "x")], vec![link(1, 2)]).map(|_| ()));
    assert_eq!(bad, DB::from_rows(vec![row(1, "a")], vec![tag(1, "x")], vec![link(1, 0)]).map(|_| ()));
    assert_eq!(
        bad,
        DB::from_rows(vec![row(1, "a")], vec![tag(1, "x")], vec![link(1, 1), link(1, 1)]).map(|_| ())
    );
}

#[test]
fn full_id_space_is_reported() {
    let mut db = DB::from_rows(vec![row(u32::MAX, "a.org")], vec![], vec![]).unwrap();
    assert_eq!(Err(DbError::StoreFull), db.add_bookmark(&s("t"), &s("b.org"), &s(""), &Vec::new()));
    assert_eq!(Err(DbError::DuplicateUrl), db.add_bookmark(&s("t"), &s("a.org"), &s(""), &Vec::new()));
    assert_eq!(1, db.get_bookmark_count());
}

#[test]
fn new_bookmark_holds_its_fields() {
    let b = Bookmark::new(4, s("T"), s("u"), s("n"), strings(&["a"]), s("d"));
    assert_eq!(4, b.id);
    assert_eq!("T", b.title);
    assert_eq!("u", b.url);
    assert_eq!("n", b.notes);
    assert_eq!(strings(&["a"]), b.tags);
    assert_eq!("d", b.date_added);
}

#[test]
fn add_tags_links_by_url_and_is_idempotent() {
    let mut db = test_db_setup();
    let tags = strings(&["wiki", "knowledge", "wiki"]);
    assert_eq!(Ok(()), db.add_tags(&tags, &s("wikipedia.org")));
    assert_eq!(strings(&["knowledge", "encyclopedia", "wiki"]), db.get_tags(1));
    assert_eq!(5, db.tag_rows().len());
    let links = db.link_rows().clone();
    assert_eq!(
        vec![
            LinkRow { bookmark_id: 1, tag_id: 1 },
            LinkRow { bookmark_id: 1, tag_id: 2 },
            LinkRow { bookmark_id: 2, tag_id: 3 },
            LinkRow { bookmark_id: 2, tag_id: 4 },
            LinkRow { bookmark_id: 1, tag_id: 5 },
        ],
        links
    );
    assert_eq!(Ok(()), db.add_tags(&tags, &s("wikipedia.org")));
    assert_eq!(links, *db.link_rows());
    assert_eq!(5, db.tag_rows().len());
    assert_eq!(5, db.link_rows().len());
    assert_eq!(strings(&["programming", "Coding"]), db.get_tags(2));
}

#[test]
fn add_tags_to_unknown_url_is_an_error() {
    let mut db = test_db_setup();
    assert_eq!(Err(DbError::NoSuchBookmark), db.add_tags(&strings(&["x"]), &s("nowhere.org")));
    assert_eq!(4, db.tag_rows().len());
}

#[test]
fn search_text_tries_each_tag_on_its_own() {
    let mut db = DB::new();
    db.add_bookmark(&s(""), &s("u"), &s(""), &strings(&["ab", "cd"])).unwrap();
    assert!(db.search(strings(&["bc"])).unwrap().is_empty());
    assert_eq!(1, db.search(strings(&["cdu"])).unwrap().len());
    let mut db = DB::new();
    db.add_bookmark(&s("ef"), &s("u"), &s(""), &strings(&["ab", "cd"])).unwrap();
    assert_eq!(1, db.search(strings(&["bef"])).unwrap().len());
    assert_eq!(1, db.search(strings(&["def"])).unwrap().len());
}

#[test]
fn search_text_lists_each_bookmark_once() {
    let mut db = DB::new();
    db.add_bookmark(&s("wiki"), &s("wiki.org"), &s(""), &strings(&["wikis", "mywiki"])).unwrap();
    let found = db.search(strings(&["wiki", "org"])).unwrap();
    assert_eq!(1, found.len());
}
