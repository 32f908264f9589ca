use syl::db::{Association, Bookmark, BookmarkRecord, Database, Error, MetaRow};
use syl::web::Metadata;

fn get_db() -> Database {
    Database::open(None).unwrap()
}

fn add_bookmark_no_meta(db: &mut Database, url: &str, tags: &Vec<String>) -> Bookmark {
    db.add_bookmark(url, Metadata { title: None, description: None }, tags)
        .unwrap()
}

fn tag_list(items: &[&str]) -> Vec<String> {
    items.iter().map(|t| t.to_string()).collect()
}

// rename_tag should create a new tag if necessary
#[test]
fn test_rename_tag_new() {
    let mut db = get_db();
    add_bookmark_no_meta(&mut db, "example.org/one", &tag_list(&["tag-one"]));

    let tags = db.get_tags(true, false).unwrap();
    assert_eq!(tags.len(), 1);
    assert_eq!(tags[0].0, "tag-one");
    db.rename_tag("tag-one", "tag-three").unwrap();
    let tags = db.get_tags(true, false).unwrap();
    assert_eq!(tags.len(), 1);
    assert_eq!(tags[0].0, "tag-three");
}

#[test]
fn test_rename_tag_existing() {
    let mut db = get_db();
    add_bookmark_no_meta(&mut db, "example.org/one", &tag_list(&["tag-one"]));
    add_bookmark_no_meta(&mut db, "example.org/two", &tag_list(&["tag-two"]));

    let tags = db.get_tags(true, false).unwrap();
    assert_eq!(tags.len(), 2);
    assert_eq!(tags[0].1, 1);
    assert_eq!(tags[1].1, 1);
    db.rename_tag("tag-one", "tag-two").unwrap();
    let tags = db.get_tags(true, false).unwrap();
    assert_eq!(tags.len(), 1);
    assert_eq!(tags[0].0, "tag-two");
    assert_eq!(tags[0].1, 2);
}

#[test]
fn test_rename_tag_nonexistent() {
    let mut db = get_db();
    db.rename_tag("tag-one", "tag-two").unwrap();
    let tags = db.get_tags(true, false).unwrap();
    assert_eq!(tags.len(), 0);

    add_bookmark_no_meta(&mut db, "example.org/two", &tag_list(&["tag-two"]));
    db.rename_tag("tag-one", "tag-two").unwrap();
    let tags = db.get_tags(true, false).unwrap();
    assert_eq!(tags.len(), 1);
}

#[test]
fn adding_same_url_twice_returns_same_id_and_discards_tags() {
    let mut db = get_db();
    let b1 = add_bookmark_no_meta(&mut db, "example.org/dup", &tag_list(&["first"]));
    let b2 = add_bookmark_no_meta(&mut db, "example.org/dup", &tag_list(&["second"]));
    assert_eq!(b1.id, b2.id);
    // the second call's tags were not merged into the stored record
    assert_eq!(b2.tags, tag_list(&["first"]));
    let by_second = db
        .search_bookmarks(&None, &tag_list(&["second"]), false)
        .unwrap();
    assert_eq!(by_second.len(), 0);
    let tags = db.get_tags(false, false).unwrap();
    assert_eq!(tags.len(), 1);
    assert_eq!(tags[0].0, "first");
}

#[test]
fn search_any_and_all_tag_modes() {
    let mut db = get_db();
    let b1 = add_bookmark_no_meta(&mut db, "example.org/b1", &tag_list(&["a", "b"]));
    let b2 = add_bookmark_no_meta(&mut db, "example.org/b2", &tag_list(&["a"]));
    let b3 = add_bookmark_no_meta(&mut db, "example.org/b3", &tag_list(&["b"]));

    let any = db
        .search_bookmarks(&None, &tag_list(&["a", "b"]), false)
        .unwrap();
    let mut any_ids: Vec<i64> = any.iter().map(|b| b.id).collect();
    any_ids.sort();
    assert_eq!(any_ids, vec![b1.id, b2.id, b3.id]);

    let all = db
        .search_bookmarks(&None, &tag_list(&["a", "b"]), true)
        .unwrap();
    assert_eq!(all.len(), 1);
    assert_eq!(all[0].id, b1.id);
}

#[test]
fn search_all_collapses_duplicate_requested_tags() {
    let mut db = get_db();
    let b = add_bookmark_no_meta(&mut db, "example.org/one-tag", &tag_list(&["a"]));
    // a duplicated requested tag must collapse before the ALL comparison
    let found = db
        .search_bookmarks(&None, &tag_list(&["a", "a"]), true)
        .unwrap();
    assert_eq!(found.len(), 1);
    assert_eq!(found[0].id, b.id);
}

#[test]
fn search_free_text_clause() {
    let mut db = get_db();
    db.add_bookmark(
        "example.org/rust",
        Metadata {
            title: Some("The Rust Book".to_string()),
            description: None,
        },
        &tag_list(&["read"]),
    )
    .unwrap();
    add_bookmark_no_meta(&mut db, "example.org/other", &tag_list(&["read"]));

    let by_title = db
        .search_bookmarks(&Some("Rust Book".to_string()), &vec![], false)
        .unwrap();
    assert_eq!(by_title.len(), 1);
    assert_eq!(by_title[0].url, "example.org/rust");

    let by_url = db
        .search_bookmarks(&Some("example.org".to_string()), &vec![], false)
        .unwrap();
    assert_eq!(by_url.len(), 2);

    let none = db
        .search_bookmarks(&Some("absent".to_string()), &vec![], false)
        .unwrap();
    assert_eq!(none.len(), 0);
}

#[test]
fn rename_tag_merges_without_duplicates() {
    let mut db = get_db();
    let b1 = add_bookmark_no_meta(&mut db, "example.org/b1", &tag_list(&["a", "b"]));
    add_bookmark_no_meta(&mut db, "example.org/b2", &tag_list(&["a"]));

    let updated = db.rename_tag("a", "b").unwrap();
    assert_eq!(updated, 2);

    // B1 holds exactly one association to "b": searching ALL ["b"] finds it once
    let found = db.search_bookmarks(&None, &tag_list(&["b"]), true).unwrap();
    assert_eq!(found.len(), 2);
    let one = found.iter().find(|x| x.id == b1.id).unwrap();
    assert_eq!(one.tags, tag_list(&["b"]));

    let tags = db.get_tags(false, false).unwrap();
    assert_eq!(tags.len(), 1);
    assert_eq!(tags[0].0, "b");
    assert_eq!(tags[0].1, 2);
}

#[test]
fn delete_removes_bookmarks_and_associations() {
    let mut db = get_db();
    let b1 = add_bookmark_no_meta(&mut db, "example.org/b1", &tag_list(&["a"]));
    let b2 = add_bookmark_no_meta(&mut db, "example.org/b2", &tag_list(&["a", "b"]));
    let b3 = add_bookmark_no_meta(&mut db, "example.org/b3", &tag_list(&["c"]));

    let removed = db.delete_bookmarks(&vec![b1.id, b2.id]).unwrap();
    assert_eq!(removed, 2);

    let rest = db.search_bookmarks(&None, &vec![], false).unwrap();
    assert_eq!(rest.len(), 1);
    assert_eq!(rest[0].id, b3.id);

    let by_a = db.search_bookmarks(&None, &tag_list(&["a"]), false).unwrap();
    assert_eq!(by_a.len(), 0);

    // tags left without associations no longer show up in the listing
    let tags = db.get_tags(false, false).unwrap();
    assert_eq!(tags.len(), 1);
    assert_eq!(tags[0].0, "c");
}

#[test]
fn delete_ignores_unknown_ids_and_empty_lists() {
    let mut db = get_db();
    let b = add_bookmark_no_meta(&mut db, "example.org/keep", &vec![]);
    assert_eq!(db.delete_bookmarks(&vec![]).unwrap(), 0);
    assert_eq!(db.delete_bookmarks(&vec![b.id + 100]).unwrap(), 0);
    assert_eq!(db.search_bookmarks(&None, &vec![], false).unwrap().len(), 1);
}

#[test]
fn open_fresh_initializes_version_zero_and_reopen_preserves() {
    let db = Database::open(None).unwrap();
    assert_eq!(db.schema_version(), 0);

    let mut db = db;
    add_bookmark_no_meta(&mut db, "example.org/persist", &tag_list(&["keep"]));
    let reopened = Database::open(Some(db)).unwrap();
    assert_eq!(reopened.schema_version(), 0);
    let found = reopened.search_bookmarks(&None, &vec![], false).unwrap();
    assert_eq!(found.len(), 1);
    assert_eq!(found[0].url, "example.org/persist");
    assert_eq!(found[0].tags, tag_list(&["keep"]));
}

#[test]
fn open_rejects_unparsable_version() {
    let meta = vec![MetaRow {
        key: "database_version".to_string(),
        value: "garbage".to_string(),
    }];
    let raw = Database::from_rows(vec![], vec![], vec![], meta, 1).unwrap();
    let r = Database::open(Some(raw));
    assert!(matches!(r, Err(Error::Schema)));
}

#[test]
fn from_rows_rejects_broken_constraints() {
    let rows = vec![
        BookmarkRecord {
            id: 1,
            url: "example.org/same".to_string(),
            title: None,
            description: None,
            created_at: 0,
        },
        BookmarkRecord {
            id: 2,
            url: "example.org/same".to_string(),
            title: None,
            description: None,
            created_at: 0,
        },
    ];
    let r = Database::from_rows(rows, vec![], vec![], vec![], 3);
    assert!(matches!(r, Err(Error::Storage)));

    let dangling = vec![Association {
        bookmark_id: 9,
        tag_name: "a".to_string(),
    }];
    let r2 = Database::from_rows(vec![], vec!["a".to_string()], dangling, vec![], 1);
    assert!(matches!(r2, Err(Error::Storage)));
}

#[test]
fn add_reports_storage_error_when_id_space_is_exhausted() {
    let meta = vec![MetaRow {
        key: "database_version".to_string(),
        value: "0".to_string(),
    }];
    let mut db = Database::from_rows(vec![], vec![], vec![], meta, i64::MAX).unwrap();
    let r = db.add_bookmark(
        "example.org/full",
        Metadata { title: None, description: None },
        &vec![],
    );
    assert!(matches!(r, Err(Error::Storage)));
}

#[test]
fn list_tags_orders_by_count_desc_with_name_tiebreak() {
    let mut db = get_db();
    add_bookmark_no_meta(&mut db, "example.org/1", &tag_list(&["zeta", "alpha"]));
    add_bookmark_no_meta(&mut db, "example.org/2", &tag_list(&["zeta", "alpha"]));
    add_bookmark_no_meta(&mut db, "example.org/3", &tag_list(&["midway"]));

    let tags = db.get_tags(true, true).unwrap();
    assert_eq!(
        tags,
        vec![
            ("alpha".to_string(), 2),
            ("zeta".to_string(), 2),
            ("midway".to_string(), 1)
        ]
    );

    let by_name = db.get_tags(false, false).unwrap();
    assert_eq!(
        by_name,
        vec![
            ("alpha".to_string(), 2),
            ("midway".to_string(), 1),
            ("zeta".to_string(), 2)
        ]
    );

    let by_name_rev = db.get_tags(false, true).unwrap();
    assert_eq!(
        by_name_rev,
        vec![
            ("zeta".to_string(), 2),
            ("midway".to_string(), 1),
            ("alpha".to_string(), 2)
        ]
    );
}

#[test]
fn migration_engine_lists_no_pending_steps_when_current() {
    let steps = Database::remaining_migrations(0);
    assert_eq!(steps.len(), 0);
    let steps = Database::remaining_migrations(7);
    assert_eq!(steps.len(), 0);
}

#[test]
fn rename_tag_to_itself_changes_nothing_but_counts_rows() {
    let mut db = get_db();
    add_bookmark_no_meta(&mut db, "example.org/self", &tag_list(&["a"]));
    let updated = db.rename_tag("a", "a").unwrap();
    assert_eq!(updated, 1);
    let tags = db.get_tags(false, false).unwrap();
    assert_eq!(tags, vec![("a".to_string(), 1)]);
}

#[test]
fn list_tags_ascending_count_breaks_ties_by_name() {
    let mut db = get_db();
    add_bookmark_no_meta(&mut db, "example.org/1", &tag_list(&["zeta", "alpha"]));
    add_bookmark_no_meta(&mut db, "example.org/2", &tag_list(&["zeta", "alpha"]));
    add_bookmark_no_meta(&mut db, "example.org/3", &tag_list(&["midway"]));
    let tags = db.get_tags(true, false).unwrap();
    assert_eq!(
        tags,
        vec![
            ("midway".to_string(), 1),
            ("alpha".to_string(), 2),
            ("zeta".to_string(), 2)
        ]
    );
}

#[test]
fn open_without_version_row_initializes_it_and_keeps_rows() {
    let rows = vec![BookmarkRecord {
        id: 1,
        url: "example.org/kept".to_string(),
        title: None,
        description: None,
        created_at: 7,
    }];
    let raw = Database::from_rows(rows, vec![], vec![], vec![], 2).unwrap();
    let db = Database::open(Some(raw)).unwrap();
    assert_eq!(db.schema_version(), 0);
    let found = db.search_bookmarks(&None, &vec![], false).unwrap();
    assert_eq!(found.len(), 1);
    assert_eq!(found[0].url, "example.org/kept");
}

#[test]
fn add_stores_distinct_tags_once_per_bookmark() {
    let mut db = get_db();
    let b = add_bookmark_no_meta(&mut db, "example.org/dups", &tag_list(&["x", "x", "y"]));
    // the returned record carries the tags as supplied
    assert_eq!(b.tags, tag_list(&["x", "x", "y"]));
    // but the stored associations collapse the duplicate
    let found = db.search_bookmarks(&None, &tag_list(&["x"]), false).unwrap();
    assert_eq!(found[0].tags, tag_list(&["x", "y"]));
    let tags = db.get_tags(false, false).unwrap();
    assert_eq!(
        tags,
        vec![("x".to_string(), 1), ("y".to_string(), 1)]
    );
}
