//! The bookmark store: an in-memory relational model of the on-disk
//! schema (bookmark, tag, bookmark_tag, syl_meta), with verified
//! versioning, search, tag lifecycle and deletion logic. Persistence of
//! these tables to a database file is the embedding program's concern.

use vstd::prelude::*;
use vstd::string::{StrSliceExecFns, StringExecFns};

use crate::colors::{color, colored, Color};
use crate::decimal::{all_digits, dec_of, dec_value, lemma_dec_of_value, parse_decimal,
    format_decimal};
use crate::util::{clone_opt_string, clone_string_vec, lemma_lex_asym, lemma_lex_total,
    lemma_lex_trans, lex_le, lex_lt, lex_lt_str, str_eq};
use crate::web::Metadata;

verus! {

/// The error taxonomy shared by the store and both adapters: storage
/// engine failures, network transport failures, malformed payloads, and
/// corrupt schema metadata (fatal at startup).
#[derive(Clone, Copy, Debug, PartialEq, Eq, Structural)]
pub enum Error {
    Storage,
    Transport,
    Serialization,
    Schema,
}

/// A bookmark as callers see it: the record joined with its tag names.
#[derive(Clone, Debug, PartialEq)]
pub struct Bookmark {
    pub id: i64,
    pub url: String,
    pub title: Option<String>,
    pub description: Option<String>,
    pub tags: Vec<String>,
}

/// A row of the bookmark table.
#[derive(Clone, Debug)]
pub struct BookmarkRecord {
    pub id: i64,
    pub url: String,
    pub title: Option<String>,
    pub description: Option<String>,
    pub created_at: i64,
}

/// A row of the bookmark_tag association table.
#[derive(Clone, Debug)]
pub struct Association {
    pub bookmark_id: i64,
    pub tag_name: String,
}

/// A row of the syl_meta table.
#[derive(Clone, Debug)]
pub struct MetaRow {
    pub key: String,
    pub value: String,
}

/// Mathematical image of a Bookmark.
#[verifier::ext_equal]
pub struct BookmarkView {
    pub id: int,
    pub url: Seq<char>,
    pub title: Option<Seq<char>>,
    pub description: Option<Seq<char>>,
    pub tags: Seq<Seq<char>>,
}

/// Mathematical image of a bookmark row.
#[verifier::ext_equal]
pub struct RecordView {
    pub id: int,
    pub url: Seq<char>,
    pub title: Option<Seq<char>>,
    pub description: Option<Seq<char>>,
    pub created_at: int,
}

/// Mathematical image of an association row.
#[verifier::ext_equal]
pub struct AssocView {
    pub bookmark_id: int,
    pub tag_name: Seq<char>,
}

/// Mathematical image of a meta row.
#[verifier::ext_equal]
pub struct MetaView {
    pub key: Seq<char>,
    pub value: Seq<char>,
}

impl View for Bookmark {
    type V = BookmarkView;

    open spec fn view(&self) -> BookmarkView {
        BookmarkView {
            id: self.id as int,
            url: self.url@,
            title: self.title.deep_view(),
            description: self.description.deep_view(),
            tags: self.tags.deep_view(),
        }
    }
}

impl View for BookmarkRecord {
    type V = RecordView;

    open spec fn view(&self) -> RecordView {
        RecordView {
            id: self.id as int,
            url: self.url@,
            title: self.title.deep_view(),
            description: self.description.deep_view(),
            created_at: self.created_at as int,
        }
    }
}

impl View for Association {
    type V = AssocView;

    open spec fn view(&self) -> AssocView {
        AssocView { bookmark_id: self.bookmark_id as int, tag_name: self.tag_name@ }
    }
}

impl View for MetaRow {
    type V = MetaView;

    open spec fn view(&self) -> MetaView {
        MetaView { key: self.key@, value: self.value@ }
    }
}

/// Mathematical image of the whole store.
#[verifier::ext_equal]
pub struct DbView {
    pub bookmarks: Seq<RecordView>,
    pub tags: Seq<Seq<char>>,
    pub associations: Seq<AssocView>,
    pub meta: Seq<MetaView>,
    pub next_id: int,
}

/// The key of the schema version row in syl_meta.
pub open spec fn version_key() -> Seq<char> {
    "database_version"@
}

/// The first value stored under `key`, scanning front to back.
pub open spec fn meta_lookup(meta: Seq<MetaView>, key: Seq<char>) -> Option<Seq<char>>
    decreases meta.len(),
{
    if meta.len() == 0 {
        None
    } else if meta.first().key == key {
        Some(meta.first().value)
    } else {
        meta_lookup(meta.drop_first(), key)
    }
}

/// `meta` with the value under `key` replaced, or a new row appended if
/// the key is absent.
pub open spec fn meta_set(meta: Seq<MetaView>, key: Seq<char>, value: Seq<char>) -> Seq<MetaView>
    decreases meta.len(),
{
    if meta.len() == 0 {
        seq![MetaView { key, value }]
    } else if meta.first().key == key {
        seq![MetaView { key, value }] + meta.drop_first()
    } else {
        seq![meta.first()] + meta_set(meta.drop_first(), key, value)
    }
}

/// A digit string that names a schema version: non-empty, all digits,
/// and within the machine's integer range.
pub open spec fn valid_version_string(s: Seq<char>) -> bool {
    s.len() >= 1 && all_digits(s) && dec_value(s) <= usize::MAX
}

impl DbView {
    /// The id of some bookmark row.
    pub open spec fn has_bookmark_id(self, id: int) -> bool {
        exists|i: int| 0 <= i < self.bookmarks.len() && self.bookmarks[i].id == id
    }

    /// The url of some bookmark row.
    pub open spec fn has_url(self, url: Seq<char>) -> bool {
        exists|i: int| 0 <= i < self.bookmarks.len() && self.bookmarks[i].url == url
    }

    /// The association table holds the pair (id, tag).
    pub open spec fn has_assoc(self, id: int, tag: Seq<char>) -> bool {
        self.associations.contains(AssocView { bookmark_id: id, tag_name: tag })
    }

    /// Uniqueness of ids, urls, tag names, association pairs and meta
    /// keys, referential integrity of associations, and ids below the
    /// id counter: the constraints the schema declares.
    pub open spec fn tables_wf(self) -> bool {
        &&& forall|i: int, j: int|
            0 <= i < j < self.bookmarks.len() ==> self.bookmarks[i].id != self.bookmarks[j].id
        &&& forall|i: int, j: int|
            0 <= i < j < self.bookmarks.len() ==> self.bookmarks[i].url != self.bookmarks[j].url
        &&& forall|i: int, j: int| 0 <= i < j < self.tags.len() ==> self.tags[i] != self.tags[j]
        &&& forall|i: int, j: int|
            0 <= i < j < self.associations.len() ==> self.associations[i] != self.associations[j]
        &&& forall|k: int|
            0 <= k < self.associations.len() ==> self.tags.contains(
                #[trigger] self.associations[k].tag_name,
            ) && self.has_bookmark_id(self.associations[k].bookmark_id)
        &&& forall|i: int|
            0 <= i < self.bookmarks.len() ==> 0 < #[trigger] self.bookmarks[i].id < self.next_id
        &&& forall|i: int, j: int|
            0 <= i < j < self.meta.len() ==> self.meta[i].key != self.meta[j].key
        &&& self.next_id >= 1
    }

    /// The raw value of the schema version row, if present.
    pub open spec fn version_string(self) -> Option<Seq<char>> {
        meta_lookup(self.meta, version_key())
    }

    /// Well-formed store: table constraints plus a parsable version row.
    pub open spec fn wf(self) -> bool {
        &&& self.tables_wf()
        &&& self.version_string() matches Some(s) && valid_version_string(s)
    }

    /// The stored schema version.
    pub open spec fn version(self) -> nat {
        dec_value(self.version_string().unwrap())
    }
}

/// The newest schema version this build knows; the migration list below
/// upgrades any older store to it.
pub const LATEST_VERSION: usize = 0;

/// The version an open store ends at when it starts at `v`: migrations
/// only ever move the version forward.
pub open spec fn upgraded_version(v: nat) -> nat {
    if v < LATEST_VERSION { LATEST_VERSION as nat } else { v }
}

/// The view of a store freshly initialized at schema version `v`: empty
/// tables and the single meta row recording `v`.
pub open spec fn fresh_db(v: nat) -> DbView {
    DbView {
        bookmarks: Seq::empty(),
        tags: Seq::empty(),
        associations: Seq::empty(),
        meta: seq![MetaView { key: version_key(), value: dec_of(v) }],
        next_id: 1,
    }
}

/// The in-memory store. All mutating operations preserve `wf` of the
/// view; the embedding program persists and reloads the tables.
pub struct Database {
    bookmarks: Vec<BookmarkRecord>,
    tags: Vec<String>,
    associations: Vec<Association>,
    meta: Vec<MetaRow>,
    next_id: i64,
}

impl View for Database {
    type V = DbView;

    closed spec fn view(&self) -> DbView {
        DbView {
            bookmarks: self.bookmarks@.map_values(|r: BookmarkRecord| r@),
            tags: self.tags@.map_values(|t: String| t@),
            associations: self.associations@.map_values(|a: Association| a@),
            meta: self.meta@.map_values(|m: MetaRow| m@),
            next_id: self.next_id as int,
        }
    }
}

proof fn lemma_meta_set_found(meta: Seq<MetaView>, key: Seq<char>, value: Seq<char>, i: int)
    requires
        0 <= i < meta.len(),
        meta[i].key == key,
        forall|j: int| 0 <= j < i ==> meta[j].key != key,
    ensures
        meta_set(meta, key, value) =~= meta.update(i, MetaView { key, value }),
    decreases i,
{
    if i == 0 {
        assert(meta.first().key == key);
    } else {
        assert(meta.drop_first()[i - 1].key == key);
        lemma_meta_set_found(meta.drop_first(), key, value, i - 1);
        assert(meta_set(meta, key, value) =~= seq![meta.first()] + meta.drop_first().update(
            i - 1,
            MetaView { key, value },
        ));
    }
}

proof fn lemma_meta_set_absent(meta: Seq<MetaView>, key: Seq<char>, value: Seq<char>)
    requires
        forall|j: int| 0 <= j < meta.len() ==> meta[j].key != key,
    ensures
        meta_set(meta, key, value) =~= meta.push(MetaView { key, value }),
    decreases meta.len(),
{
    if meta.len() > 0 {
        lemma_meta_set_absent(meta.drop_first(), key, value);
    }
}

proof fn lemma_meta_lookup_found(meta: Seq<MetaView>, key: Seq<char>, i: int)
    requires
        0 <= i < meta.len(),
        meta[i].key == key,
        forall|j: int| 0 <= j < i ==> meta[j].key != key,
    ensures
        meta_lookup(meta, key) == Some(meta[i].value),
    decreases i,
{
    if i > 0 {
        assert(meta.drop_first()[i - 1].key == key);
        lemma_meta_lookup_found(meta.drop_first(), key, i - 1);
    }
}

proof fn lemma_meta_lookup_absent(meta: Seq<MetaView>, key: Seq<char>)
    requires
        forall|j: int| 0 <= j < meta.len() ==> meta[j].key != key,
    ensures
        meta_lookup(meta, key) is None,
    decreases meta.len(),
{
    if meta.len() > 0 {
        lemma_meta_lookup_absent(meta.drop_first(), key);
    }
}

impl Database {
    /// The index of the first meta row whose key is `key`.
    fn meta_find(&self, key: &str) -> (r: Option<usize>)
        ensures
            r matches Some(i) ==> 0 <= i < self@.meta.len() && self@.meta[i as int].key == key@
                && (forall|j: int| 0 <= j < i ==> self@.meta[j].key != key@),
            r is None ==> forall|j: int| 0 <= j < self@.meta.len() ==> self@.meta[j].key != key@,
    {
        let mut i: usize = 0;
        let n = self.meta.len();
        while i < n
            invariant
                n == self.meta.len(),
                0 <= i <= n,
                self@.meta.len() == n,
                forall|j: int| 0 <= j < i ==> self@.meta[j].key != key@,
                forall|j: int| 0 <= j < n ==> self@.meta[j] == self.meta@[j]@,
            decreases n - i,
        {
            if str_eq(self.meta[i].key.as_str(), key) {
                return Some(i);
            }
            i = i + 1;
        }
        None
    }

    /// The value stored under `key` in syl_meta, if any.
    fn meta_get(&self, key: &str) -> (r: Option<String>)
        ensures
            r.deep_view() == meta_lookup(self@.meta, key@),
    {
        match self.meta_find(key) {
            Some(i) => {
                proof {
                    lemma_meta_lookup_found(self@.meta, key@, i as int);
                }
                Some(self.meta[i].value.clone())
            },
            None => {
                proof {
                    lemma_meta_lookup_absent(self@.meta, key@);
                }
                None
            },
        }
    }

    /// Writes `value` under `key` in syl_meta, replacing an existing row
    /// or appending a new one.
    fn meta_put(&mut self, key: &str, value: String)
        requires
            old(self)@.tables_wf(),
        ensures
            final(self)@.tables_wf(),
            final(self)@.meta =~= meta_set(old(self)@.meta, key@, value@),
            final(self)@.bookmarks == old(self)@.bookmarks,
            final(self)@.tags == old(self)@.tags,
            final(self)@.associations == old(self)@.associations,
            final(self)@.next_id == old(self)@.next_id,
            meta_lookup(final(self)@.meta, key@) == Some(value@),
    {
        let ghost pre = self@;
        let ghost oldmeta = self@.meta;
        match self.meta_find(key) {
            Some(i) => {
                let row = MetaRow { key: self.meta[i].key.clone(), value };
                proof {
                    lemma_meta_set_found(oldmeta, key@, value@, i as int);
                }
                self.meta.set(i, row);
                proof {
                    assert(self@.meta =~= oldmeta.update(i as int, MetaView { key: key@, value: value@ }));
                    assert(forall|j: int|
                        0 <= j < self@.meta.len() ==> #[trigger] self@.meta[j].key
                            == oldmeta[j].key);
                    assert(self@.tags == pre.tags);
                    assert(self@.associations == pre.associations);
                    assert(self@.bookmarks == pre.bookmarks);
                    assert(self@.next_id == pre.next_id);
                    lemma_meta_lookup_found(self@.meta, key@, i as int);
                    assert(self@.tables_wf());
                }
            },
            None => {
                let row = MetaRow { key: key.to_owned(), value };
                proof {
                    lemma_meta_set_absent(oldmeta, key@, value@);
                }
                self.meta.push(row);
                proof {
                    assert(self@.meta =~= oldmeta.push(MetaView { key: key@, value: value@ }));
                    assert(forall|j: int|
                        0 <= j < oldmeta.len() ==> #[trigger] self@.meta[j].key == oldmeta[j].key);
                    assert(self@.meta.last().key == key@);
                    assert(self@.tags == pre.tags);
                    assert(self@.associations == pre.associations);
                    assert(self@.bookmarks == pre.bookmarks);
                    assert(self@.next_id == pre.next_id);
                    lemma_meta_lookup_found(self@.meta, key@, oldmeta.len() as int);
                    assert(self@.tables_wf());
                }
            },
        }
    }

    /// A store freshly initialized at schema version 0: the four empty
    /// tables and the meta row recording version 0, exactly what
    /// first-time initialization creates.
    pub fn initialize() -> (db: Database)
        ensures
            db@ =~= fresh_db(0),
            db@.wf(),
    {
        let mut meta: Vec<MetaRow> = Vec::new();
        meta.push(MetaRow { key: String::from_str("database_version"), value: format_decimal(0) });
        let db = Database {
            bookmarks: Vec::new(),
            tags: Vec::new(),
            associations: Vec::new(),
            meta,
            next_id: 1,
        };
        proof {
            lemma_dec_of_value(0);
            assert(db@.meta =~= seq![MetaView { key: version_key(), value: dec_of(0) }]);
            assert(db@.bookmarks =~= Seq::<RecordView>::empty());
            assert(db@.tags =~= Seq::<Seq<char>>::empty());
            assert(db@.associations =~= Seq::<AssocView>::empty());
        }
        db
    }

    /// The ordered list of upgrade steps still to run for a store at
    /// `current`: one step per version from `current` up to the newest.
    pub fn remaining_migrations(current: usize) -> (r: Vec<usize>)
        ensures
            current >= LATEST_VERSION ==> r@.len() == 0,
            current < LATEST_VERSION ==> r@.len() == LATEST_VERSION - current,
            forall|i: int| 0 <= i < r@.len() ==> r@[i] == current + i,
    {
        let mut r: Vec<usize> = Vec::new();
        let mut v = current;
        while v < LATEST_VERSION
            invariant
                current <= v,
                v <= LATEST_VERSION || v == current,
                r@.len() == v - current,
                forall|i: int| 0 <= i < r@.len() ==> r@[i] == current + i,
            decreases LATEST_VERSION - v,
        {
            r.push(v);
            v = v + 1;
        }
        r
    }

    /// Applies every upgrade step from `current_version` up to the
    /// newest known version, each as one atomic unit, recording the new
    /// version after each step; a store already current is untouched.
    pub fn migrate(&mut self, current_version: usize) -> (r: Result<(), Error>)
        requires
            old(self)@.tables_wf(),
        ensures
            r is Ok,
            final(self)@.tables_wf(),
            final(self)@.bookmarks == old(self)@.bookmarks,
            final(self)@.tags == old(self)@.tags,
            final(self)@.associations == old(self)@.associations,
            final(self)@.next_id == old(self)@.next_id,
            current_version >= LATEST_VERSION ==> final(self)@.meta == old(self)@.meta,
            current_version < LATEST_VERSION ==> final(self)@.meta =~= meta_set(
                old(self)@.meta,
                version_key(),
                dec_of(LATEST_VERSION as nat),
            ),
    {
        let steps = Self::remaining_migrations(current_version);
        let n = steps.len();
        let mut k: usize = 0;
        while k < n
            invariant
                old(self)@.tables_wf(),
                self@.tables_wf(),
                n == steps@.len(),
                0 <= k <= n,
                n > 0 ==> current_version < LATEST_VERSION && n == LATEST_VERSION - current_version,
                forall|i: int| 0 <= i < n ==> steps@[i] == current_version + i,
                self@.bookmarks == old(self)@.bookmarks,
                self@.tags == old(self)@.tags,
                self@.associations == old(self)@.associations,
                self@.next_id == old(self)@.next_id,
                k == 0 ==> self@.meta == old(self)@.meta,
                k > 0 ==> self@.meta =~= meta_set(
                    old(self)@.meta,
                    version_key(),
                    dec_of((current_version + k) as nat),
                ),
            decreases n - k,
        {
            // Each upgrade step would alter the tables here; the step
            // list is append-only and currently empty. Recording the
            // reached version is the step's final, atomic effect.
            let reached = steps[k] + 1;
            let ghost premeta = self@.meta;
            self.meta_put("database_version", format_decimal(reached));
            proof {
                if k > 0 {
                    lemma_meta_set_twice(old(self)@.meta, version_key(),
                        dec_of((current_version + k) as nat), dec_of(reached as nat));
                }
            }
            k = k + 1;
        }
        Ok(())
    }

    /// Opens a store: absent contents are initialized from scratch at
    /// version 0 and upgraded; present contents have their stored
    /// version parsed (an unparsable version is a fatal schema error)
    /// and are upgraded from it, all rows preserved. Opening an
    /// already-current store changes nothing.
    pub fn open(contents: Option<Database>) -> (r: Result<Database, Error>)
        requires
            contents matches Some(db) ==> db@.tables_wf(),
        ensures
            r matches Err(e) ==> e == Error::Schema,
            r is Err <==> (contents matches Some(db) && db@.version_string() matches Some(s)
                && !valid_version_string(s)),
            contents is None ==> (r matches Ok(d) && d@ =~= fresh_db(upgraded_version(0))),
            contents matches Some(db) ==> (db@.version_string() is None ==> (r matches Ok(d)
                && d@.bookmarks == db@.bookmarks && d@.tags == db@.tags && d@.associations
                == db@.associations && d@.next_id == db@.next_id && d@.wf() && d@.version()
                == upgraded_version(0))),
            contents matches Some(db) ==> (db@.version_string() matches Some(s) ==> (
            valid_version_string(s) ==> (r matches Ok(d) && d@.bookmarks == db@.bookmarks
                && d@.tags == db@.tags && d@.associations == db@.associations && d@.next_id
                == db@.next_id && d@.wf() && d@.version() == upgraded_version(dec_value(s)) && (
            dec_value(s) >= LATEST_VERSION ==> d@ == db@)))),
            r matches Ok(d) ==> d@.wf(),
    {
        match contents {
            None => {
                let mut db = Database::initialize();
                let ghost pre = db@;
                if let Err(e) = db.migrate(0) {
                    return Err(e);
                }
                proof {
                    lemma_dec_of_value(0);
                    if 0 < LATEST_VERSION {
                        lemma_dec_of_value(LATEST_VERSION as nat);
                        lemma_meta_set_version(pre.meta, dec_of(LATEST_VERSION as nat));
                        assert(db@.meta =~= fresh_db(upgraded_version(0)).meta);
                    }
                    assert(db@ =~= fresh_db(upgraded_version(0)));
                }
                Ok(db)
            },
            Some(mut db) => {
                match db.meta_get("database_version") {
                    None => {
                        db.meta_put("database_version", format_decimal(0));
                        let ghost mid = db@;
                        if let Err(e) = db.migrate(0) {
                            return Err(e);
                        }
                        proof {
                            lemma_dec_of_value(0);
                            if 0 < LATEST_VERSION {
                                lemma_dec_of_value(LATEST_VERSION as nat);
                                lemma_meta_set_version(mid.meta, dec_of(LATEST_VERSION as nat));
                            }
                        }
                        Ok(db)
                    },
                    Some(vs) => {
                        match parse_decimal(vs.as_str()) {
                            None => Err(Error::Schema),
                            Some(v) => {
                                let ghost pre = db@;
                                if let Err(e) = db.migrate(v) {
                                    return Err(e);
                                }
                                proof {
                                    if v < LATEST_VERSION {
                                        lemma_dec_of_value(LATEST_VERSION as nat);
                                        lemma_meta_set_version(pre.meta, dec_of(
                                            LATEST_VERSION as nat));
                                    } else {
                                        assert(db@ =~= pre);
                                    }
                                }
                                Ok(db)
                            },
                        }
                    },
                }
            },
        }
    }
}

/// Setting the same key twice keeps only the second value.
proof fn lemma_meta_set_twice(meta: Seq<MetaView>, key: Seq<char>, v1: Seq<char>, v2: Seq<char>)
    ensures
        meta_set(meta_set(meta, key, v1), key, v2) =~= meta_set(meta, key, v2),
    decreases meta.len(),
{
    if meta.len() > 0 && meta.first().key != key {
        lemma_meta_set_twice(meta.drop_first(), key, v1, v2);
        assert(meta_set(meta, key, v1).drop_first() =~= meta_set(meta.drop_first(), key, v1));
    }
}

/// After meta_set the key reads back as the value just set.
proof fn lemma_meta_set_version(meta: Seq<MetaView>, value: Seq<char>)
    ensures
        meta_lookup(meta_set(meta, version_key(), value), version_key()) == Some(value),
    decreases meta.len(),
{
    if meta.len() > 0 && meta.first().key != version_key() {
        lemma_meta_set_version(meta.drop_first(), value);
        assert(meta_set(meta, version_key(), value).drop_first() =~= meta_set(
            meta.drop_first(),
            version_key(),
            value,
        ));
    }
}


/// Pairwise-distinct elements.
pub open spec fn distinct<A>(s: Seq<A>) -> bool {
    forall|i: int, j: int| 0 <= i < j < s.len() ==> s[i] != s[j]
}

/// The tag table after lazily creating each tag of `ts` that is not
/// already present, in first-occurrence order.
pub open spec fn insert_new_tags(cur: Seq<Seq<char>>, ts: Seq<Seq<char>>) -> Seq<Seq<char>>
    decreases ts.len(),
{
    if ts.len() == 0 {
        cur
    } else {
        let cur2 = if cur.contains(ts.first()) {
            cur
        } else {
            cur.push(ts.first())
        };
        insert_new_tags(cur2, ts.drop_first())
    }
}

/// The association table after associating bookmark `id` with each tag
/// of `ts`, tolerating tags the bookmark already holds.
pub open spec fn insert_new_assocs(cur: Seq<AssocView>, id: int, ts: Seq<Seq<char>>) -> Seq<
    AssocView,
>
    decreases ts.len(),
{
    if ts.len() == 0 {
        cur
    } else {
        let a = AssocView { bookmark_id: id, tag_name: ts.first() };
        let cur2 = if cur.contains(a) {
            cur
        } else {
            cur.push(a)
        };
        insert_new_assocs(cur2, id, ts.drop_first())
    }
}

/// The tag names associated with bookmark `id`, in association-table
/// order.
pub open spec fn tags_of(assocs: Seq<AssocView>, id: int) -> Seq<Seq<char>>
    decreases assocs.len(),
{
    if assocs.len() == 0 {
        Seq::empty()
    } else {
        let rest = tags_of(assocs.drop_last(), id);
        if assocs.last().bookmark_id == id {
            rest.push(assocs.last().tag_name)
        } else {
            rest
        }
    }
}

impl DbView {
    /// The index of the bookmark row holding `url`.
    pub open spec fn url_index(self, url: Seq<char>) -> int {
        choose|i: int| 0 <= i < self.bookmarks.len() && self.bookmarks[i].url == url
    }

    /// The bookmark at row `i`, joined with its tags.
    pub open spec fn bookmark_at(self, i: int) -> BookmarkView {
        BookmarkView {
            id: self.bookmarks[i].id,
            url: self.bookmarks[i].url,
            title: self.bookmarks[i].title,
            description: self.bookmarks[i].description,
            tags: tags_of(self.associations, self.bookmarks[i].id),
        }
    }
}

/// What lazy tag creation adds and keeps: exactly the union, and no
/// duplicate is ever created.
proof fn lemma_insert_new_tags_props(cur: Seq<Seq<char>>, ts: Seq<Seq<char>>)
    ensures
        forall|x: Seq<char>|
            #[trigger] insert_new_tags(cur, ts).contains(x) <==> (cur.contains(x) || ts.contains(
                x,
            )),
        distinct(cur) ==> distinct(insert_new_tags(cur, ts)),
    decreases ts.len(),
{
    if ts.len() > 0 {
        let cur2 = if cur.contains(ts.first()) {
            cur
        } else {
            cur.push(ts.first())
        };
        assert forall|x: Seq<char>| #[trigger] cur2.contains(x) <==> (cur.contains(x) || x
            == ts.first()) by {
            if cur.contains(x) {
                let i = choose|i: int| 0 <= i < cur.len() && cur[i] == x;
                assert(cur2[i] == x);
            }
            if x == ts.first() && !cur.contains(x) {
                assert(cur2.last() == x);
            }
            if cur2.contains(x) && cur2.len() == cur.len() + 1 {
                let i = choose|i: int| 0 <= i < cur2.len() && cur2[i] == x;
                if i < cur.len() {
                    assert(cur[i] == x);
                }
            }
        }
        if distinct(cur) {
            assert(distinct(cur2));
        }
        lemma_insert_new_tags_props(cur2, ts.drop_first());
        assert forall|x: Seq<char>| #[trigger] ts.contains(x) implies (x == ts.first()
            || ts.drop_first().contains(x)) by {
            let i = choose|i: int| 0 <= i < ts.len() && ts[i] == x;
            if i > 0 {
                assert(ts.drop_first()[i - 1] == x);
            }
        }
        assert forall|x: Seq<char>| ts.drop_first().contains(x) implies #[trigger] ts.contains(
            x,
        ) by {
            let i = choose|i: int| 0 <= i < ts.drop_first().len() && ts.drop_first()[i] == x;
            assert(ts[i + 1] == x);
        }
    }
}

/// The same, for associating a bookmark with a list of tags.
proof fn lemma_insert_new_assocs_props(cur: Seq<AssocView>, id: int, ts: Seq<Seq<char>>)
    ensures
        forall|x: AssocView|
            #[trigger] insert_new_assocs(cur, id, ts).contains(x) <==> (cur.contains(x) || (
            x.bookmark_id == id && ts.contains(x.tag_name))),
        distinct(cur) ==> distinct(insert_new_assocs(cur, id, ts)),
    decreases ts.len(),
{
    if ts.len() > 0 {
        let a = AssocView { bookmark_id: id, tag_name: ts.first() };
        let cur2 = if cur.contains(a) {
            cur
        } else {
            cur.push(a)
        };
        assert forall|x: AssocView| #[trigger] cur2.contains(x) <==> (cur.contains(x) || x
            == a) by {
            if cur.contains(x) {
                let i = choose|i: int| 0 <= i < cur.len() && cur[i] == x;
                assert(cur2[i] == x);
            }
            if x == a && !cur.contains(x) {
                assert(cur2.last() == x);
            }
            if cur2.contains(x) && cur2.len() == cur.len() + 1 {
                let i = choose|i: int| 0 <= i < cur2.len() && cur2[i] == x;
                if i < cur.len() {
                    assert(cur[i] == x);
                }
            }
        }
        if distinct(cur) {
            assert(distinct(cur2));
        }
        lemma_insert_new_assocs_props(cur2, id, ts.drop_first());
        assert forall|x: Seq<char>| #[trigger] ts.contains(x) implies (x == ts.first()
            || ts.drop_first().contains(x)) by {
            let i = choose|i: int| 0 <= i < ts.len() && ts[i] == x;
            if i > 0 {
                assert(ts.drop_first()[i - 1] == x);
            }
        }
        assert forall|x: Seq<char>| ts.drop_first().contains(x) implies #[trigger] ts.contains(
            x,
        ) by {
            let i = choose|i: int| 0 <= i < ts.drop_first().len() && ts.drop_first()[i] == x;
            assert(ts[i + 1] == x);
        }
    }
}

/// What a successful add of a previously unknown url does: the record
/// appended under the fresh id, tags lazily created, associations
/// created tolerating duplicates, everything else untouched, and the
/// new record (with the tags as supplied) returned.
pub open spec fn added_new(
    pre: DbView,
    post: DbView,
    b: BookmarkView,
    url: Seq<char>,
    md: crate::web::MetadataView,
    ts: Seq<Seq<char>>,
) -> bool {
    &&& b.id == pre.next_id
    &&& b.url == url
    &&& b.title == md.title
    &&& b.description == md.description
    &&& b.tags == ts
    &&& post.next_id == pre.next_id + 1
    &&& post.bookmarks.len() == pre.bookmarks.len() + 1
    &&& post.bookmarks.drop_last() == pre.bookmarks
    &&& post.bookmarks.last().id == pre.next_id
    &&& post.bookmarks.last().url == url
    &&& post.bookmarks.last().title == md.title
    &&& post.bookmarks.last().description == md.description
    &&& post.tags == insert_new_tags(pre.tags, ts)
    &&& post.associations == insert_new_assocs(pre.associations, pre.next_id, ts)
    &&& post.meta == pre.meta
}

/// Relies on std::time::SystemTime::now and duration_since: seconds of
/// the system clock since the Unix epoch. The clock decides the value,
/// so nothing is promised of it.
#[verifier::external_body]
fn unix_time_now() -> i64 {
    match std::time::SystemTime::now().duration_since(std::time::SystemTime::UNIX_EPOCH) {
        Ok(d) => d.as_secs() as i64,
        Err(_) => 0,
    }
}

impl Database {
    /// The index of the bookmark row holding `url`, if any.
    fn find_url(&self, url: &str) -> (r: Option<usize>)
        ensures
            r matches Some(i) ==> 0 <= i < self@.bookmarks.len() && self@.bookmarks[i as int].url
                == url@,
            r is None ==> forall|j: int|
                0 <= j < self@.bookmarks.len() ==> self@.bookmarks[j].url != url@,
    {
        let n = self.bookmarks.len();
        let mut i: usize = 0;
        while i < n
            invariant
                n == self.bookmarks.len(),
                0 <= i <= n,
                self@.bookmarks.len() == n,
                forall|j: int| 0 <= j < i ==> self@.bookmarks[j].url != url@,
                forall|j: int| 0 <= j < n ==> self@.bookmarks[j] == self.bookmarks@[j]@,
            decreases n - i,
        {
            if str_eq(self.bookmarks[i].url.as_str(), url) {
                return Some(i);
            }
            i = i + 1;
        }
        None
    }

    /// Is `t` already a row of the tag table?
    fn has_tag(&self, t: &str) -> (r: bool)
        ensures
            r == self@.tags.contains(t@),
    {
        let n = self.tags.len();
        let mut i: usize = 0;
        while i < n
            invariant
                n == self.tags.len(),
                0 <= i <= n,
                self@.tags.len() == n,
                forall|j: int| 0 <= j < i ==> self@.tags[j] != t@,
                forall|j: int| 0 <= j < n ==> self@.tags[j] == self.tags@[j]@,
            decreases n - i,
        {
            if str_eq(self.tags[i].as_str(), t) {
                assert(self@.tags[i as int] == t@);
                return true;
            }
            i = i + 1;
        }
        false
    }

    /// Does the association table hold the pair (id, t)?
    fn has_assoc_row(&self, id: i64, t: &str) -> (r: bool)
        ensures
            r == self@.has_assoc(id as int, t@),
    {
        let n = self.associations.len();
        let mut i: usize = 0;
        while i < n
            invariant
                n == self.associations.len(),
                0 <= i <= n,
                self@.associations.len() == n,
                forall|j: int|
                    0 <= j < i ==> self@.associations[j] != (AssocView {
                        bookmark_id: id as int,
                        tag_name: t@,
                    }),
                forall|j: int| 0 <= j < n ==> self@.associations[j] == self.associations@[j]@,
            decreases n - i,
        {
            let a = &self.associations[i];
            if a.bookmark_id == id && str_eq(a.tag_name.as_str(), t) {
                assert(self@.associations[i as int] =~= AssocView {
                    bookmark_id: id as int,
                    tag_name: t@,
                });
                return true;
            }
            proof {
                if self@.associations[i as int] == (AssocView {
                    bookmark_id: id as int,
                    tag_name: t@,
                }) {
                    assert(a.bookmark_id == id && a.tag_name@ == t@);
                }
            }
            i = i + 1;
        }
        false
    }

    /// The tag names associated with bookmark `id`, in table order.
    fn collect_tags(&self, id: i64) -> (r: Vec<String>)
        ensures
            r.deep_view() == tags_of(self@.associations, id as int),
    {
        let mut r: Vec<String> = Vec::new();
        let n = self.associations.len();
        let mut k: usize = 0;
        while k < n
            invariant
                n == self.associations.len(),
                0 <= k <= n,
                self@.associations.len() == n,
                r.deep_view() =~= tags_of(self@.associations.subrange(0, k as int), id as int),
                forall|j: int| 0 <= j < n ==> self@.associations[j] == self.associations@[j]@,
            decreases n - k,
        {
            let ghost prefix = self@.associations.subrange(0, k as int);
            proof {
                assert(self@.associations.subrange(0, k + 1).drop_last() =~= prefix);
                assert(self@.associations.subrange(0, k + 1).last() == self@.associations[
                    k as int
                ]);
            }
            let a = &self.associations[k];
            if a.bookmark_id == id {
                let ghost before = r.deep_view();
                r.push(a.tag_name.clone());
                proof {
                    assert(r.deep_view() =~= before.push(a.tag_name@));
                }
            }
            k = k + 1;
        }
        proof {
            assert(self@.associations.subrange(0, n as int) =~= self@.associations);
        }
        r
    }

    /// Creates each missing tag of `tags`, then each missing association
    /// of bookmark `id` with them: the lazy tag lifecycle of `add`.
    fn add_tags(&mut self, id: i64, tags: &Vec<String>)
        requires
            old(self)@.tables_wf(),
            old(self)@.has_bookmark_id(id as int),
        ensures
            final(self)@.tables_wf(),
            final(self)@.bookmarks == old(self)@.bookmarks,
            final(self)@.meta == old(self)@.meta,
            final(self)@.next_id == old(self)@.next_id,
            final(self)@.tags == insert_new_tags(old(self)@.tags, tags.deep_view()),
            final(self)@.associations == insert_new_assocs(
                old(self)@.associations,
                id as int,
                tags.deep_view(),
            ),
    {
        let ghost pre = self@;
        let ghost ts = tags.deep_view();
        let n = tags.len();
        proof {
            assert(ts.len() == n);
        }
        proof {
            assert(ts.subrange(0, n as int) =~= ts);
        }
        let mut k: usize = 0;
        while k < n
            invariant
                n == tags@.len(),
                ts == tags.deep_view(),
                ts.len() == n,
                0 <= k <= n,
                self@.tables_wf(),
                old(self)@ == pre,
                self@.bookmarks == pre.bookmarks,
                self@.associations == pre.associations,
                self@.meta == pre.meta,
                self@.next_id == pre.next_id,
                insert_new_tags(pre.tags, ts) == insert_new_tags(
                    self@.tags,
                    ts.subrange(k as int, n as int),
                ),
                forall|j: int| 0 <= j < k ==> self@.tags.contains(#[trigger] ts[j]),
            decreases n - k,
        {
            let ghost rem = ts.subrange(k as int, n as int);
            proof {
                assert(rem.drop_first() =~= ts.subrange(k + 1, n as int));
                assert(rem.first() == ts[k as int]);
                assert(tags.deep_view()[k as int] == tags@[k as int]@);
            }
            let t = &tags[k];
            let ghost curtags = self@.tags;
            if !self.has_tag(t.as_str()) {
                self.tags.push(t.clone());
                proof {
                    assert(self@.tags =~= curtags.push(t@));
                    assert(forall|j: int|
                        0 <= j < curtags.len() ==> self@.tags[j] == curtags[j]);
                    assert forall|x: Seq<char>| curtags.contains(x) implies self@.tags.contains(
                        x,
                    ) by {
                        let i = choose|i: int| 0 <= i < curtags.len() && curtags[i] == x;
                        assert(self@.tags[i] == x);
                    }
                    assert(self@.tags.last() == t@);
                    assert(self@.bookmarks == pre.bookmarks);
                    assert(self@.associations == pre.associations);
                    assert(self@.meta == pre.meta);
                    assert(self@.next_id == pre.next_id);
                    assert(self@.tables_wf());
                }
            }
            proof {
                assert(self@.tags.contains(ts[k as int]));
                assert forall|x: Seq<char>| curtags.contains(x) implies self@.tags.contains(x) by {
                    let i = choose|i: int| 0 <= i < curtags.len() && curtags[i] == x;
                    assert(self@.tags[i] == x);
                }
            }
            k = k + 1;
        }
        proof {
            assert(ts.subrange(n as int, n as int) =~= Seq::<Seq<char>>::empty());
            assert(insert_new_tags(pre.tags, ts) == self@.tags);
        }
        let ghost tagsdone = self@.tags;
        proof {
            assert(ts.subrange(0, n as int) =~= ts);
        }
        let mut k2: usize = 0;
        while k2 < n
            invariant
                n == tags@.len(),
                ts == tags.deep_view(),
                ts.len() == n,
                0 <= k2 <= n,
                self@.tables_wf(),
                old(self)@ == pre,
                self@.bookmarks == pre.bookmarks,
                self@.tags == tagsdone,
                self@.meta == pre.meta,
                self@.next_id == pre.next_id,
                forall|j: int| 0 <= j < n ==> self@.tags.contains(#[trigger] ts[j]),
                pre.has_bookmark_id(id as int),
                insert_new_assocs(pre.associations, id as int, ts) == insert_new_assocs(
                    self@.associations,
                    id as int,
                    ts.subrange(k2 as int, n as int),
                ),
            decreases n - k2,
        {
            let ghost rem = ts.subrange(k2 as int, n as int);
            proof {
                assert(rem.drop_first() =~= ts.subrange(k2 + 1, n as int));
                assert(rem.first() == ts[k2 as int]);
                assert(tags.deep_view()[k2 as int] == tags@[k2 as int]@);
            }
            let t = &tags[k2];
            let ghost vpre = self@;
            let ghost curassocs = self@.associations;
            if !self.has_assoc_row(id, t.as_str()) {
                self.associations.push(Association { bookmark_id: id, tag_name: t.clone() });
                proof {
                    assert(self@.associations =~= curassocs.push(AssocView {
                        bookmark_id: id as int,
                        tag_name: t@,
                    }));
                    assert(forall|j: int|
                        0 <= j < curassocs.len() ==> self@.associations[j] == curassocs[j]);
                    assert(self@.associations.last() == (AssocView {
                        bookmark_id: id as int,
                        tag_name: t@,
                    }));
                    assert(self@.bookmarks == pre.bookmarks);
                    assert(self@.tags == tagsdone);
                    assert(self@.meta == pre.meta);
                    assert(self@.next_id == pre.next_id);
                    assert(self@.tags.contains(t@));
                    assert(self@.tables_wf()) by {
                        assert forall|a: int, b: int|
                            0 <= a < b < self@.associations.len() implies self@.associations[a]
                            != self@.associations[b] by {
                            if b < curassocs.len() {
                                assert(vpre.associations[a] != vpre.associations[b]);
                            } else {
                                assert(!vpre.has_assoc(id as int, t@));
                                if self@.associations[a] == self@.associations[b] {
                                    assert(curassocs[a] == (AssocView {
                                        bookmark_id: id as int,
                                        tag_name: t@,
                                    }));
                                    assert(curassocs.contains(curassocs[a]));
                                }
                            }
                        }
                        assert forall|k: int|
                            0 <= k < self@.associations.len() implies self@.tags.contains(
                            #[trigger] self@.associations[k].tag_name,
                        ) && self@.has_bookmark_id(self@.associations[k].bookmark_id) by {
                            if k < curassocs.len() {
                                let tn = vpre.associations[k].tag_name;
                                assert(vpre.tags.contains(tn));
                                assert(vpre.has_bookmark_id(vpre.associations[k].bookmark_id));
                                let w = choose|w: int|
                                    0 <= w < vpre.bookmarks.len() && vpre.bookmarks[w].id
                                        == vpre.associations[k].bookmark_id;
                                assert(self@.bookmarks[w].id == self@.associations[
                                    k
                                ].bookmark_id);
                            } else {
                                assert(self@.associations[k].tag_name == t@);
                                assert(vpre.has_bookmark_id(id as int));
                                let w = choose|w: int|
                                    0 <= w < vpre.bookmarks.len() && vpre.bookmarks[w].id
                                        == id as int;
                                assert(self@.bookmarks[w].id == id as int);
                            }
                        }
                    }
                }
            }
            k2 = k2 + 1;
        }
        proof {
            assert(ts.subrange(n as int, n as int) =~= Seq::<Seq<char>>::empty());
        }
    }

    /// Adds a bookmark for `url`. If a bookmark with exactly that url
    /// already exists, the stored record is returned unchanged and the
    /// supplied tags are discarded, never merged: that is the
    /// de-duplication policy. Otherwise a new record is inserted under
    /// a fresh id with the given metadata and the current time, missing
    /// tags are lazily created, associations are created tolerating
    /// duplicates in the request, and the new record is returned. The
    /// only failure is an exhausted id space.
    pub fn add_bookmark(&mut self, url: &str, metadata: Metadata, tags: &Vec<String>) -> (r:
        Result<Bookmark, Error>)
        requires
            old(self)@.wf(),
        ensures
            final(self)@.wf(),
            r is Err <==> (!old(self)@.has_url(url@) && old(self)@.next_id == i64::MAX),
            r matches Err(e) ==> e == Error::Storage && final(self)@ == old(self)@,
            old(self)@.has_url(url@) ==> (final(self)@ == old(self)@ && (r matches Ok(b) && b@
                =~= old(self)@.bookmark_at(old(self)@.url_index(url@)))),
            (!old(self)@.has_url(url@) && old(self)@.next_id < i64::MAX) ==> (r matches Ok(b)
                && added_new(old(self)@, final(self)@, b@, url@, metadata@, tags.deep_view())),
    {
        let ghost pre = self@;
        match self.find_url(url) {
            Some(i) => {
                proof {
                    assert(pre.has_url(url@));
                    let i2 = pre.url_index(url@);
                    assert(0 <= i2 < pre.bookmarks.len() && pre.bookmarks[i2].url == url@);
                    if i2 != i as int {
                        assert(false);
                    }
                }
                let id = self.bookmarks[i].id;
                let tags_vec = self.collect_tags(id);
                let b = Bookmark {
                    id,
                    url: self.bookmarks[i].url.clone(),
                    title: clone_opt_string(&self.bookmarks[i].title),
                    description: clone_opt_string(&self.bookmarks[i].description),
                    tags: tags_vec,
                };
                Ok(b)
            },
            None => {
                if self.next_id == i64::MAX {
                    return Err(Error::Storage);
                }
                let id = self.next_id;
                self.next_id = id + 1;
                let rec = BookmarkRecord {
                    id,
                    url: url.to_owned(),
                    title: clone_opt_string(&metadata.title),
                    description: clone_opt_string(&metadata.description),
                    created_at: unix_time_now(),
                };
                let ghost recv = rec@;
                let ghost mid0 = self@;
                self.bookmarks.push(rec);
                proof {
                    assert(self@.bookmarks =~= mid0.bookmarks.push(recv));
                    assert(forall|j: int|
                        0 <= j < mid0.bookmarks.len() ==> self@.bookmarks[j] == mid0.bookmarks[
                            j
                        ]);
                    assert(self@.bookmarks.last() == recv);
                    assert(recv.id == id as int);
                    assert(recv.url == url@);
                    assert(self@.has_bookmark_id(id as int));
                    assert(self@.tags == pre.tags);
                    assert(self@.associations == pre.associations);
                    assert(self@.meta == pre.meta);
                    assert(self@.tables_wf()) by {
                        assert(forall|a: int, b: int|
                            0 <= a < b < self@.bookmarks.len() ==> self@.bookmarks[a].id
                                != self@.bookmarks[b].id);
                        assert(forall|a: int, b: int|
                            0 <= a < b < self@.bookmarks.len() ==> self@.bookmarks[a].url
                                != self@.bookmarks[b].url);
                        assert forall|k: int|
                            0 <= k < self@.associations.len() implies self@.tags.contains(
                            #[trigger] self@.associations[k].tag_name,
                        ) && self@.has_bookmark_id(self@.associations[k].bookmark_id) by {
                            let tn = pre.associations[k].tag_name;
                            assert(pre.tags.contains(tn));
                            assert(pre.has_bookmark_id(pre.associations[k].bookmark_id));
                            let w = choose|w: int|
                                0 <= w < pre.bookmarks.len() && pre.bookmarks[w].id
                                    == pre.associations[k].bookmark_id;
                            assert(self@.bookmarks[w].id == self@.associations[k].bookmark_id);
                        }
                        assert(forall|a: int|
                            0 <= a < self@.bookmarks.len() ==> 0 < #[trigger] self@.bookmarks[
                                a
                            ].id < self@.next_id);
                    }
                }
                self.add_tags(id, tags);
                proof {
                    assert(self@.bookmarks.drop_last() =~= pre.bookmarks);
                }
                let b = Bookmark {
                    id,
                    url: url.to_owned(),
                    title: metadata.title,
                    description: metadata.description,
                    tags: clone_string_vec(tags),
                };
                Ok(b)
            },
        }
    }
}


/// `needle` occurs contiguously inside `hay` (any string contains the
/// empty string).
pub open spec fn contains_sub(hay: Seq<char>, needle: Seq<char>) -> bool {
    exists|i: int|
        0 <= i <= hay.len() - needle.len() && #[trigger] hay.subrange(i, i + needle.len())
            == needle
}

/// The free-text clause: the query occurs in the url, the title or the
/// description (a missing field never matches).
pub open spec fn text_matches(row: RecordView, q: Seq<char>) -> bool {
    ||| contains_sub(row.url, q)
    ||| row.title matches Some(t) && contains_sub(t, q)
    ||| row.description matches Some(d) && contains_sub(d, q)
}

/// The tag-membership clause: with no tags requested every bookmark
/// qualifies; in ALL mode every requested tag must be associated (so
/// duplicates in the request collapse); in ANY mode one suffices.
pub open spec fn tags_match(v: DbView, id: int, ts: Seq<Seq<char>>, all_tags: bool) -> bool {
    if ts.len() == 0 {
        true
    } else if all_tags {
        forall|j: int| 0 <= j < ts.len() ==> v.has_assoc(id, #[trigger] ts[j])
    } else {
        exists|j: int| 0 <= j < ts.len() && v.has_assoc(id, #[trigger] ts[j])
    }
}

/// The dynamically assembled search predicate: a true base, AND the
/// free-text clause only if a query is present, AND the tag clause.
pub open spec fn row_matches(
    v: DbView,
    row: RecordView,
    query: Option<Seq<char>>,
    ts: Seq<Seq<char>>,
    all_tags: bool,
) -> bool {
    &&& (query matches Some(q) ==> text_matches(row, q))
    &&& tags_match(v, row.id, ts, all_tags)
}

/// A row joined with its tags.
pub open spec fn assemble(v: DbView, row: RecordView) -> BookmarkView {
    BookmarkView {
        id: row.id,
        url: row.url,
        title: row.title,
        description: row.description,
        tags: tags_of(v.associations, row.id),
    }
}

pub open spec fn search_rows_rec(
    v: DbView,
    rows: Seq<RecordView>,
    query: Option<Seq<char>>,
    ts: Seq<Seq<char>>,
    all_tags: bool,
) -> Seq<BookmarkView>
    decreases rows.len(),
{
    if rows.len() == 0 {
        Seq::empty()
    } else {
        let rest = search_rows_rec(v, rows.drop_last(), query, ts, all_tags);
        if row_matches(v, rows.last(), query, ts, all_tags) {
            rest.push(assemble(v, rows.last()))
        } else {
            rest
        }
    }
}

/// What a search returns: the qualifying bookmarks in table order, each
/// grouped with its tags.
pub open spec fn search_result(
    v: DbView,
    query: Option<Seq<char>>,
    ts: Seq<Seq<char>>,
    all_tags: bool,
) -> Seq<BookmarkView> {
    search_rows_rec(v, v.bookmarks, query, ts, all_tags)
}

/// Does `needle` occur at offset `at` of `hay`?
pub fn match_at(hay: &str, needle: &str, at: usize) -> (r: bool)
    requires
        at + needle@.len() <= hay@.len(),
        hay@.len() <= usize::MAX,
    ensures
        r == (hay@.subrange(at as int, at + needle@.len()) == needle@),
{
    let n = needle.unicode_len();
    let mut k: usize = 0;
    while k < n
        invariant
            n == needle@.len(),
            at + n <= hay@.len(),
            hay@.len() <= usize::MAX,
            0 <= k <= n,
            forall|j: int| 0 <= j < k ==> hay@[at + j] == needle@[j],
        decreases n - k,
    {
        if hay.get_char(at + k) != needle.get_char(k) {
            assert(hay@.subrange(at as int, at + needle@.len())[k as int] != needle@[k as int]);
            return false;
        }
        k = k + 1;
    }
    assert(hay@.subrange(at as int, at + needle@.len()) =~= needle@);
    true
}

/// Plain substring search, the semantics of the free-text match.
pub fn contains_str(hay: &str, needle: &str) -> (r: bool)
    ensures
        r == contains_sub(hay@, needle@),
{
    let h = hay.unicode_len();
    let n = needle.unicode_len();
    if n > h {
        return false;
    }
    if n == 0 {
        proof {
            assert(contains_sub(hay@, needle@)) by {
                assert(hay@.subrange(0, 0 + needle@.len() as int) =~= needle@);
            }
        }
        return true;
    }
    let mut i: usize = 0;
    while i <= h - n
        invariant
            h == hay@.len(),
            n == needle@.len(),
            1 <= n <= h,
            0 <= i <= h - n + 1,
            forall|j: int| 0 <= j < i ==> #[trigger] hay@.subrange(j, j + n) != needle@,
        decreases h - i,
    {
        if match_at(hay, needle, i) {
            return true;
        }
        i = i + 1;
    }
    false
}

impl Database {
    /// The free-text clause against one record.
    fn record_text_matches(rec: &BookmarkRecord, q: &str) -> (r: bool)
        ensures
            r == text_matches(rec@, q@),
    {
        if contains_str(rec.url.as_str(), q) {
            return true;
        }
        if let Some(t) = &rec.title {
            if contains_str(t.as_str(), q) {
                return true;
            }
        }
        if let Some(d) = &rec.description {
            if contains_str(d.as_str(), q) {
                return true;
            }
        }
        false
    }

    /// The tag clause against one bookmark id.
    fn record_tags_match(&self, id: i64, tags: &Vec<String>, all_tags: bool) -> (r: bool)
        ensures
            r == tags_match(self@, id as int, tags.deep_view(), all_tags),
    {
        let n = tags.len();
        if n == 0 {
            return true;
        }
        let ghost ts = tags.deep_view();
        if all_tags {
            let mut k: usize = 0;
            while k < n
                invariant
                    n == tags@.len(),
                    ts == tags.deep_view(),
                    ts.len() == n,
                    1 <= n,
                    all_tags,
                    0 <= k <= n,
                    forall|j: int| 0 <= j < k ==> self@.has_assoc(id as int, #[trigger] ts[j]),
                decreases n - k,
            {
                proof {
                    assert(tags.deep_view()[k as int] == tags@[k as int]@);
                }
                if !self.has_assoc_row(id, tags[k].as_str()) {
                    assert(!self@.has_assoc(id as int, ts[k as int]));
                    return false;
                }
                k = k + 1;
            }
            true
        } else {
            let mut k: usize = 0;
            while k < n
                invariant
                    n == tags@.len(),
                    ts == tags.deep_view(),
                    ts.len() == n,
                    1 <= n,
                    !all_tags,
                    0 <= k <= n,
                    forall|j: int| 0 <= j < k ==> !self@.has_assoc(id as int, #[trigger] ts[j]),
                decreases n - k,
            {
                proof {
                    assert(tags.deep_view()[k as int] == tags@[k as int]@);
                }
                if self.has_assoc_row(id, tags[k].as_str()) {
                    assert(self@.has_assoc(id as int, ts[k as int]));
                    return true;
                }
                k = k + 1;
            }
            false
        }
    }

    /// Searches bookmarks with a dynamically assembled predicate: a
    /// free-text substring clause against url, title and description
    /// only if `query` is present, AND a tag clause only if `tags` is
    /// non-empty (ALL mode needs every distinct requested tag, ANY mode
    /// one of them). Qualifying bookmarks come back in table order,
    /// each grouped with its tags; no ranking is defined.
    pub fn search_bookmarks(&self, query: &Option<String>, tags: &Vec<String>, all_tags: bool)
        -> (r: Result<Vec<Bookmark>, Error>)
        ensures
            r is Ok,
            r matches Ok(bs) ==> bs@.map_values(|b: Bookmark| b@) == search_result(
                self@,
                query.deep_view(),
                tags.deep_view(),
                all_tags,
            ),
    {
        let ghost qv = query.deep_view();
        let ghost ts = tags.deep_view();
        let mut out: Vec<Bookmark> = Vec::new();
        let n = self.bookmarks.len();
        let mut i: usize = 0;
        while i < n
            invariant
                n == self.bookmarks.len(),
                0 <= i <= n,
                self@.bookmarks.len() == n,
                qv == query.deep_view(),
                ts == tags.deep_view(),
                out@.map_values(|b: Bookmark| b@) =~= search_rows_rec(
                    self@,
                    self@.bookmarks.subrange(0, i as int),
                    qv,
                    ts,
                    all_tags,
                ),
                forall|j: int| 0 <= j < n ==> self@.bookmarks[j] == self.bookmarks@[j]@,
            decreases n - i,
        {
            let ghost prefix = self@.bookmarks.subrange(0, i as int);
            proof {
                assert(self@.bookmarks.subrange(0, i + 1).drop_last() =~= prefix);
                assert(self@.bookmarks.subrange(0, i + 1).last() == self@.bookmarks[i as int]);
            }
            let rec = &self.bookmarks[i];
            let text_ok = match query {
                Some(q) => Self::record_text_matches(rec, q.as_str()),
                None => true,
            };
            let matched = text_ok && self.record_tags_match(rec.id, tags, all_tags);
            proof {
                assert(matched == row_matches(self@, self@.bookmarks[i as int], qv, ts, all_tags));
            }
            if matched {
                let id = self.bookmarks[i].id;
                let tags_vec = self.collect_tags(id);
                let ghost outpre = out@.map_values(|b: Bookmark| b@);
                let b = Bookmark {
                    id,
                    url: self.bookmarks[i].url.clone(),
                    title: clone_opt_string(&self.bookmarks[i].title),
                    description: clone_opt_string(&self.bookmarks[i].description),
                    tags: tags_vec,
                };
                proof {
                    assert(b@ =~= assemble(self@, self@.bookmarks[i as int]));
                }
                out.push(b);
                proof {
                    assert(out@.map_values(|b: Bookmark| b@) =~= outpre.push(out@.last()@));
                }
            }
            i = i + 1;
        }
        proof {
            assert(self@.bookmarks.subrange(0, n as int) =~= self@.bookmarks);
        }
        Ok(out)
    }
}


/// How many association rows reference tag `t`.
pub open spec fn count_tag(s: Seq<AssocView>, t: Seq<char>) -> nat
    decreases s.len(),
{
    if s.len() == 0 {
        0
    } else {
        count_tag(s.drop_last(), t) + if s.last().tag_name == t {
            1nat
        } else {
            0nat
        }
    }
}

/// The association table after repointing every row of `s` that
/// references `from` to reference `to` instead. A row whose bookmark
/// already holds `to` in `orig` is dropped rather than duplicated, so
/// pair uniqueness survives the rename.
pub open spec fn rename_assocs(
    orig: Seq<AssocView>,
    s: Seq<AssocView>,
    from: Seq<char>,
    to: Seq<char>,
) -> Seq<AssocView>
    decreases s.len(),
{
    if s.len() == 0 {
        Seq::empty()
    } else {
        let rest = rename_assocs(orig, s.drop_last(), from, to);
        let a = s.last();
        if a.tag_name != from || from == to {
            rest.push(a)
        } else if orig.contains(AssocView { bookmark_id: a.bookmark_id, tag_name: to }) {
            rest
        } else {
            rest.push(AssocView { bookmark_id: a.bookmark_id, tag_name: to })
        }
    }
}

/// Membership and uniqueness after a rename over a prefix of the table.
proof fn lemma_rename_assocs_props(
    orig: Seq<AssocView>,
    s: Seq<AssocView>,
    from: Seq<char>,
    to: Seq<char>,
)
    requires
        distinct(orig),
        from != to,
        s.len() <= orig.len(),
        s =~= orig.subrange(0, s.len() as int),
    ensures
        distinct(rename_assocs(orig, s, from, to)),
        forall|x: AssocView|
            #[trigger] rename_assocs(orig, s, from, to).contains(x) <==> (if x.tag_name == from {
                false
            } else if x.tag_name == to {
                s.contains(x) || (s.contains(
                    AssocView { bookmark_id: x.bookmark_id, tag_name: from },
                ) && !orig.contains(x))
            } else {
                s.contains(x)
            }),
    decreases s.len(),
{
    let res = rename_assocs(orig, s, from, to);
    if s.len() == 0 {
        assert forall|x: AssocView| !(#[trigger] res.contains(x)) by {}
    } else {
        let d = s.drop_last();
        assert(d =~= orig.subrange(0, d.len() as int));
        lemma_rename_assocs_props(orig, d, from, to);
        let rest = rename_assocs(orig, d, from, to);
        let a = s.last();
        assert(orig.contains(a)) by {
            assert(orig[s.len() - 1] == a);
        }
        assert forall|x: AssocView| s.contains(x) implies (d.contains(x) || x == a) by {
            let i = choose|i: int| 0 <= i < s.len() && s[i] == x;
            if i < s.len() - 1 {
                assert(d[i] == x);
            }
        }
        assert forall|x: AssocView| d.contains(x) implies #[trigger] s.contains(x) by {
            let i = choose|i: int| 0 <= i < d.len() && d[i] == x;
            assert(s[i] == x);
        }
        assert(s.contains(a)) by {
            assert(s[s.len() - 1] == a);
        }
        assert forall|i: int, j: int| 0 <= i < j < s.len() implies s[i] != s[j] by {
            assert(orig[i] == s[i] && orig[j] == s[j]);
        }
        if a.tag_name != from || from == to {
            assert forall|x: AssocView| #[trigger] res.contains(x) implies (rest.contains(x) || x
                == a) by {
                let i = choose|i: int| 0 <= i < res.len() && res[i] == x;
                if i < rest.len() {
                    assert(rest[i] == x);
                }
            }
            assert forall|x: AssocView| rest.contains(x) implies #[trigger] res.contains(x) by {
                let i = choose|i: int| 0 <= i < rest.len() && rest[i] == x;
                assert(res[i] == x);
            }
            assert(res.contains(a)) by {
                assert(res.last() == a);
            }
            assert(!rest.contains(a));
            assert(distinct(res)) by {
                assert forall|i: int, j: int| 0 <= i < j < res.len() implies res[i] != res[
                    j
                ] by {
                    if j < rest.len() {
                        assert(rest[i] == res[i] && rest[j] == res[j]);
                    } else {
                        assert(res[j] == a);
                        assert(rest[i] == res[i]);
                        assert(rest.contains(res[i]));
                    }
                }
            }
        } else if orig.contains(AssocView { bookmark_id: a.bookmark_id, tag_name: to }) {
            assert(res =~= rest);
        } else {
            let b = AssocView { bookmark_id: a.bookmark_id, tag_name: to };
            assert forall|x: AssocView| #[trigger] res.contains(x) implies (rest.contains(x) || x
                == b) by {
                let i = choose|i: int| 0 <= i < res.len() && res[i] == x;
                if i < rest.len() {
                    assert(rest[i] == x);
                }
            }
            assert forall|x: AssocView| rest.contains(x) implies #[trigger] res.contains(x) by {
                let i = choose|i: int| 0 <= i < rest.len() && rest[i] == x;
                assert(res[i] == x);
            }
            assert(res.contains(b)) by {
                assert(res.last() == b);
            }
            assert(!rest.contains(b)) by {
                if rest.contains(b) {
                    assert(d.contains(b) || (d.contains(
                        AssocView { bookmark_id: b.bookmark_id, tag_name: from },
                    ) && !orig.contains(b)));
                    assert(d.contains(AssocView { bookmark_id: a.bookmark_id, tag_name: from }));
                    assert(s.contains(AssocView { bookmark_id: a.bookmark_id, tag_name: from }));
                    let i = choose|i: int|
                        0 <= i < d.len() && d[i] == (AssocView {
                            bookmark_id: a.bookmark_id,
                            tag_name: from,
                        });
                    assert(s[i] == s[s.len() - 1]);
                }
            }
            assert(distinct(res)) by {
                assert forall|i: int, j: int| 0 <= i < j < res.len() implies res[i] != res[
                    j
                ] by {
                    if j < rest.len() {
                        assert(rest[i] == res[i] && rest[j] == res[j]);
                    } else {
                        assert(res[j] == b);
                        assert(rest[i] == res[i]);
                        assert(rest.contains(res[i]));
                    }
                }
            }
        }
    }
}

/// A rename that repoints nothing because source and target are the
/// same tag leaves the table unchanged.
proof fn lemma_rename_assocs_same(orig: Seq<AssocView>, s: Seq<AssocView>, t: Seq<char>)
    ensures
        rename_assocs(orig, s, t, t) =~= s,
    decreases s.len(),
{
    if s.len() > 0 {
        lemma_rename_assocs_same(orig, s.drop_last(), t);
    }
}

impl Database {
    /// Renames a tag: creates `to` if it does not exist yet, then
    /// repoints every association referencing `from` to `to`, dropping
    /// rather than duplicating where a bookmark already held both.
    /// Returns how many association rows referenced `from`. The tag row
    /// `from` itself is never deleted.
    pub fn rename_tag(&mut self, from: &str, to: &str) -> (r: Result<usize, Error>)
        requires
            old(self)@.wf(),
        ensures
            final(self)@.wf(),
            r is Ok,
            final(self)@.bookmarks == old(self)@.bookmarks,
            final(self)@.meta == old(self)@.meta,
            final(self)@.next_id == old(self)@.next_id,
            final(self)@.tags == (if old(self)@.tags.contains(to@) {
                old(self)@.tags
            } else {
                old(self)@.tags.push(to@)
            }),
            final(self)@.associations == rename_assocs(
                old(self)@.associations,
                old(self)@.associations,
                from@,
                to@,
            ),
            r matches Ok(c) ==> c == count_tag(old(self)@.associations, from@),
    {
        let ghost pre = self@;
        if !self.has_tag(to) {
            let ghost curtags = self@.tags;
            self.tags.push(to.to_owned());
            proof {
                assert(self@.tags =~= curtags.push(to@));
                assert(forall|j: int| 0 <= j < curtags.len() ==> self@.tags[j] == curtags[j]);
                assert forall|x: Seq<char>| curtags.contains(x) implies self@.tags.contains(
                    x,
                ) by {
                    let i = choose|i: int| 0 <= i < curtags.len() && curtags[i] == x;
                    assert(self@.tags[i] == x);
                }
                assert(self@.bookmarks == pre.bookmarks);
                assert(self@.associations == pre.associations);
                assert(self@.meta == pre.meta);
                assert(self@.tables_wf());
            }
        }
        proof {
            assert(self@.tags.contains(to@)) by {
                if pre.tags.contains(to@) {
                } else {
                    assert(self@.tags.last() == to@);
                }
            }
        }
        let ghost tagsdone = self@.tags;
        let same = str_eq(from, to);
        let ghost orig = self@.associations;
        let mut newv: Vec<Association> = Vec::new();
        let mut cnt: usize = 0;
        let n = self.associations.len();
        let mut k: usize = 0;
        proof {
            assert(orig.subrange(0, 0) =~= Seq::<AssocView>::empty());
        }
        while k < n
            invariant
                n == self.associations.len(),
                0 <= k <= n,
                self@.associations == orig,
                orig.len() == n,
                self@.tags == tagsdone,
                self@.bookmarks == pre.bookmarks,
                self@.meta == pre.meta,
                self@.next_id == pre.next_id,
                self@.tables_wf(),
                same == (from@ == to@),
                newv@.map_values(|a: Association| a@) =~= rename_assocs(
                    orig,
                    orig.subrange(0, k as int),
                    from@,
                    to@,
                ),
                cnt == count_tag(orig.subrange(0, k as int), from@),
                cnt <= k,
                forall|j: int| 0 <= j < n ==> self@.associations[j] == self.associations@[j]@,
            decreases n - k,
        {
            let ghost prefix = orig.subrange(0, k as int);
            proof {
                assert(orig.subrange(0, k + 1).drop_last() =~= prefix);
                assert(orig.subrange(0, k + 1).last() == orig[k as int]);
            }
            let bid = self.associations[k].bookmark_id;
            let is_from = str_eq(self.associations[k].tag_name.as_str(), from);
            let ghost outpre = newv@.map_values(|a: Association| a@);
            if is_from {
                cnt = cnt + 1;
            }
            if !is_from || same {
                newv.push(Association {
                    bookmark_id: bid,
                    tag_name: self.associations[k].tag_name.clone(),
                });
                proof {
                    assert(newv@.map_values(|a: Association| a@) =~= outpre.push(orig[k as int]));
                }
            } else if self.has_assoc_row(bid, to) {
            } else {
                newv.push(Association { bookmark_id: bid, tag_name: to.to_owned() });
                proof {
                    assert(newv@.map_values(|a: Association| a@) =~= outpre.push(AssocView {
                        bookmark_id: bid as int,
                        tag_name: to@,
                    }));
                }
            }
            k = k + 1;
        }
        proof {
            assert(orig.subrange(0, n as int) =~= orig);
        }
        self.associations = newv;
        proof {
            assert(self@.associations =~= rename_assocs(orig, orig, from@, to@));
            assert(self@.tags == tagsdone);
            assert(self@.bookmarks == pre.bookmarks);
            assert(self@.meta == pre.meta);
            if from@ == to@ {
                lemma_rename_assocs_same(orig, orig, from@);
                assert(self@.associations =~= orig);
                assert(self@.tables_wf());
            } else {
                assert(orig =~= orig.subrange(0, orig.len() as int));
                lemma_rename_assocs_props(orig, orig, from@, to@);
                let res = rename_assocs(orig, orig, from@, to@);
                assert(distinct(res));
                assert forall|k2: int|
                    0 <= k2 < self@.associations.len() implies self@.tags.contains(
                    #[trigger] self@.associations[k2].tag_name,
                ) && self@.has_bookmark_id(self@.associations[k2].bookmark_id) by {
                    let x = self@.associations[k2];
                    assert(res.contains(x)) by {
                        assert(res[k2] == x);
                    }
                    let src = if x.tag_name == to@ && !orig.contains(x) {
                        AssocView { bookmark_id: x.bookmark_id, tag_name: from@ }
                    } else {
                        x
                    };
                    assert(orig.contains(src));
                    let i = choose|i: int| 0 <= i < orig.len() && orig[i] == src;
                    assert(pre.tags.contains(orig[i].tag_name));
                    assert(pre.has_bookmark_id(orig[i].bookmark_id));
                    let w = choose|w: int|
                        0 <= w < pre.bookmarks.len() && pre.bookmarks[w].id == orig[
                            i
                        ].bookmark_id;
                    assert(self@.bookmarks[w].id == x.bookmark_id);
                    if x.tag_name == to@ {
                        assert(self@.tags.contains(to@));
                    } else {
                        assert(tagsdone.contains(x.tag_name)) by {
                            assert(pre.tags.contains(x.tag_name));
                            let j = choose|j: int|
                                0 <= j < pre.tags.len() && pre.tags[j] == x.tag_name;
                            assert(tagsdone[j] == x.tag_name);
                        }
                    }
                }
                assert(self@.tables_wf());
            }
        }
        Ok(cnt)
    }
}


/// The bookmark table after removing every row whose id is in `ids`.
pub open spec fn erase_bookmarks(rows: Seq<RecordView>, ids: Seq<int>) -> Seq<RecordView>
    decreases rows.len(),
{
    if rows.len() == 0 {
        Seq::empty()
    } else {
        let rest = erase_bookmarks(rows.drop_last(), ids);
        if ids.contains(rows.last().id) {
            rest
        } else {
            rest.push(rows.last())
        }
    }
}

/// The association table after removing every row whose bookmark is in
/// `ids`.
pub open spec fn erase_assocs(s: Seq<AssocView>, ids: Seq<int>) -> Seq<AssocView>
    decreases s.len(),
{
    if s.len() == 0 {
        Seq::empty()
    } else {
        let rest = erase_assocs(s.drop_last(), ids);
        if ids.contains(s.last().bookmark_id) {
            rest
        } else {
            rest.push(s.last())
        }
    }
}

/// Membership and uniqueness after erasing bookmark rows.
proof fn lemma_erase_bookmarks_props(rows: Seq<RecordView>, ids: Seq<int>)
    ensures
        forall|x: RecordView|
            #[trigger] erase_bookmarks(rows, ids).contains(x) <==> (rows.contains(x)
                && !ids.contains(x.id)),
        distinct(rows) ==> distinct(erase_bookmarks(rows, ids)),
        erase_bookmarks(rows, ids).len() <= rows.len(),
    decreases rows.len(),
{
    let res = erase_bookmarks(rows, ids);
    if rows.len() == 0 {
        assert forall|x: RecordView| !(#[trigger] res.contains(x)) by {}
    } else {
        let d = rows.drop_last();
        lemma_erase_bookmarks_props(d, ids);
        let rest = erase_bookmarks(d, ids);
        let a = rows.last();
        assert forall|x: RecordView| rows.contains(x) implies (d.contains(x) || x == a) by {
            let i = choose|i: int| 0 <= i < rows.len() && rows[i] == x;
            if i < rows.len() - 1 {
                assert(d[i] == x);
            }
        }
        assert forall|x: RecordView| d.contains(x) implies #[trigger] rows.contains(x) by {
            let i = choose|i: int| 0 <= i < d.len() && d[i] == x;
            assert(rows[i] == x);
        }
        assert(rows.contains(a)) by {
            assert(rows[rows.len() - 1] == a);
        }
        if !ids.contains(a.id) {
            assert forall|x: RecordView| #[trigger] res.contains(x) implies (rest.contains(x)
                || x == a) by {
                let i = choose|i: int| 0 <= i < res.len() && res[i] == x;
                if i < rest.len() {
                    assert(rest[i] == x);
                }
            }
            assert forall|x: RecordView| rest.contains(x) implies #[trigger] res.contains(x) by {
                let i = choose|i: int| 0 <= i < rest.len() && rest[i] == x;
                assert(res[i] == x);
            }
            assert(res.contains(a)) by {
                assert(res.last() == a);
            }
            if distinct(rows) {
                assert forall|i: int, j: int| 0 <= i < j < d.len() implies d[i] != d[j] by {
                    assert(rows[i] == d[i] && rows[j] == d[j]);
                }
                assert(!d.contains(a)) by {
                    if d.contains(a) {
                        let i = choose|i: int| 0 <= i < d.len() && d[i] == a;
                        assert(rows[i] == rows[rows.len() - 1]);
                    }
                }
                assert(distinct(res)) by {
                    assert forall|i: int, j: int| 0 <= i < j < res.len() implies res[i] != res[
                        j
                    ] by {
                        if j < rest.len() {
                            assert(rest[i] == res[i] && rest[j] == res[j]);
                        } else {
                            assert(res[j] == a);
                            assert(rest[i] == res[i]);
                            assert(rest.contains(res[i]));
                        }
                    }
                }
            }
        } else {
            assert(res =~= rest);
            if distinct(rows) {
                assert forall|i: int, j: int| 0 <= i < j < d.len() implies d[i] != d[j] by {
                    assert(rows[i] == d[i] && rows[j] == d[j]);
                }
            }
        }
    }
}

/// Membership and uniqueness after erasing association rows.
proof fn lemma_erase_assocs_props(s: Seq<AssocView>, ids: Seq<int>)
    ensures
        forall|x: AssocView|
            #[trigger] erase_assocs(s, ids).contains(x) <==> (s.contains(x) && !ids.contains(
                x.bookmark_id,
            )),
        distinct(s) ==> distinct(erase_assocs(s, ids)),
    decreases s.len(),
{
    let res = erase_assocs(s, ids);
    if s.len() == 0 {
        assert forall|x: AssocView| !(#[trigger] res.contains(x)) by {}
    } else {
        let d = s.drop_last();
        lemma_erase_assocs_props(d, ids);
        let rest = erase_assocs(d, ids);
        let a = s.last();
        assert forall|x: AssocView| s.contains(x) implies (d.contains(x) || x == a) by {
            let i = choose|i: int| 0 <= i < s.len() && s[i] == x;
            if i < s.len() - 1 {
                assert(d[i] == x);
            }
        }
        assert forall|x: AssocView| d.contains(x) implies #[trigger] s.contains(x) by {
            let i = choose|i: int| 0 <= i < d.len() && d[i] == x;
            assert(s[i] == x);
        }
        assert(s.contains(a)) by {
            assert(s[s.len() - 1] == a);
        }
        if !ids.contains(a.bookmark_id) {
            assert forall|x: AssocView| #[trigger] res.contains(x) implies (rest.contains(x) || x
                == a) by {
                let i = choose|i: int| 0 <= i < res.len() && res[i] == x;
                if i < rest.len() {
                    assert(rest[i] == x);
                }
            }
            assert forall|x: AssocView| rest.contains(x) implies #[trigger] res.contains(x) by {
                let i = choose|i: int| 0 <= i < rest.len() && rest[i] == x;
                assert(res[i] == x);
            }
            assert(res.contains(a)) by {
                assert(res.last() == a);
            }
            if distinct(s) {
                assert forall|i: int, j: int| 0 <= i < j < d.len() implies d[i] != d[j] by {
                    assert(s[i] == d[i] && s[j] == d[j]);
                }
                assert(!d.contains(a)) by {
                    if d.contains(a) {
                        let i = choose|i: int| 0 <= i < d.len() && d[i] == a;
                        assert(s[i] == s[s.len() - 1]);
                    }
                }
                assert(distinct(res)) by {
                    assert forall|i: int, j: int| 0 <= i < j < res.len() implies res[i] != res[
                        j
                    ] by {
                        if j < rest.len() {
                            assert(rest[i] == res[i] && rest[j] == res[j]);
                        } else {
                            assert(res[j] == a);
                            assert(rest[i] == res[i]);
                            assert(rest.contains(res[i]));
                        }
                    }
                }
            }
        } else {
            assert(res =~= rest);
            if distinct(s) {
                assert forall|i: int, j: int| 0 <= i < j < d.len() implies d[i] != d[j] by {
                    assert(s[i] == d[i] && s[j] == d[j]);
                }
            }
        }
    }
}

/// The ids of a Vec of i64, as mathematical integers.
pub open spec fn ids_view(ids: Seq<i64>) -> Seq<int> {
    ids.map_values(|x: i64| x as int)
}

impl Database {
    /// Removes, in one atomic step, every association of the given
    /// bookmarks and then the bookmark rows themselves; ids that match
    /// nothing are ignored. Returns how many bookmark rows were
    /// removed. Tag rows are left alone, even when the removal leaves
    /// them without associations.
    pub fn delete_bookmarks(&mut self, ids: &Vec<i64>) -> (r: Result<usize, Error>)
        requires
            old(self)@.wf(),
        ensures
            final(self)@.wf(),
            final(self)@.tags == old(self)@.tags,
            final(self)@.meta == old(self)@.meta,
            final(self)@.next_id == old(self)@.next_id,
            final(self)@.bookmarks == erase_bookmarks(old(self)@.bookmarks, ids_view(ids@)),
            final(self)@.associations == erase_assocs(old(self)@.associations, ids_view(ids@)),
            r matches Ok(c) ==> c == old(self)@.bookmarks.len() - final(self)@.bookmarks.len(),
            r is Ok,
    {
        let ghost pre = self@;
        let ghost idsv = ids_view(ids@);
        let ghost origa = self@.associations;
        let mut newa: Vec<Association> = Vec::new();
        let na = self.associations.len();
        let mut k: usize = 0;
        proof {
            assert(origa.subrange(0, 0) =~= Seq::<AssocView>::empty());
        }
        while k < na
            invariant
                na == self.associations.len(),
                0 <= k <= na,
                self@ == pre,
                origa == pre.associations,
                origa.len() == na,
                idsv == ids_view(ids@),
                newa@.map_values(|a: Association| a@) =~= erase_assocs(
                    origa.subrange(0, k as int),
                    idsv,
                ),
                forall|j: int| 0 <= j < na ==> self@.associations[j] == self.associations@[j]@,
            decreases na - k,
        {
            proof {
                assert(origa.subrange(0, k + 1).drop_last() =~= origa.subrange(0, k as int));
                assert(origa.subrange(0, k + 1).last() == origa[k as int]);
            }
            let ghost outpre = newa@.map_values(|a: Association| a@);
            let bid = self.associations[k].bookmark_id;
            if !ids_contain(ids, bid) {
                newa.push(Association {
                    bookmark_id: bid,
                    tag_name: self.associations[k].tag_name.clone(),
                });
                proof {
                    assert(newa@.map_values(|a: Association| a@) =~= outpre.push(origa[k as int]));
                }
            }
            k = k + 1;
        }
        proof {
            assert(origa.subrange(0, na as int) =~= origa);
        }
        let ghost origb = self@.bookmarks;
        let mut newb: Vec<BookmarkRecord> = Vec::new();
        let nb = self.bookmarks.len();
        let mut k2: usize = 0;
        proof {
            assert(origb.subrange(0, 0) =~= Seq::<RecordView>::empty());
        }
        while k2 < nb
            invariant
                nb == self.bookmarks.len(),
                0 <= k2 <= nb,
                self@ == pre,
                origb == pre.bookmarks,
                origb.len() == nb,
                idsv == ids_view(ids@),
                newb@.map_values(|b: BookmarkRecord| b@) =~= erase_bookmarks(
                    origb.subrange(0, k2 as int),
                    idsv,
                ),
                newb@.len() <= k2,
                forall|j: int| 0 <= j < nb ==> self@.bookmarks[j] == self.bookmarks@[j]@,
            decreases nb - k2,
        {
            proof {
                assert(origb.subrange(0, k2 + 1).drop_last() =~= origb.subrange(0, k2 as int));
                assert(origb.subrange(0, k2 + 1).last() == origb[k2 as int]);
            }
            let ghost outpre = newb@.map_values(|b: BookmarkRecord| b@);
            let bid = self.bookmarks[k2].id;
            if !ids_contain(ids, bid) {
                let rec = BookmarkRecord {
                    id: bid,
                    url: self.bookmarks[k2].url.clone(),
                    title: clone_opt_string(&self.bookmarks[k2].title),
                    description: clone_opt_string(&self.bookmarks[k2].description),
                    created_at: self.bookmarks[k2].created_at,
                };
                proof {
                    assert(rec@ =~= origb[k2 as int]);
                }
                newb.push(rec);
                proof {
                    assert(newb@.map_values(|b: BookmarkRecord| b@) =~= outpre.push(
                        origb[k2 as int],
                    ));
                }
            }
            k2 = k2 + 1;
        }
        proof {
            assert(origb.subrange(0, nb as int) =~= origb);
        }
        let removed = self.bookmarks.len() - newb.len();
        self.associations = newa;
        self.bookmarks = newb;
        proof {
            assert(self@.associations =~= erase_assocs(origa, idsv));
            assert(self@.bookmarks =~= erase_bookmarks(origb, idsv));
            assert(self@.tags == pre.tags);
            assert(self@.meta == pre.meta);
            assert(self@.next_id == pre.next_id);
            lemma_erase_assocs_props(origa, idsv);
            lemma_erase_bookmarks_props(origb, idsv);
            assert(self@.tables_wf()) by {
                assert forall|i: int, j: int|
                    0 <= i < j < self@.bookmarks.len() implies self@.bookmarks[i].id
                    != self@.bookmarks[j].id && self@.bookmarks[i].url != self@.bookmarks[
                    j
                ].url by {
                    assert(distinct(erase_bookmarks(origb, idsv)));
                    assert(self@.bookmarks[i] != self@.bookmarks[j]);
                    assert(erase_bookmarks(origb, idsv).contains(self@.bookmarks[i])) by {
                        assert(erase_bookmarks(origb, idsv)[i] == self@.bookmarks[i]);
                    }
                    assert(erase_bookmarks(origb, idsv).contains(self@.bookmarks[j])) by {
                        assert(erase_bookmarks(origb, idsv)[j] == self@.bookmarks[j]);
                    }
                    assert(origb.contains(self@.bookmarks[i]));
                    assert(origb.contains(self@.bookmarks[j]));
                    let a = choose|a: int|
                        0 <= a < origb.len() && origb[a] == self@.bookmarks[i];
                    let b = choose|b: int|
                        0 <= b < origb.len() && origb[b] == self@.bookmarks[j];
                    assert(a != b);
                    if a < b {
                        assert(origb[a].id != origb[b].id && origb[a].url != origb[b].url);
                    } else {
                        assert(origb[b].id != origb[a].id && origb[b].url != origb[a].url);
                    }
                }
                assert forall|k3: int|
                    0 <= k3 < self@.associations.len() implies self@.tags.contains(
                    #[trigger] self@.associations[k3].tag_name,
                ) && self@.has_bookmark_id(self@.associations[k3].bookmark_id) by {
                    let x = self@.associations[k3];
                    assert(erase_assocs(origa, idsv).contains(x)) by {
                        assert(erase_assocs(origa, idsv)[k3] == x);
                    }
                    assert(origa.contains(x) && !idsv.contains(x.bookmark_id));
                    let i = choose|i: int| 0 <= i < origa.len() && origa[i] == x;
                    assert(pre.tags.contains(origa[i].tag_name));
                    assert(pre.has_bookmark_id(origa[i].bookmark_id));
                    let w = choose|w: int|
                        0 <= w < pre.bookmarks.len() && pre.bookmarks[w].id == x.bookmark_id;
                    assert(erase_bookmarks(origb, idsv).contains(pre.bookmarks[w])) by {
                        assert(origb.contains(pre.bookmarks[w])) by {
                            assert(origb[w] == pre.bookmarks[w]);
                        }
                    }
                    let w2 = choose|w2: int|
                        0 <= w2 < self@.bookmarks.len() && self@.bookmarks[w2] == pre.bookmarks[
                            w
                        ];
                    assert(self@.bookmarks[w2].id == x.bookmark_id);
                }
                assert forall|i: int|
                    0 <= i < self@.bookmarks.len() implies 0 < #[trigger] self@.bookmarks[i].id
                    < self@.next_id by {
                    let x = self@.bookmarks[i];
                    assert(erase_bookmarks(origb, idsv).contains(x)) by {
                        assert(erase_bookmarks(origb, idsv)[i] == x);
                    }
                    assert(origb.contains(x));
                    let a = choose|a: int| 0 <= a < origb.len() && origb[a] == x;
                    assert(0 < origb[a].id < pre.next_id);
                }
            }
        }
        Ok(removed)
    }
}

/// Is `x` one of the ids?
fn ids_contain(ids: &Vec<i64>, x: i64) -> (r: bool)
    ensures
        r == ids_view(ids@).contains(x as int),
{
    let n = ids.len();
    let mut i: usize = 0;
    while i < n
        invariant
            n == ids@.len(),
            0 <= i <= n,
            forall|j: int| 0 <= j < i ==> ids_view(ids@)[j] != x as int,
        decreases n - i,
    {
        if ids[i] == x {
            assert(ids_view(ids@)[i as int] == x as int);
            return true;
        }
        i = i + 1;
    }
    false
}


/// The (name, count) rows that listing tags draws from: every tag with
/// at least one association, with its association count, in tag-table
/// order. Tags without associations are not listed.
pub open spec fn tag_counts(tags: Seq<Seq<char>>, assocs: Seq<AssocView>) -> Seq<(Seq<char>, int)>
    decreases tags.len(),
{
    if tags.len() == 0 {
        Seq::empty()
    } else {
        let rest = tag_counts(tags.drop_last(), assocs);
        let c = count_tag(assocs, tags.last());
        if c > 0 {
            rest.push((tags.last(), c as int))
        } else {
            rest
        }
    }
}

/// The order a tag listing is sorted by. The primary key is the
/// association count when `sort_by_count` is set, the tag name
/// otherwise; `reverse` flips the primary key's direction. Ties in the
/// count are always broken by ascending name, which makes the listing
/// deterministic.
pub open spec fn tag_order(
    sort_by_count: bool,
    reverse: bool,
    a: (Seq<char>, int),
    b: (Seq<char>, int),
) -> bool {
    if sort_by_count {
        if a.1 != b.1 {
            if reverse {
                a.1 > b.1
            } else {
                a.1 < b.1
            }
        } else {
            lex_le(a.0, b.0)
        }
    } else {
        if a.0 == b.0 {
            true
        } else if reverse {
            lex_lt(b.0, a.0)
        } else {
            lex_lt(a.0, b.0)
        }
    }
}

/// The listing order can compare any two rows.
proof fn lemma_tag_order_total(sort_by_count: bool, reverse: bool, a: (Seq<char>, int), b: (
    Seq<char>,
    int,
))
    ensures
        tag_order(sort_by_count, reverse, a, b) || tag_order(sort_by_count, reverse, b, a),
{
    lemma_lex_total(a.0, b.0);
}

/// The listing order is transitive.
proof fn lemma_tag_order_trans(
    sort_by_count: bool,
    reverse: bool,
    a: (Seq<char>, int),
    b: (Seq<char>, int),
    c: (Seq<char>, int),
)
    ensures
        tag_order(sort_by_count, reverse, a, b) && tag_order(sort_by_count, reverse, b, c)
            ==> tag_order(sort_by_count, reverse, a, c),
{
    lemma_lex_trans(a.0, b.0, c.0);
    lemma_lex_trans(c.0, b.0, a.0);
    lemma_lex_trans(b.0, c.0, a.0);
    lemma_lex_trans(c.0, a.0, b.0);
    lemma_lex_asym(a.0, b.0);
    lemma_lex_asym(b.0, c.0);
    lemma_lex_asym(a.0, c.0);
}

/// The view of an executable (name, count) row.
pub open spec fn pair_view(p: (String, usize)) -> (Seq<char>, int) {
    (p.0@, p.1 as int)
}

/// The views of a vector of (name, count) rows.
pub open spec fn pairs_view(s: Seq<(String, usize)>) -> Seq<(Seq<char>, int)> {
    s.map_values(|p: (String, usize)| pair_view(p))
}

impl Database {
    /// How many association rows reference tag `t`.
    fn count_assoc_rows(&self, t: &str) -> (r: usize)
        ensures
            r == count_tag(self@.associations, t@),
    {
        let n = self.associations.len();
        let mut cnt: usize = 0;
        let mut k: usize = 0;
        proof {
            assert(self@.associations.subrange(0, 0) =~= Seq::<AssocView>::empty());
        }
        while k < n
            invariant
                n == self.associations.len(),
                0 <= k <= n,
                self@.associations.len() == n,
                cnt == count_tag(self@.associations.subrange(0, k as int), t@),
                cnt <= k,
                forall|j: int| 0 <= j < n ==> self@.associations[j] == self.associations@[j]@,
            decreases n - k,
        {
            proof {
                assert(self@.associations.subrange(0, k + 1).drop_last() =~= self@.associations
                    .subrange(0, k as int));
                assert(self@.associations.subrange(0, k + 1).last() == self@.associations[
                    k as int
                ]);
            }
            if str_eq(self.associations[k].tag_name.as_str(), t) {
                cnt = cnt + 1;
            }
            k = k + 1;
        }
        proof {
            assert(self@.associations.subrange(0, n as int) =~= self@.associations);
        }
        cnt
    }

    /// Does the listing order put `a` at or before `b`?
    fn row_le(sort_by_count: bool, reverse: bool, a: &(String, usize), b: &(String, usize)) -> (r:
        bool)
        ensures
            r == tag_order(sort_by_count, reverse, pair_view(*a), pair_view(*b)),
    {
        if sort_by_count {
            if a.1 != b.1 {
                if reverse {
                    a.1 > b.1
                } else {
                    a.1 < b.1
                }
            } else {
                if str_eq(a.0.as_str(), b.0.as_str()) {
                    true
                } else {
                    lex_lt_str(a.0.as_str(), b.0.as_str())
                }
            }
        } else {
            if str_eq(a.0.as_str(), b.0.as_str()) {
                true
            } else if reverse {
                lex_lt_str(b.0.as_str(), a.0.as_str())
            } else {
                lex_lt_str(a.0.as_str(), b.0.as_str())
            }
        }
    }

    /// Lists every tag that has at least one association, with its
    /// count of associated bookmarks, sorted by count or by name per
    /// `sort_by_count`, in the direction given by `reverse`; equal
    /// counts are listed by ascending name. A tag left without
    /// associations does not appear.
    pub fn get_tags(&self, sort_by_count: bool, reverse: bool) -> (r: Result<
        Vec<(String, usize)>,
        Error,
    >)
        requires
            self@.wf(),
        ensures
            r is Ok,
            r matches Ok(ts) ==> {
                let out = pairs_view(ts@);
                let base = tag_counts(self@.tags, self@.associations);
                &&& forall|i: int, j: int|
                    0 <= i < j < out.len() ==> tag_order(
                        sort_by_count,
                        reverse,
                        #[trigger] out[i],
                        #[trigger] out[j],
                    )
                &&& forall|p: (Seq<char>, int)| #[trigger] out.contains(p) <==> base.contains(p)
                &&& out.len() == base.len()
                &&& forall|i: int, j: int| 0 <= i < j < out.len() ==> out[i].0 != out[j].0
            },
    {
        let ghost base = tag_counts(self@.tags, self@.associations);
        let nt = self.tags.len();
        let mut out: Vec<(String, usize)> = Vec::new();
        let mut k: usize = 0;
        proof {
            assert(self@.tags.subrange(0, 0) =~= Seq::<Seq<char>>::empty());
        }
        while k < nt
            invariant
                nt == self.tags.len(),
                0 <= k <= nt,
                self@.tags.len() == nt,
                self@.wf(),
                forall|i: int, j: int|
                    0 <= i < j < pairs_view(out@).len() ==> tag_order(
                        sort_by_count,
                        reverse,
                        #[trigger] pairs_view(out@)[i],
                        #[trigger] pairs_view(out@)[j],
                    ),
                forall|p: (Seq<char>, int)| #[trigger]
                    pairs_view(out@).contains(p) <==> tag_counts(
                        self@.tags.subrange(0, k as int),
                        self@.associations,
                    ).contains(p),
                pairs_view(out@).len() == tag_counts(
                    self@.tags.subrange(0, k as int),
                    self@.associations,
                ).len(),
                forall|i: int|
                    0 <= i < pairs_view(out@).len() ==> self@.tags.subrange(
                        0,
                        k as int,
                    ).contains(#[trigger] pairs_view(out@)[i].0),
                forall|i: int, j: int|
                    0 <= i < j < pairs_view(out@).len() ==> pairs_view(out@)[i].0 != pairs_view(
                        out@,
                    )[j].0,
                forall|j: int| 0 <= j < nt ==> self@.tags[j] == self.tags@[j]@,
            decreases nt - k,
        {
            let ghost prefix = self@.tags.subrange(0, k as int);
            let ghost basek = tag_counts(prefix, self@.associations);
            proof {
                assert(self@.tags.subrange(0, k + 1).drop_last() =~= prefix);
                assert(self@.tags.subrange(0, k + 1).last() == self@.tags[k as int]);
            }
            let c = self.count_assoc_rows(self.tags[k].as_str());
            if c > 0 {
                let row = (self.tags[k].clone(), c);
                let ghost rowv = pair_view(row);
                let ghost outv = pairs_view(out@);
                // find the insertion point that keeps the listing sorted
                let mut pos: usize = 0;
                let olen = out.len();
                while pos < olen && Self::row_le(sort_by_count, reverse, &out[pos], &row)
                    invariant
                        olen == out@.len(),
                        0 <= pos <= olen,
                        outv == pairs_view(out@),
                        rowv == pair_view(row),
                        forall|i: int|
                            0 <= i < pos ==> tag_order(
                                sort_by_count,
                                reverse,
                                #[trigger] outv[i],
                                rowv,
                            ),
                    decreases olen - pos,
                {
                    pos = pos + 1;
                }
                proof {
                    if pos < out@.len() {
                        assert(!tag_order(sort_by_count, reverse, outv[pos as int], rowv));
                        lemma_tag_order_total(sort_by_count, reverse, outv[pos as int], rowv);
                        assert(tag_order(sort_by_count, reverse, rowv, outv[pos as int]));
                    }
                }
                out.insert(pos, row);
                proof {
                    let newv = pairs_view(out@);
                    assert(newv =~= outv.insert(pos as int, rowv));
                    outv.insert_ensures(pos as int, rowv);
                    assert(basek.push(rowv) =~= tag_counts(
                        self@.tags.subrange(0, k + 1),
                        self@.associations,
                    ));
                    // sortedness around the insertion point
                    assert forall|i: int, j: int|
                        0 <= i < j < newv.len() implies tag_order(
                        sort_by_count,
                        reverse,
                        #[trigger] newv[i],
                        #[trigger] newv[j],
                    ) by {
                        if i < pos && j < pos {
                            assert(newv[i] == outv[i] && newv[j] == outv[j]);
                        } else if i < pos && j == pos {
                            assert(newv[i] == outv[i] && newv[j] == rowv);
                        } else if i < pos && j > pos {
                            assert(newv[i] == outv[i] && newv[j] == outv[j - 1]);
                        } else if i == pos && j > pos {
                            assert(newv[i] == rowv && newv[j] == outv[j - 1]);
                            assert(pos < outv.len());
                            assert(tag_order(sort_by_count, reverse, rowv, outv[pos as int]));
                            if j - 1 > pos {
                                lemma_tag_order_trans(sort_by_count, reverse, rowv,
                                    outv[pos as int], outv[j - 1]);
                            }
                        } else {
                            assert(newv[i] == outv[i - 1] && newv[j] == outv[j - 1]);
                        }
                    }
                    // membership: everything shifts by at most one slot
                    assert forall|p: (Seq<char>, int)| #[trigger] newv.contains(p) implies (
                    outv.contains(p) || p == rowv) by {
                        let i = choose|i: int| 0 <= i < newv.len() && newv[i] == p;
                        if i < pos {
                            assert(outv[i] == p);
                        } else if i > pos {
                            assert(outv[i - 1] == p);
                        }
                    }
                    assert forall|p: (Seq<char>, int)| outv.contains(p) implies #[trigger]
                        newv.contains(p) by {
                        let i = choose|i: int| 0 <= i < outv.len() && outv[i] == p;
                        if i < pos {
                            assert(newv[i] == p);
                        } else {
                            assert(newv[i + 1] == p);
                        }
                    }
                    assert(newv.contains(rowv)) by {
                        assert(newv[pos as int] == rowv);
                    }
                    assert forall|p: (Seq<char>, int)| #[trigger] basek.push(rowv).contains(
                        p,
                    ) implies (basek.contains(p) || p == rowv) by {
                        let i = choose|i: int|
                            0 <= i < basek.push(rowv).len() && basek.push(rowv)[i] == p;
                        if i < basek.len() {
                            assert(basek[i] == p);
                        }
                    }
                    assert forall|p: (Seq<char>, int)| basek.contains(p) implies #[trigger]
                        basek.push(rowv).contains(p) by {
                        let i = choose|i: int| 0 <= i < basek.len() && basek[i] == p;
                        assert(basek.push(rowv)[i] == p);
                    }
                    assert(basek.push(rowv).contains(rowv)) by {
                        assert(basek.push(rowv).last() == rowv);
                    }
                    // the new name is new: the tag table is duplicate-free
                    assert forall|i: int|
                        0 <= i < newv.len() implies self@.tags.subrange(0, k + 1).contains(
                        #[trigger] newv[i].0,
                    ) by {
                        if newv[i] == rowv {
                            assert(self@.tags.subrange(0, k + 1)[k as int] == rowv.0);
                        } else {
                            assert(outv.contains(newv[i]));
                            let i2 = choose|i2: int| 0 <= i2 < outv.len() && outv[i2] == newv[i];
                            assert(prefix.contains(outv[i2].0));
                            let i3 = choose|i3: int|
                                0 <= i3 < prefix.len() && prefix[i3] == outv[i2].0;
                            assert(self@.tags.subrange(0, k + 1)[i3] == newv[i].0);
                        }
                    }
                    assert forall|i: int, j: int|
                        0 <= i < j < newv.len() implies newv[i].0 != newv[j].0 by {
                        let a = newv[i];
                        let b = newv[j];
                        if a == rowv || b == rowv {
                            let other = if a == rowv { b } else { a };
                            if other != rowv {
                                assert(outv.contains(other));
                                let i2 = choose|i2: int|
                                    0 <= i2 < outv.len() && outv[i2] == other;
                                assert(prefix.contains(other.0));
                                let i3 = choose|i3: int|
                                    0 <= i3 < prefix.len() && prefix[i3] == other.0;
                                if other.0 == rowv.0 {
                                    assert(self@.tags[i3] == self@.tags[k as int]);
                                }
                            } else {
                                if i < pos {
                                    assert(newv[i] == outv[i]);
                                    assert(outv.contains(newv[i]));
                                } else if i > pos {
                                    assert(newv[i] == outv[i - 1]);
                                    assert(outv.contains(newv[i]));
                                } else {
                                    assert(j > pos);
                                    assert(newv[j] == outv[j - 1]);
                                    assert(outv.contains(newv[j]));
                                }
                                let w = if i == pos { j } else { i };
                                assert(outv.contains(newv[w]));
                                let i2 = choose|i2: int|
                                    0 <= i2 < outv.len() && outv[i2] == newv[w];
                                assert(prefix.contains(outv[i2].0));
                                let i3 = choose|i3: int|
                                    0 <= i3 < prefix.len() && prefix[i3] == outv[i2].0;
                                if newv[w].0 == rowv.0 {
                                    assert(self@.tags[i3] == self@.tags[k as int]);
                                }
                            }
                        } else {
                            let ia = choose|ia: int| 0 <= ia < outv.len() && outv[ia] == a;
                            let ib = choose|ib: int| 0 <= ib < outv.len() && outv[ib] == b;
                            assert(i != j);
                            if i < pos {
                                assert(newv[i] == outv[i]);
                            } else {
                                assert(newv[i] == outv[i - 1]);
                            }
                            if j < pos {
                                assert(newv[j] == outv[j]);
                            } else {
                                assert(newv[j] == outv[j - 1]);
                            }
                        }
                    }
                }
            } else {
                proof {
                    assert(tag_counts(self@.tags.subrange(0, k + 1), self@.associations)
                        =~= basek);
                }
            }
            k = k + 1;
        }
        proof {
            assert(self@.tags.subrange(0, nt as int) =~= self@.tags);
        }
        Ok(out)
    }
}


/// Every search hit carries the id of some bookmark row.
proof fn lemma_search_rows_ids(
    v: DbView,
    rows: Seq<RecordView>,
    query: Option<Seq<char>>,
    ts: Seq<Seq<char>>,
    all_tags: bool,
)
    ensures
        forall|i: int|
            0 <= i < search_rows_rec(v, rows, query, ts, all_tags).len() ==> exists|j: int|
                0 <= j < rows.len() && #[trigger] search_rows_rec(v, rows, query, ts, all_tags)[
                    i
                ].id == rows[j].id,
    decreases rows.len(),
{
    if rows.len() > 0 {
        let d = rows.drop_last();
        lemma_search_rows_ids(v, d, query, ts, all_tags);
        let res = search_rows_rec(v, rows, query, ts, all_tags);
        let rest = search_rows_rec(v, d, query, ts, all_tags);
        assert forall|i: int| 0 <= i < res.len() implies exists|j: int|
            0 <= j < rows.len() && #[trigger] res[i].id == rows[j].id by {
            if i < rest.len() {
                let j = choose|j: int| 0 <= j < d.len() && rest[i].id == d[j].id;
                assert(res[i].id == rows[j].id);
            } else {
                assert(res[i] == assemble(v, rows.last()));
                assert(res[i].id == rows[rows.len() - 1].id);
            }
        }
    }
}

/// Adding the same URL twice returns the same id both times. After a
/// successful add of a new url, the store holds that url, and the
/// record that the de-duplication branch of `add_bookmark` would then
/// return is exactly the record the first call created: same id, same
/// url, with the tags stored by the first call. The second call leaves
/// the store untouched, so tags it supplies are discarded, not merged.
pub proof fn lemma_add_same_url_twice(
    pre: DbView,
    post: DbView,
    b1: BookmarkView,
    url: Seq<char>,
    md: crate::web::MetadataView,
    ts: Seq<Seq<char>>,
)
    requires
        pre.tables_wf(),
        !pre.has_url(url),
        pre.next_id < i64::MAX,
        added_new(pre, post, b1, url, md, ts),
    ensures
        post.has_url(url),
        post.bookmark_at(post.url_index(url)).id == b1.id,
        post.bookmark_at(post.url_index(url)).url == url,
        post.bookmark_at(post.url_index(url)).tags == tags_of(post.associations, b1.id),
{
    let last = post.bookmarks.len() - 1;
    assert(post.bookmarks[last].url == url);
    assert(post.has_url(url));
    let i = post.url_index(url);
    assert(0 <= i < post.bookmarks.len() && post.bookmarks[i].url == url);
    if i != last {
        assert(post.bookmarks.drop_last()[i] == pre.bookmarks[i]);
        assert(pre.bookmarks[i].url == url);
        assert(false);
    }
    assert(post.bookmarks[i].id == b1.id);
}

/// Deleting bookmarks removes them from every subsequent search, and
/// leaves the tag table alone: a tag whose last association disappears
/// still has its row. The hypotheses are exactly what `delete_bookmarks`
/// ensures of the store before and after.
pub proof fn lemma_delete_excludes_from_search(
    pre: DbView,
    post: DbView,
    ids: Seq<int>,
    query: Option<Seq<char>>,
    ts: Seq<Seq<char>>,
    all_tags: bool,
)
    requires
        post.bookmarks == erase_bookmarks(pre.bookmarks, ids),
        post.associations == erase_assocs(pre.associations, ids),
        post.tags == pre.tags,
    ensures
        forall|i: int|
            0 <= i < search_result(post, query, ts, all_tags).len() ==> !ids.contains(
                #[trigger] search_result(post, query, ts, all_tags)[i].id,
            ),
        post.tags == pre.tags,
{
    lemma_search_rows_ids(post, post.bookmarks, query, ts, all_tags);
    lemma_erase_bookmarks_props(pre.bookmarks, ids);
    let res = search_result(post, query, ts, all_tags);
    assert forall|i: int| 0 <= i < res.len() implies !ids.contains(#[trigger] res[i].id) by {
        let j = choose|j: int| 0 <= j < post.bookmarks.len() && res[i].id == post.bookmarks[j].id;
        assert(erase_bookmarks(pre.bookmarks, ids).contains(post.bookmarks[j])) by {
            assert(erase_bookmarks(pre.bookmarks, ids)[j] == post.bookmarks[j]);
        }
        assert(!ids.contains(post.bookmarks[j].id));
    }
}


impl Database {
    /// The stored schema version of a well-formed store.
    pub fn schema_version(&self) -> (r: usize)
        requires
            self@.wf(),
        ensures
            r == self@.version(),
    {
        match self.meta_get("database_version") {
            Some(v) => match parse_decimal(v.as_str()) {
                Some(n) => n,
                None => 0,
            },
            None => 0,
        }
    }

    /// Assembles a store from raw table rows, checking every constraint
    /// the schema declares: unique ids, urls, tag names, association
    /// pairs and meta keys, referential integrity, and ids below the id
    /// counter. Rows that break a constraint are a storage error.
    pub fn from_rows(
        bookmarks: Vec<BookmarkRecord>,
        tags: Vec<String>,
        associations: Vec<Association>,
        meta: Vec<MetaRow>,
        next_id: i64,
    ) -> (r: Result<Database, Error>)
        ensures
            r matches Ok(db) ==> db@.tables_wf() && db@.bookmarks == bookmarks@.map_values(
                |b: BookmarkRecord| b@,
            ) && db@.tags == tags@.map_values(|t: String| t@) && db@.associations
                == associations@.map_values(|a: Association| a@) && db@.meta == meta@.map_values(
                |m: MetaRow| m@,
            ) && db@.next_id == next_id,
            r matches Err(e) ==> e == Error::Storage,
            r is Ok <==> (DbView {
                bookmarks: bookmarks@.map_values(|b: BookmarkRecord| b@),
                tags: tags@.map_values(|t: String| t@),
                associations: associations@.map_values(|a: Association| a@),
                meta: meta@.map_values(|m: MetaRow| m@),
                next_id: next_id as int,
            }).tables_wf(),
    {
        let db = Database { bookmarks, tags, associations, meta, next_id };
        if db.check_tables() {
            Ok(db)
        } else {
            Err(Error::Storage)
        }
    }

    /// Checks the schema constraints on this store's tables.
    fn check_tables(&self) -> (r: bool)
        ensures
            r == self@.tables_wf(),
    {
        if self.next_id < 1 {
            return false;
        }
        let nb = self.bookmarks.len();
        let mut i: usize = 0;
        while i < nb
            invariant
                nb == self.bookmarks.len(),
                0 <= i <= nb,
                self.next_id >= 1,
                forall|a: int, b: int|
                    0 <= a < b < i ==> self@.bookmarks[a].id != self@.bookmarks[b].id,
                forall|a: int, b: int|
                    0 <= a < b < i ==> self@.bookmarks[a].url != self@.bookmarks[b].url,
                forall|a: int| 0 <= a < i ==> 0 < #[trigger] self@.bookmarks[a].id < self@.next_id,
                forall|j: int| 0 <= j < nb ==> self@.bookmarks[j] == self.bookmarks@[j]@,
            decreases nb - i,
        {
            if self.bookmarks[i].id < 1 || self.bookmarks[i].id >= self.next_id {
                assert(!(0 < self@.bookmarks[i as int].id < self@.next_id));
                return false;
            }
            let mut j: usize = 0;
            while j < i
                invariant
                    nb == self.bookmarks.len(),
                    0 <= j <= i < nb,
                    forall|b: int|
                        0 <= b < j ==> self@.bookmarks[b].id != self@.bookmarks[i as int].id
                            && self@.bookmarks[b].url != self@.bookmarks[i as int].url,
                    forall|k: int| 0 <= k < nb ==> self@.bookmarks[k] == self.bookmarks@[k]@,
                decreases i - j,
            {
                if self.bookmarks[j].id == self.bookmarks[i].id || str_eq(
                    self.bookmarks[j].url.as_str(),
                    self.bookmarks[i].url.as_str(),
                ) {
                    assert(self@.bookmarks[j as int].id == self@.bookmarks[i as int].id
                        || self@.bookmarks[j as int].url == self@.bookmarks[i as int].url);
                    return false;
                }
                j = j + 1;
            }
            i = i + 1;
        }
        let nt = self.tags.len();
        let mut i2: usize = 0;
        while i2 < nt
            invariant
                nt == self.tags.len(),
                0 <= i2 <= nt,
                forall|a: int, b: int| 0 <= a < b < i2 ==> self@.tags[a] != self@.tags[b],
                forall|j: int| 0 <= j < nt ==> self@.tags[j] == self.tags@[j]@,
            decreases nt - i2,
        {
            let mut j: usize = 0;
            while j < i2
                invariant
                    nt == self.tags.len(),
                    0 <= j <= i2 < nt,
                    forall|b: int| 0 <= b < j ==> self@.tags[b] != self@.tags[i2 as int],
                    forall|k: int| 0 <= k < nt ==> self@.tags[k] == self.tags@[k]@,
                decreases i2 - j,
            {
                if str_eq(self.tags[j].as_str(), self.tags[i2].as_str()) {
                    assert(self@.tags[j as int] == self@.tags[i2 as int]);
                    return false;
                }
                j = j + 1;
            }
            i2 = i2 + 1;
        }
        let na = self.associations.len();
        let mut i3: usize = 0;
        while i3 < na
            invariant
                na == self.associations.len(),
                0 <= i3 <= na,
                forall|a: int, b: int|
                    0 <= a < b < i3 ==> self@.associations[a] != self@.associations[b],
                forall|k: int|
                    0 <= k < i3 ==> self@.tags.contains(
                        #[trigger] self@.associations[k].tag_name,
                    ) && self@.has_bookmark_id(self@.associations[k].bookmark_id),
                forall|j: int| 0 <= j < na ==> self@.associations[j] == self.associations@[j]@,
            decreases na - i3,
        {
            let bid = self.associations[i3].bookmark_id;
            if !self.has_tag(self.associations[i3].tag_name.as_str()) {
                assert(!self@.tags.contains(self@.associations[i3 as int].tag_name));
                assert(!self@.tables_wf()) by {
                    if self@.tables_wf() {
                        assert(self@.tags.contains(
                            #[trigger] self@.associations[i3 as int].tag_name,
                        ));
                    }
                }
                return false;
            }
            let mut found = false;
            let nb2 = self.bookmarks.len();
            let mut w: usize = 0;
            while w < nb2
                invariant
                    nb2 == self.bookmarks.len(),
                    0 <= w <= nb2,
                    found ==> self@.has_bookmark_id(bid as int),
                    !found ==> forall|k: int| 0 <= k < w ==> self@.bookmarks[k].id != bid as int,
                    forall|k: int| 0 <= k < nb2 ==> self@.bookmarks[k] == self.bookmarks@[k]@,
                decreases nb2 - w,
            {
                if self.bookmarks[w].id == bid {
                    found = true;
                    proof {
                        assert(self@.bookmarks[w as int].id == bid as int);
                    }
                }
                w = w + 1;
            }
            if !found {
                assert(!self@.has_bookmark_id(self@.associations[i3 as int].bookmark_id));
                assert(!self@.tables_wf()) by {
                    if self@.tables_wf() {
                        let tn = self@.associations[i3 as int].tag_name;
                        assert(self@.tags.contains(tn) && self@.has_bookmark_id(
                            self@.associations[i3 as int].bookmark_id,
                        ));
                    }
                }
                return false;
            }
            let mut j: usize = 0;
            while j < i3
                invariant
                    na == self.associations.len(),
                    0 <= j <= i3 < na,
                    forall|b: int| 0 <= b < j ==> self@.associations[b] != self@.associations[
                        i3 as int
                    ],
                    forall|k: int| 0 <= k < na ==> self@.associations[k] == self.associations@[
                        k
                    ]@,
                decreases i3 - j,
            {
                let same = self.associations[j].bookmark_id == self.associations[i3].bookmark_id
                    && str_eq(
                    self.associations[j].tag_name.as_str(),
                    self.associations[i3].tag_name.as_str(),
                );
                if same {
                    proof {
                        assert(self@.associations[j as int] =~= self@.associations[i3 as int]);
                    }
                    assert(!self@.tables_wf());
                    return false;
                }
                proof {
                    if self@.associations[j as int] == self@.associations[i3 as int] {
                        assert(self@.associations[j as int].bookmark_id == self@.associations[
                            i3 as int
                        ].bookmark_id);
                        assert(self@.associations[j as int].tag_name == self@.associations[
                            i3 as int
                        ].tag_name);
                    }
                }
                j = j + 1;
            }
            i3 = i3 + 1;
        }
        let nm = self.meta.len();
        let mut i4: usize = 0;
        while i4 < nm
            invariant
                nm == self.meta.len(),
                0 <= i4 <= nm,
                forall|a: int, b: int| 0 <= a < b < i4 ==> self@.meta[a].key != self@.meta[b].key,
                forall|j: int| 0 <= j < nm ==> self@.meta[j] == self.meta@[j]@,
            decreases nm - i4,
        {
            let mut j: usize = 0;
            while j < i4
                invariant
                    nm == self.meta.len(),
                    0 <= j <= i4 < nm,
                    forall|b: int| 0 <= b < j ==> self@.meta[b].key != self@.meta[i4 as int].key,
                    forall|k: int| 0 <= k < nm ==> self@.meta[k] == self.meta@[k]@,
                decreases i4 - j,
            {
                if str_eq(self.meta[j].key.as_str(), self.meta[i4].key.as_str()) {
                    assert(self@.meta[j as int].key == self@.meta[i4 as int].key);
                    return false;
                }
                j = j + 1;
            }
            i4 = i4 + 1;
        }
        true
    }
}


impl Database {
    /// The bookmark table rows, for persistence by the embedding program.
    pub fn bookmark_rows(&self) -> (r: &Vec<BookmarkRecord>)
        ensures
            r@.map_values(|b: BookmarkRecord| b@) == self@.bookmarks,
    {
        &self.bookmarks
    }

    /// The tag table rows.
    pub fn tag_rows(&self) -> (r: &Vec<String>)
        ensures
            r@.map_values(|t: String| t@) == self@.tags,
    {
        &self.tags
    }

    /// The association table rows.
    pub fn association_rows(&self) -> (r: &Vec<Association>)
        ensures
            r@.map_values(|a: Association| a@) == self@.associations,
    {
        &self.associations
    }

    /// The meta table rows.
    pub fn meta_rows(&self) -> (r: &Vec<MetaRow>)
        ensures
            r@.map_values(|m: MetaRow| m@) == self@.meta,
    {
        &self.meta
    }

    /// The id the next bookmark will receive.
    pub fn id_counter(&self) -> (r: i64)
        ensures
            r == self@.next_id,
    {
        self.next_id
    }
}


/// The comma-separated colored tag names of a displayed bookmark.
pub open spec fn colored_tag_items(ts: Seq<Seq<char>>) -> Seq<char>
    decreases ts.len(),
{
    if ts.len() == 0 {
        Seq::empty()
    } else if ts.len() == 1 {
        colored(ts.first(), Color::Yellow)
    } else {
        colored(ts.first(), Color::Yellow) + seq![','] + colored_tag_items(ts.drop_first())
    }
}

/// What the displayed tag list of a bookmark is: nothing without tags,
/// the colored names in brackets otherwise.
pub open spec fn formatted_tags(ts: Seq<Seq<char>>) -> Seq<char> {
    if ts.len() == 0 {
        Seq::empty()
    } else {
        seq!['['] + colored_tag_items(ts) + seq![']']
    }
}

fn format_tag_items(ts: &Vec<String>, pos: usize) -> (r: String)
    requires
        pos <= ts@.len(),
    ensures
        r@ == colored_tag_items(ts.deep_view().subrange(pos as int, ts@.len() as int)),
    decreases ts@.len() - pos,
{
    let n = ts.len();
    let ghost sub = ts.deep_view().subrange(pos as int, ts@.len() as int);
    if pos >= n {
        proof {
            assert(sub =~= Seq::<Seq<char>>::empty());
        }
        String::new()
    } else {
        let mut out = color(ts[pos].as_str(), Color::Yellow);
        proof {
            assert(sub.first() == ts.deep_view()[pos as int]);
        }
        if pos + 1 < n {
            out.push(',');
            let rest = format_tag_items(ts, pos + 1);
            out.append(rest.as_str());
            proof {
                assert(sub.drop_first() =~= ts.deep_view().subrange(pos + 1, ts@.len() as int));
                assert(out@ =~= colored_tag_items(sub));
            }
        } else {
            proof {
                assert(sub.len() == 1);
            }
        }
        out
    }
}

impl Bookmark {
    /// The bracketed, comma-separated, colored tag list for display,
    /// or nothing when the bookmark carries no tags.
    pub fn format_tags(&self) -> (r: String)
        ensures
            r@ == formatted_tags(self@.tags),
    {
        if self.tags.len() == 0 {
            String::new()
        } else {
            let mut out = String::new();
            out.push('[');
            let items = format_tag_items(&self.tags, 0);
            out.append(items.as_str());
            out.push(']');
            proof {
                assert(self.tags.deep_view().subrange(0, self.tags@.len() as int)
                    =~= self@.tags);
                assert(out@ =~= formatted_tags(self@.tags));
            }
            out
        }
    }
}

} // verus!
