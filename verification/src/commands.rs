//! The command contract: one capability set (add, find, tags, rename a
//! tag, delete) served interchangeably by the local store adapter here
//! and by the remote adapter, selected once at startup.

use vstd::prelude::*;

use crate::db::{added_new, erase_assocs, erase_bookmarks, ids_view, rename_assocs, count_tag,
    search_result, tag_counts, tag_order, pairs_view, Bookmark, BookmarkView, Database, DbView,
    Error};
use crate::web::{Metadata, MetadataFetcher, MetadataView};

verus! {

/// Arguments of `add`: the URL, tags for it, and optional explicit
/// title and description.
#[derive(Clone, Debug, PartialEq)]
pub struct Add {
    pub url: String,
    pub tags: Vec<String>,
    pub title: Option<String>,
    pub description: Option<String>,
}

/// Arguments of `find`: an optional free-text query, tags to restrict
/// to, and whether all of them must match rather than any.
#[derive(Clone, Debug, PartialEq)]
pub struct Search {
    pub query: Option<String>,
    pub tags: Vec<String>,
    pub all_tags: bool,
}

/// Arguments of `tags`: the sort key and direction.
#[derive(Clone, Copy, Debug, PartialEq, Eq, Structural)]
pub struct Tags {
    pub sort_by_count: bool,
    pub reverse: bool,
}

/// Arguments of `rename_tag`.
#[derive(Clone, Debug, PartialEq)]
pub struct RenameTag {
    pub from: String,
    pub to: String,
}

/// Arguments of `delete`: the same shape as a search, plus a flag that
/// lets front ends skip their confirmation prompt.
#[derive(Clone, Debug, PartialEq)]
pub struct Delete {
    pub search: Search,
    pub force: bool,
}

/// Mathematical image of Add.
#[verifier::ext_equal]
pub struct AddView {
    pub url: Seq<char>,
    pub tags: Seq<Seq<char>>,
    pub title: Option<Seq<char>>,
    pub description: Option<Seq<char>>,
}

/// Mathematical image of Search.
#[verifier::ext_equal]
pub struct SearchView {
    pub query: Option<Seq<char>>,
    pub tags: Seq<Seq<char>>,
    pub all_tags: bool,
}

/// Mathematical image of RenameTag.
#[verifier::ext_equal]
pub struct RenameTagView {
    pub from: Seq<char>,
    pub to: Seq<char>,
}

/// Mathematical image of Delete.
#[verifier::ext_equal]
pub struct DeleteView {
    pub search: SearchView,
    pub force: bool,
}

impl View for Add {
    type V = AddView;

    open spec fn view(&self) -> AddView {
        AddView {
            url: self.url@,
            tags: self.tags.deep_view(),
            title: self.title.deep_view(),
            description: self.description.deep_view(),
        }
    }
}

impl View for Search {
    type V = SearchView;

    open spec fn view(&self) -> SearchView {
        SearchView {
            query: self.query.deep_view(),
            tags: self.tags.deep_view(),
            all_tags: self.all_tags,
        }
    }
}

impl View for RenameTag {
    type V = RenameTagView;

    open spec fn view(&self) -> RenameTagView {
        RenameTagView { from: self.from@, to: self.to@ }
    }
}

impl View for Delete {
    type V = DeleteView;

    open spec fn view(&self) -> DeleteView {
        DeleteView { search: self.search@, force: self.force }
    }
}

/// The ids of a sequence of search hits, in order.
pub open spec fn ids_of(bs: Seq<BookmarkView>) -> Seq<int> {
    bs.map_values(|b: BookmarkView| b.id)
}

/// What a conforming `find` answers: exactly the store's search result.
pub open spec fn find_post(store: DbView, args: SearchView, r: Result<Vec<Bookmark>, Error>)
    -> bool {
    &&& r is Ok
    &&& r matches Ok(bs) ==> bs@.map_values(|b: Bookmark| b@) == search_result(
        store,
        args.query,
        args.tags,
        args.all_tags,
    )
}

/// What a conforming `tags` answers: the tags carrying associations,
/// each with its count, sorted in the requested order, ties in the
/// count broken by ascending name.
pub open spec fn tags_post(store: DbView, args: Tags, r: Result<Vec<(String, usize)>, Error>)
    -> bool {
    &&& r is Ok
    &&& r matches Ok(ts) ==> {
        let out = pairs_view(ts@);
        let base = tag_counts(store.tags, store.associations);
        &&& forall|i: int, j: int|
            0 <= i < j < out.len() ==> tag_order(
                args.sort_by_count,
                args.reverse,
                #[trigger] out[i],
                #[trigger] out[j],
            )
        &&& forall|p: (Seq<char>, int)| #[trigger] out.contains(p) <==> base.contains(p)
        &&& out.len() == base.len()
        &&& forall|i: int, j: int| 0 <= i < j < out.len() ==> out[i].0 != out[j].0
    }
}

/// What a conforming `rename_tag` does to the store and answers.
pub open spec fn rename_post(
    pre: DbView,
    post: DbView,
    args: RenameTagView,
    r: Result<usize, Error>,
) -> bool {
    &&& r is Ok
    &&& post.bookmarks == pre.bookmarks
    &&& post.meta == pre.meta
    &&& post.tags == (if pre.tags.contains(args.to) {
        pre.tags
    } else {
        pre.tags.push(args.to)
    })
    &&& post.associations == rename_assocs(pre.associations, pre.associations, args.from, args.to)
    &&& r matches Ok(c) ==> c == count_tag(pre.associations, args.from)
}

/// What a conforming `delete` does: every bookmark the embedded search
/// finds is removed, with its associations, and the count of removed
/// bookmarks is returned.
pub open spec fn delete_post(pre: DbView, post: DbView, args: DeleteView, r: Result<usize, Error>)
    -> bool {
    let found = ids_of(
        search_result(pre, args.search.query, args.search.tags, args.search.all_tags),
    );
    &&& r is Ok
    &&& post.tags == pre.tags
    &&& post.meta == pre.meta
    &&& post.bookmarks == erase_bookmarks(pre.bookmarks, found)
    &&& post.associations == erase_assocs(pre.associations, found)
    &&& r matches Ok(c) ==> c == pre.bookmarks.len() - post.bookmarks.len()
}

/// What a conforming `add` does. Which metadata is stored for a new
/// bookmark depends on the fetch collaborator, so it is existentially
/// quantified, pinned down only when an explicit title was supplied.
pub open spec fn add_post(
    pre: DbView,
    post: DbView,
    args: AddView,
    r: Result<Bookmark, Error>,
) -> bool {
    &&& pre.has_url(args.url) ==> (post == pre && (r matches Ok(b) && b@ == pre.bookmark_at(
        pre.url_index(args.url),
    )))
    &&& (!pre.has_url(args.url) && pre.next_id < i64::MAX) ==> (r matches Ok(b) && (exists|
        md: MetadataView,
    |
        #[trigger] added_new(pre, post, b@, args.url, md, args.tags) && (args.title is Some
            ==> md == MetadataView { title: args.title, description: args.description })))
    &&& r is Err <==> (!pre.has_url(args.url) && pre.next_id == i64::MAX)
    &&& r matches Err(e) ==> e == Error::Storage && post == pre
}

/// The capability set both backends serve. Each implementation says in
/// its `*_ens` spec functions what its answers mean; the local adapter
/// pins them to the verified store, the remote adapter can promise
/// nothing of a network peer.
pub trait Interface: Sized {
    /// The adapter's invariant, established at construction.
    spec fn inv(&self) -> bool;

    /// What this adapter's `add` guarantees.
    spec fn add_ens(&self, pre: Self, args: AddView, r: Result<Bookmark, Error>) -> bool;

    /// What this adapter's `find` guarantees.
    spec fn find_ens(&self, args: SearchView, r: Result<Vec<Bookmark>, Error>) -> bool;

    /// What this adapter's `tags` guarantees.
    spec fn tags_ens(&self, args: Tags, r: Result<Vec<(String, usize)>, Error>) -> bool;

    /// What this adapter's `rename_tag` guarantees.
    spec fn rename_ens(&self, pre: Self, args: RenameTagView, r: Result<usize, Error>) -> bool;

    /// What this adapter's `delete` guarantees.
    spec fn delete_ens(&self, pre: Self, args: DeleteView, r: Result<usize, Error>) -> bool;

    fn add(&mut self, args: Add) -> (r: Result<Bookmark, Error>)
        requires
            old(self).inv(),
        ensures
            final(self).inv(),
            final(self).add_ens(*old(self), args@, r),
    ;

    fn find(&self, args: Search) -> (r: Result<Vec<Bookmark>, Error>)
        requires
            self.inv(),
        ensures
            self.find_ens(args@, r),
    ;

    fn tags(&self, args: Tags) -> (r: Result<Vec<(String, usize)>, Error>)
        requires
            self.inv(),
        ensures
            self.tags_ens(args, r),
    ;

    fn rename_tag(&mut self, args: RenameTag) -> (r: Result<usize, Error>)
        requires
            old(self).inv(),
        ensures
            final(self).inv(),
            final(self).rename_ens(*old(self), args@, r),
    ;

    fn delete(&mut self, args: Delete) -> (r: Result<usize, Error>)
        requires
            old(self).inv(),
        ensures
            final(self).inv(),
            final(self).delete_ens(*old(self), args@, r),
    ;
}

/// The local adapter: the verified store, plus the metadata-fetch
/// collaborator used to enrich adds that supply no title.
pub struct DatabaseInterface<W: MetadataFetcher> {
    db: Database,
    web: W,
}

impl<W: MetadataFetcher> DatabaseInterface<W> {
    /// The store this adapter serves.
    pub closed spec fn store(&self) -> DbView {
        self.db@
    }

    /// The store itself, for persistence by the embedding program.
    pub fn database(&self) -> (r: &Database)
        ensures
            r@ == self.store(),
    {
        &self.db
    }

    /// A local adapter over an opened store.
    pub fn from(db: Database, web: W) -> (r: Self)
        requires
            db@.wf(),
        ensures
            r.store() == db@,
            r.inv(),
    {
        Self { db, web }
    }
}

impl<W: MetadataFetcher> Interface for DatabaseInterface<W> {
    closed spec fn inv(&self) -> bool {
        self.store().wf()
    }

    open spec fn add_ens(&self, pre: Self, args: AddView, r: Result<Bookmark, Error>) -> bool {
        add_post(pre.store(), self.store(), args, r)
    }

    open spec fn find_ens(&self, args: SearchView, r: Result<Vec<Bookmark>, Error>) -> bool {
        find_post(self.store(), args, r)
    }

    open spec fn tags_ens(&self, args: Tags, r: Result<Vec<(String, usize)>, Error>) -> bool {
        tags_post(self.store(), args, r)
    }

    open spec fn rename_ens(&self, pre: Self, args: RenameTagView, r: Result<usize, Error>)
        -> bool {
        rename_post(pre.store(), self.store(), args, r)
    }

    open spec fn delete_ens(&self, pre: Self, args: DeleteView, r: Result<usize, Error>) -> bool {
        delete_post(pre.store(), self.store(), args, r)
    }

    fn add(&mut self, args: Add) -> (r: Result<Bookmark, Error>) {
        let metadata = if args.title.is_some() {
            Metadata { title: args.title, description: args.description }
        } else {
            match self.web.fetch(args.url.as_str()) {
                Some(m) => m,
                None => Metadata { title: None, description: None },
            }
        };
        let ghost md = metadata@;
        let r = self.db.add_bookmark(args.url.as_str(), metadata, &args.tags);
        proof {
            let pre = old(self).store();
            let post = self.store();
            if !pre.has_url(args@.url) && pre.next_id < i64::MAX {
                let b = r.unwrap()@;
                assert(added_new(pre, post, b, args@.url, md, args@.tags));
                assert(args@.title is Some ==> md == (MetadataView {
                    title: args@.title,
                    description: args@.description,
                }));
                assert(exists|m: MetadataView|
                    #[trigger] added_new(pre, post, b, args@.url, m, args@.tags) && (args@.title
                        is Some ==> m == (MetadataView {
                        title: args@.title,
                        description: args@.description,
                    })));
            }
        }
        r
    }

    fn find(&self, args: Search) -> (r: Result<Vec<Bookmark>, Error>) {
        self.db.search_bookmarks(&args.query, &args.tags, args.all_tags)
    }

    fn tags(&self, args: Tags) -> (r: Result<Vec<(String, usize)>, Error>) {
        self.db.get_tags(args.sort_by_count, args.reverse)
    }

    fn rename_tag(&mut self, args: RenameTag) -> (r: Result<usize, Error>) {
        self.db.rename_tag(args.from.as_str(), args.to.as_str())
    }

    fn delete(&mut self, args: Delete) -> (r: Result<usize, Error>) {
        let found = match self.db.search_bookmarks(
            &args.search.query,
            &args.search.tags,
            args.search.all_tags,
        ) {
            Ok(bs) => bs,
            Err(e) => {
                return Err(e);
            },
        };
        let ghost foundv = found@.map_values(|b: Bookmark| b@);
        let mut ids: Vec<i64> = Vec::new();
        let n = found.len();
        let mut i: usize = 0;
        while i < n
            invariant
                n == found@.len(),
                0 <= i <= n,
                foundv == found@.map_values(|b: Bookmark| b@),
                ids@.len() == i,
                forall|j: int| 0 <= j < i ==> ids_view(ids@)[j] == ids_of(foundv)[j],
            decreases n - i,
        {
            ids.push(found[i].id);
            i = i + 1;
        }
        proof {
            assert(ids_view(ids@) =~= ids_of(foundv));
        }
        self.db.delete_bookmarks(&ids)
    }
}

} // verus!
