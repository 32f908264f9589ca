//! The remote adapter: the same command contract served by encoding
//! each request for the wire, sending it with the static credentials
//! through a transport the embedding program supplies, and decoding
//! the typed JSON answer. Nothing can be promised of what a network
//! peer answers; what makes the two backends interchangeable is proved
//! in the agreement lemmas below, over the same wire functions the
//! adapter and the server handler execute.

use vstd::prelude::*;
use vstd::string::StringExecFns;

use crate::commands::{Add, AddView, Delete, DeleteView, Interface, RenameTag, RenameTagView,
    Search, SearchView, Tags};
use crate::config::Server;
use crate::db::{search_result, Bookmark, BookmarkView, DbView, Error};
use crate::decimal::{dec_of, dec_value};
use crate::wire::{bookmarks_wire_ok, e_add_body, e_rename_query, e_search_query, e_tags_query,
    enc_rename_query, enc_search_query, enc_tags_query, json_add_body, json_bookmark,
    json_bookmark_array, json_tag_array, lemma_add_body_round, lemma_bookmark_array_round,
    lemma_bookmark_round, lemma_num_suffix, lemma_rename_query_round, lemma_search_query_round,
    lemma_tag_array_round, lemma_tags_query_round, p_bookmark, p_bookmark_array, p_count,
    p_tag_array, pairs_wire_ok, sp_add_body, sp_bookmark, sp_bookmark_array, sp_bookmark_items,
    sp_num,
    sp_rename_query, sp_search_query, sp_tag_array, sp_tags_query};

verus! {

/// The port through which the remote adapter reaches the server: one
/// synchronous exchange carrying the method, the path with its query
/// string, an optional body, and the credential headers. A network
/// answer can be anything, so the method carries no contract.
pub trait Transport {
    fn send(
        &self,
        method: &str,
        url: &str,
        body: Option<&str>,
        username: &str,
        password: &str,
    ) -> Result<String, Error>;
}

/// The remote backend: the server's base URL, the static credentials,
/// and the transport that carries the exchanges.
pub struct ServerInterface<T: Transport> {
    url: String,
    username: String,
    password: String,
    transport: T,
}

impl<T: Transport> ServerInterface<T> {
    /// A remote adapter for the configured server.
    pub fn new(server: Server, transport: T) -> (r: Self)
        ensures
            r.inv(),
    {
        ServerInterface {
            url: server.url,
            username: server.username,
            password: server.password,
            transport,
        }
    }

    /// One exchange with the server.
    fn request(&self, method: &str, path: &str, body: Option<&str>) -> Result<String, Error> {
        let mut url = self.url.clone();
        url.append(path);
        self.transport.send(
            method,
            url.as_str(),
            body,
            self.username.as_str(),
            self.password.as_str(),
        )
    }
}

impl<T: Transport> Interface for ServerInterface<T> {
    open spec fn inv(&self) -> bool {
        true
    }

    /// What the wire guarantees of a decoded add answer: the id is in
    /// range; the payload itself came from the network.
    open spec fn add_ens(&self, pre: Self, args: AddView, r: Result<Bookmark, Error>) -> bool {
        r matches Ok(b) ==> 0 <= b@.id <= i64::MAX
    }

    open spec fn find_ens(&self, args: SearchView, r: Result<Vec<Bookmark>, Error>) -> bool {
        r matches Ok(bs) ==> forall|i: int|
            0 <= i < bs@.len() ==> 0 <= #[trigger] bs@[i].id <= i64::MAX
    }

    open spec fn tags_ens(&self, args: Tags, r: Result<Vec<(String, usize)>, Error>) -> bool {
        true
    }

    open spec fn rename_ens(&self, pre: Self, args: RenameTagView, r: Result<usize, Error>)
        -> bool {
        true
    }

    open spec fn delete_ens(&self, pre: Self, args: DeleteView, r: Result<usize, Error>) -> bool {
        true
    }

    fn add(&mut self, args: Add) -> (r: Result<Bookmark, Error>) {
        let body = e_add_body(&args);
        let text = match self.request("POST", "/bookmark", Some(body.as_str())) {
            Ok(t) => t,
            Err(e) => {
                return Err(e);
            },
        };
        match p_bookmark(text.as_str(), 0) {
            Some((b, p)) => {
                if p == text.unicode_len() {
                    proof {
                        assert(sp_bookmark(text@, 0) matches Some((bv, _)) && 0 <= bv.id
                            <= i64::MAX);
                    }
                    Ok(b)
                } else {
                    Err(Error::Serialization)
                }
            },
            None => Err(Error::Serialization),
        }
    }

    fn find(&self, args: Search) -> (r: Result<Vec<Bookmark>, Error>) {
        let q = e_search_query(&args);
        let mut path = String::from_str("/search?");
        path.append(q.as_str());
        let text = match self.request("GET", path.as_str(), None) {
            Ok(t) => t,
            Err(e) => {
                return Err(e);
            },
        };
        match p_bookmark_array(text.as_str(), 0) {
            Some((bs, p)) => {
                if p == text.unicode_len() {
                    proof {
                        lemma_parsed_ids(text@, bs@);
                    }
                    Ok(bs)
                } else {
                    Err(Error::Serialization)
                }
            },
            None => Err(Error::Serialization),
        }
    }

    fn tags(&self, args: Tags) -> (r: Result<Vec<(String, usize)>, Error>) {
        let q = e_tags_query(args.sort_by_count, args.reverse);
        let mut path = String::from_str("/tags?");
        path.append(q.as_str());
        let text = match self.request("GET", path.as_str(), None) {
            Ok(t) => t,
            Err(e) => {
                return Err(e);
            },
        };
        match p_tag_array(text.as_str(), 0) {
            Some((ps, p)) => {
                if p == text.unicode_len() {
                    Ok(ps)
                } else {
                    Err(Error::Serialization)
                }
            },
            None => Err(Error::Serialization),
        }
    }

    fn rename_tag(&mut self, args: RenameTag) -> (r: Result<usize, Error>) {
        let q = e_rename_query(args.from.as_str(), args.to.as_str());
        let mut path = String::from_str("/tags?");
        path.append(q.as_str());
        let text = match self.request("PATCH", path.as_str(), None) {
            Ok(t) => t,
            Err(e) => {
                return Err(e);
            },
        };
        match p_count(text.as_str()) {
            Some(c) => Ok(c),
            None => Err(Error::Serialization),
        }
    }

    fn delete(&mut self, args: Delete) -> (r: Result<usize, Error>) {
        let q = e_search_query(&args.search);
        let mut path = String::from_str("/search?");
        path.append(q.as_str());
        let text = match self.request("DELETE", path.as_str(), None) {
            Ok(t) => t,
            Err(e) => {
                return Err(e);
            },
        };
        match p_count(text.as_str()) {
            Some(c) => Ok(c),
            None => Err(Error::Serialization),
        }
    }
}

/// Ids decoded from the wire are in range.
proof fn lemma_parsed_ids(s: Seq<char>, bs: Seq<Bookmark>)
    requires
        sp_bookmark_array(s, 0) matches Some((bv, p)) && bv == crate::wire::bookmarks_view(bs),
    ensures
        forall|i: int| 0 <= i < bs.len() ==> 0 <= #[trigger] bs[i].id <= i64::MAX,
{
    lemma_array_ids(s, 0);
    let bv = crate::wire::bookmarks_view(bs);
    assert forall|i: int| 0 <= i < bs.len() implies 0 <= #[trigger] bs[i].id <= i64::MAX by {
        assert(bv[i] == bs[i]@);
        assert(0 <= bv[i].id <= i64::MAX);
    }
}

/// Every bookmark the array parser accepts has its id in range.
proof fn lemma_array_ids(s: Seq<char>, pos: int)
    ensures
        sp_bookmark_array(s, pos) matches Some((bv, p)) ==> forall|i: int|
            0 <= i < bv.len() ==> 0 <= #[trigger] bv[i].id <= i64::MAX,
{
    if sp_bookmark_array(s, pos) is Some {
        lemma_items_ids(s, pos + 1);
    }
}

proof fn lemma_items_ids(s: Seq<char>, pos: int)
    ensures
        sp_bookmark_items(s, pos) matches Some((bv, p2)) ==> forall|i: int|
            0 <= i < bv.len() ==> 0 <= #[trigger] bv[i].id <= i64::MAX,
    decreases s.len() - pos,
{
    if 0 <= pos <= s.len() {
        match sp_bookmark_items(s, pos) {
            Some((bv, _)) => match sp_bookmark(s, pos) {
                Some((b, p)) => {
                    if pos < p <= s.len() && crate::wire::starts_with(s, p, seq![',']) {
                        lemma_items_ids(s, p + 1);
                        match sp_bookmark_items(s, p + 1) {
                            Some((rest, _)) => {
                                assert forall|i: int| 0 <= i < bv.len() implies 0 <= #[trigger]
                                bv[i].id <= i64::MAX by {
                                    if i == 0 {
                                        assert(bv[0] == b);
                                    } else {
                                        assert(bv[i] == rest[i - 1]);
                                    }
                                }
                            },
                            None => {},
                        }
                    } else {
                        assert(bv[0] == b);
                    }
                },
                None => {},
            },
            None => {},
        }
    }
}

/// For a fixed underlying store, identical find requests through the
/// local adapter and through the remote pair of wire and server yield
/// structurally identical payloads: the encoded request reads back as
/// the same arguments, so a conforming server runs exactly the local
/// search, and its encoded answer reads back as exactly that result
/// list.
pub proof fn lemma_backends_agree_find(v: DbView, args: SearchView)
    requires
        bookmarks_wire_ok(search_result(v, args.query, args.tags, args.all_tags)),
    ensures
        sp_search_query(enc_search_query(args)) == Some(args),
        ({
            let found = search_result(v, args.query, args.tags, args.all_tags);
            sp_bookmark_array(json_bookmark_array(found), 0) == Some(
                (found, json_bookmark_array(found).len() as int),
            )
        }),
{
    lemma_search_query_round(args);
    let found = search_result(v, args.query, args.tags, args.all_tags);
    let s = json_bookmark_array(found);
    assert(s.subrange(0, s.len() as int) =~= s + Seq::<char>::empty());
    lemma_bookmark_array_round(s, 0, found, Seq::empty());
}

/// The same for identical add requests: the encoded body reads back as
/// the same arguments, and whichever record the store answers with, its
/// encoding reads back as exactly that record.
pub proof fn lemma_backends_agree_add(args: AddView, b: BookmarkView)
    requires
        0 <= b.id <= i64::MAX,
        b.id <= usize::MAX,
    ensures
        sp_add_body(json_add_body(args)) == Some(args),
        sp_bookmark(json_bookmark(b), 0) == Some((b, json_bookmark(b).len() as int)),
{
    lemma_add_body_round(args);
    let s = json_bookmark(b);
    assert(s.subrange(0, s.len() as int) =~= s + Seq::<char>::empty());
    lemma_bookmark_round(s, 0, b, Seq::empty());
}

/// The same for the remaining commands: tag listings, renames and
/// deletes survive the wire unchanged in both directions.
pub proof fn lemma_backends_agree_rest(
    sort_by_count: bool,
    reverse: bool,
    from: Seq<char>,
    to: Seq<char>,
    ps: Seq<(Seq<char>, int)>,
    count: nat,
)
    requires
        pairs_wire_ok(ps),
        count <= usize::MAX,
    ensures
        sp_tags_query(enc_tags_query(sort_by_count, reverse)) == Some((sort_by_count, reverse)),
        sp_rename_query(enc_rename_query(from, to)) == Some((from, to)),
        sp_tag_array(json_tag_array(ps), 0) == Some((ps, json_tag_array(ps).len() as int)),
        sp_num(dec_of(count), 0) == Some((count, dec_of(count).len() as int)),
{
    lemma_tags_query_round(sort_by_count, reverse);
    lemma_rename_query_round(from, to);
    let s = json_tag_array(ps);
    assert(s.subrange(0, s.len() as int) =~= s + Seq::<char>::empty());
    lemma_tag_array_round(s, 0, ps, Seq::empty());
    let d = dec_of(count);
    assert(d.subrange(0, d.len() as int) =~= d + Seq::<char>::empty());
    lemma_num_suffix(d, 0, count, Seq::empty());
}

} // verus!
