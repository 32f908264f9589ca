//! The server side of the remote protocol: one verified request
//! handler that answers a cross-origin preflight, checks the static
//! credentials, dispatches to the store operations, and writes the
//! typed JSON responses. The embedding program only moves text
//! between the network and this handler.

use vstd::prelude::*;

use crate::commands::{add_post, delete_post, rename_post, tags_post, DatabaseInterface, Delete,
    DeleteView, Interface, RenameTag, RenameTagView, Tags};
use crate::db::{pairs_view, search_result, Bookmark, BookmarkView, DbView, Error};
use crate::decimal::{dec_of, format_decimal};
use crate::util::str_eq;
use crate::web::MetadataFetcher;
use crate::wire::{bookmarks_view, bookmarks_wire_ok, e_bookmark, e_bookmark_array, e_tag_array, json_bookmark,
    json_bookmark_array, json_tag_array, p_add_body, p_rename_query, p_search_query,
    p_tags_query, sp_add_body, sp_rename_query, sp_search_query, sp_tags_query};

verus! {

/// A request as the handler sees it: the method, the path without its
/// query string, the raw query string, the body, and the credential
/// headers if present.
pub struct HttpRequest {
    pub method: String,
    pub path: String,
    pub query: String,
    pub body: String,
    pub username: Option<String>,
    pub password: Option<String>,
}

/// A response as the handler produces it.
pub struct HttpResponse {
    pub status: u16,
    pub body: String,
}

/// The request carries both credential headers and they match the
/// configured ones.
pub open spec fn authorized(
    username: Option<Seq<char>>,
    password: Option<Seq<char>>,
    eu: Seq<char>,
    ep: Seq<char>,
) -> bool {
    username == Some(eu) && password == Some(ep)
}

/// The request is past the preflight and credential gates: not an
/// OPTIONS request, and carrying the configured credentials.
pub open spec fn served(req: &HttpRequest, eu: Seq<char>, ep: Seq<char>) -> bool {
    req.method@ != "OPTIONS"@ && authorized(
        req.username.deep_view(),
        req.password.deep_view(),
        eu,
        ep,
    )
}

/// What the handler answers on the find route.
pub open spec fn find_route_post(store: DbView, q: Seq<char>, resp: HttpResponse) -> bool {
    match sp_search_query(q) {
        Some(args) => {
            let found = search_result(store, args.query, args.tags, args.all_tags);
            if bookmarks_wire_ok(found) {
                resp.status == 200 && resp.body@ == json_bookmark_array(found)
            } else {
                resp.status == 500
            }
        },
        None => resp.status == 400,
    }
}

/// What the handler answers on the tags route.
pub open spec fn tags_route_post(store: DbView, q: Seq<char>, resp: HttpResponse) -> bool {
    match sp_tags_query(q) {
        Some((sc, rv)) => exists|r: Result<Vec<(String, usize)>, Error>|
            #[trigger] tags_post(store, Tags { sort_by_count: sc, reverse: rv }, r) && (
            r matches Ok(ts) ==> resp.status == 200 && resp.body@ == json_tag_array(
                pairs_view(ts@),
            )),
        None => resp.status == 400,
    }
}

/// What the handler answers and does on the add route.
pub open spec fn add_route_post(pre: DbView, post: DbView, body: Seq<char>, resp: HttpResponse)
    -> bool {
    match sp_add_body(body) {
        Some(args) => exists|r: Result<Bookmark, Error>|
            #[trigger] add_post(pre, post, args, r) && (match r {
                Ok(b) => if 0 <= b@.id <= i64::MAX && b@.id <= usize::MAX {
                    resp.status == 200 && resp.body@ == json_bookmark(b@)
                } else {
                    resp.status == 500
                },
                Err(_) => resp.status == 500,
            }),
        None => resp.status == 400 && post == pre,
    }
}

/// What the handler answers and does on the delete route.
pub open spec fn delete_route_post(pre: DbView, post: DbView, q: Seq<char>, resp: HttpResponse)
    -> bool {
    match sp_search_query(q) {
        Some(args) => exists|r: Result<usize, Error>|
            #[trigger] delete_post(pre, post, DeleteView { search: args, force: true }, r) && (
            r matches Ok(c) ==> resp.status == 200 && resp.body@ == dec_of(c as nat)),
        None => resp.status == 400 && post == pre,
    }
}

/// What the handler answers and does on the rename route.
pub open spec fn rename_route_post(pre: DbView, post: DbView, q: Seq<char>, resp: HttpResponse)
    -> bool {
    match sp_rename_query(q) {
        Some((f, t)) => exists|r: Result<usize, Error>|
            #[trigger] rename_post(pre, post, RenameTagView { from: f, to: t }, r) && (
            r matches Ok(c) ==> resp.status == 200 && resp.body@ == dec_of(c as nat)),
        None => resp.status == 400 && post == pre,
    }
}

/// Supplies the result witness for the add route's postcondition.
proof fn witness_add(
    pre: DbView,
    post: DbView,
    args: crate::commands::AddView,
    r: Result<Bookmark, Error>,
    resp: HttpResponse,
)
    requires
        add_post(pre, post, args, r),
        match r {
            Ok(b) => if 0 <= b@.id <= i64::MAX && b@.id <= usize::MAX {
                resp.status == 200 && resp.body@ == json_bookmark(b@)
            } else {
                resp.status == 500
            },
            Err(_) => resp.status == 500,
        },
    ensures
        exists|r2: Result<Bookmark, Error>|
            #[trigger] add_post(pre, post, args, r2) && (match r2 {
                Ok(b) => if 0 <= b@.id <= i64::MAX && b@.id <= usize::MAX {
                    resp.status == 200 && resp.body@ == json_bookmark(b@)
                } else {
                    resp.status == 500
                },
                Err(_) => resp.status == 500,
            }),
{
}

/// Do all ids of the found bookmarks fit the wire?
fn ids_ok(bs: &Vec<Bookmark>) -> (r: bool)
    ensures
        r == bookmarks_wire_ok(bookmarks_view(bs@)),
{
    let n = bs.len();
    let mut i: usize = 0;
    while i < n
        invariant
            n == bs@.len(),
            0 <= i <= n,
            forall|j: int|
                0 <= j < i ==> 0 <= #[trigger] bookmarks_view(bs@)[j].id <= i64::MAX
                    && bookmarks_view(bs@)[j].id <= usize::MAX,
        decreases n - i,
    {
        let id = bs[i].id;
        if id < 0 || (id as u64) > (usize::MAX as u64) {
            assert(!(0 <= bookmarks_view(bs@)[i as int].id <= usize::MAX && bookmarks_view(
                bs@,
            )[i as int].id <= i64::MAX));
            return false;
        }
        assert(0 <= bookmarks_view(bs@)[i as int].id <= i64::MAX && bookmarks_view(bs@)[
            i as int
        ].id <= usize::MAX);
        i = i + 1;
    }
    true
}

/// Serves one request against the store: a generic answer for a
/// cross-origin preflight, 401 for missing or wrong credentials, then
/// the routed operation with its JSON answer; an unknown route is 404,
/// an unreadable request 400, and a storage failure or an id beyond
/// the wire's range 500.
#[verifier::rlimit(100)]
pub fn handle_request<W: MetadataFetcher>(
    iface: &mut DatabaseInterface<W>,
    expected_username: &str,
    expected_password: &str,
    req: &HttpRequest,
) -> (resp: HttpResponse)
    requires
        old(iface).inv(),
    ensures
        final(iface).inv(),
        req.method@ == "OPTIONS"@ ==> resp.status == 204 && final(iface).store() == old(
            iface,
        ).store(),
        (req.method@ != "OPTIONS"@ && !authorized(
            req.username.deep_view(),
            req.password.deep_view(),
            expected_username@,
            expected_password@,
        )) ==> resp.status == 401 && final(iface).store() == old(iface).store(),
        (served(req, expected_username@, expected_password@) && req.method@ == "GET"@
            && req.path@ == "/search"@) ==> (find_route_post(old(iface).store(), req.query@, resp)
            && final(iface).store() == old(iface).store()),
        (served(req, expected_username@, expected_password@) && req.method@ == "GET"@
            && req.path@ == "/tags"@) ==> (tags_route_post(old(iface).store(), req.query@, resp)
            && final(iface).store() == old(iface).store()),
        (served(req, expected_username@, expected_password@) && req.method@ == "POST"@
            && req.path@ == "/bookmark"@) ==> add_route_post(
            old(iface).store(),
            final(iface).store(),
            req.body@,
            resp,
        ),
        (served(req, expected_username@, expected_password@) && req.method@ == "DELETE"@
            && req.path@ == "/search"@) ==> delete_route_post(
            old(iface).store(),
            final(iface).store(),
            req.query@,
            resp,
        ),
        (served(req, expected_username@, expected_password@) && req.method@ == "PATCH"@
            && req.path@ == "/tags"@) ==> rename_route_post(
            old(iface).store(),
            final(iface).store(),
            req.query@,
            resp,
        ),
        (served(req, expected_username@, expected_password@) && !((req.method@ == "GET"@ && (
        req.path@ == "/search"@ || req.path@ == "/tags"@)) || (req.method@ == "POST"@ && req.path@
            == "/bookmark"@) || (req.method@ == "DELETE"@ && req.path@ == "/search"@) || (
        req.method@ == "PATCH"@ && req.path@ == "/tags"@))) ==> (resp.status == 404
            && final(iface).store() == old(iface).store()),
{
    proof {
        reveal_strlit("OPTIONS");
        reveal_strlit("GET");
        reveal_strlit("POST");
        reveal_strlit("DELETE");
        reveal_strlit("PATCH");
        reveal_strlit("/search");
        reveal_strlit("/tags");
        reveal_strlit("/bookmark");
        assert("/search"@.len() == 7);
        assert("/tags"@.len() == 5);
        assert("/search"@ != "/tags"@);
        assert("/search"@ != "/bookmark"@);
        assert("/tags"@ != "/bookmark"@);
        assert("OPTIONS"@.len() == 7);
        assert("GET"@.len() == 3);
        assert("POST"@.len() == 4);
        assert("DELETE"@.len() == 6);
        assert("PATCH"@.len() == 5);
        assert("/bookmark"@.len() == 9);
        assert("GET"@ != "POST"@ && "GET"@ != "DELETE"@ && "GET"@ != "PATCH"@);
        assert("POST"@ != "DELETE"@ && "POST"@ != "PATCH"@ && "DELETE"@ != "PATCH"@);
    }
    if str_eq(req.method.as_str(), "OPTIONS") {
        return HttpResponse { status: 204, body: String::new() };
    }
    let creds_ok = match (&req.username, &req.password) {
        (Some(u), Some(p)) => str_eq(u.as_str(), expected_username) && str_eq(
            p.as_str(),
            expected_password,
        ),
        _ => false,
    };
    if !creds_ok {
        return HttpResponse { status: 401, body: String::from_str("unauthorized") };
    }
    let is_get = str_eq(req.method.as_str(), "GET");
    let is_post = str_eq(req.method.as_str(), "POST");
    let is_delete = str_eq(req.method.as_str(), "DELETE");
    let is_patch = str_eq(req.method.as_str(), "PATCH");
    let path_search = str_eq(req.path.as_str(), "/search");
    let path_tags = str_eq(req.path.as_str(), "/tags");
    let path_bookmark = str_eq(req.path.as_str(), "/bookmark");
    if is_get && path_search {
        match p_search_query(req.query.as_str()) {
            Some(args) => {
                match iface.find(args) {
                    Ok(bs) => {
                        if ids_ok(&bs) {
                            proof {
                                assert forall|i: int| 0 <= i < bs@.len() implies 0 <= #[trigger]
                                bs@[i].id <= usize::MAX by {
                                    assert(bookmarks_view(bs@)[i] == bs@[i]@);
                                    assert(0 <= bookmarks_view(bs@)[i].id <= usize::MAX);
                                    assert(bookmarks_view(bs@)[i].id == bs@[i].id as int);
                                }
                            }
                            let body = e_bookmark_array(&bs);
                            HttpResponse { status: 200, body }
                        } else {
                            HttpResponse { status: 500, body: String::new() }
                        }
                    },
                    Err(_) => HttpResponse { status: 500, body: String::new() },
                }
            },
            None => HttpResponse { status: 400, body: String::new() },
        }
    } else if is_get && path_tags {
        match p_tags_query(req.query.as_str()) {
            Some((sc, rv)) => {
                let r = iface.tags(Tags { sort_by_count: sc, reverse: rv });
                match r {
                    Ok(ts) => {
                        let body = e_tag_array(&ts);
                        let resp = HttpResponse { status: 200, body };
                        proof {
                            let store = old(iface).store();
                            let a = Tags { sort_by_count: sc, reverse: rv };
                            assert(tags_post(store, a, Ok(ts)));
                            assert(exists|r2: Result<Vec<(String, usize)>, Error>|
                                #[trigger] tags_post(store, a, r2) && (r2 matches Ok(ts2)
                                    ==> resp.status == 200 && resp.body@ == json_tag_array(
                                    pairs_view(ts2@),
                                ))) by {
                                assert(tags_post(store, a, Ok(ts)) && (Ok::<
                                    Vec<(String, usize)>,
                                    Error,
                                >(ts) matches Ok(ts2) ==> resp.status == 200 && resp.body@
                                    == json_tag_array(pairs_view(ts2@))));
                            }
                            assert(tags_route_post(old(iface).store(), req.query@, resp));
                        }
                        resp
                    },
                    Err(_) => HttpResponse { status: 500, body: String::new() },
                }
            },
            None => {
                let resp = HttpResponse { status: 400, body: String::new() };
                proof {
                    assert(tags_route_post(old(iface).store(), req.query@, resp));
                }
                resp
            },
        }
    } else if is_post && path_bookmark {
        match p_add_body(req.body.as_str()) {
            Some(args) => {
                let ghost argsv = args@;
                let r = iface.add(args);
                match r {
                    Ok(b) => {
                        if b.id >= 0 && (b.id as u64) <= (usize::MAX as u64) {
                            let body = e_bookmark(&b);
                            let resp = HttpResponse { status: 200, body };
                            proof {
                                witness_add(old(iface).store(), iface.store(), argsv, Ok(b),
                                    resp);
                            }
                            resp
                        } else {
                            let resp = HttpResponse { status: 500, body: String::new() };
                            proof {
                                witness_add(old(iface).store(), iface.store(), argsv, Ok(b),
                                    resp);
                            }
                            resp
                        }
                    },
                    Err(e) => {
                        let resp = HttpResponse { status: 500, body: String::new() };
                        proof {
                            witness_add(old(iface).store(), iface.store(), argsv, Err(e), resp);
                        }
                        resp
                    },
                }
            },
            None => HttpResponse { status: 400, body: String::new() },
        }
    } else if is_delete && path_search {
        match p_search_query(req.query.as_str()) {
            Some(args) => {
                let ghost argsv = args@;
                let r = iface.delete(Delete { search: args, force: true });
                match r {
                    Ok(c) => {
                        let body = format_decimal(c);
                        let resp = HttpResponse { status: 200, body };
                        proof {
                            assert(delete_post(old(iface).store(), iface.store(),
                                DeleteView { search: argsv, force: true }, Ok(c)));
                        }
                        resp
                    },
                    Err(_) => HttpResponse { status: 500, body: String::new() },
                }
            },
            None => HttpResponse { status: 400, body: String::new() },
        }
    } else if is_patch && path_tags {
        match p_rename_query(req.query.as_str()) {
            Some((from, to)) => {
                let ghost fv = from@;
                let ghost tv = to@;
                let r = iface.rename_tag(RenameTag { from, to });
                match r {
                    Ok(c) => {
                        let body = format_decimal(c);
                        let resp = HttpResponse { status: 200, body };
                        proof {
                            let pre = old(iface).store();
                            let post = iface.store();
                            assert(sp_rename_query(req.query@) == Some((fv, tv)));
                            let ft = sp_rename_query(req.query@).unwrap();
                            assert(ft.0 == fv && ft.1 == tv);
                            assert(rename_post(pre, post, RenameTagView { from: ft.0, to: ft.1 },
                                Ok(c)));
                            assert(exists|r2: Result<usize, Error>|
                                #[trigger] rename_post(pre, post,
                                    RenameTagView { from: ft.0, to: ft.1 }, r2) && (
                            r2 matches Ok(c2) ==> resp.status == 200 && resp.body@ == dec_of(
                                c2 as nat,
                            ))) by {
                                assert(rename_post(pre, post,
                                    RenameTagView { from: ft.0, to: ft.1 }, Ok(c)) && (Ok::<
                                    usize,
                                    Error,
                                >(c) matches Ok(c2) ==> resp.status == 200 && resp.body@
                                    == dec_of(c2 as nat)));
                            }
                            assert(rename_route_post(pre, post, req.query@, resp));
                        }
                        resp
                    },
                    Err(_) => HttpResponse { status: 500, body: String::new() },
                }
            },
            None => {
                let resp = HttpResponse { status: 400, body: String::new() };
                proof {
                    assert(rename_route_post(old(iface).store(), iface.store(), req.query@,
                        resp));
                }
                resp
            },
        }
    } else {
        HttpResponse { status: 404, body: String::new() }
    }
}

} // verus!
