use std::cell::RefCell;

use syl::commands::{Add, DatabaseInterface, Delete, Interface, RenameTag, Search, Tags};
use syl::db::{Database, Error};
use syl::remote::{ServerInterface, Transport};
use syl::routes::{handle_request, HttpRequest, HttpResponse};
use syl::web::{Metadata, MetadataFetcher};
use syl::wire::{e_add_body, e_bookmark, e_search_query, p_add_body, p_bookmark, p_search_query};

struct NoFetch;

impl MetadataFetcher for NoFetch {
    fn fetch(&self, _url: &str) -> Option<Metadata> {
        None
    }
}

struct FixedFetch {
    title: String,
    description: String,
}

impl MetadataFetcher for FixedFetch {
    fn fetch(&self, _url: &str) -> Option<Metadata> {
        Some(Metadata {
            title: Some(self.title.clone()),
            description: Some(self.description.clone()),
        })
    }
}

fn local() -> DatabaseInterface<NoFetch> {
    DatabaseInterface::from(Database::open(None).unwrap(), NoFetch)
}

fn add_args(url: &str, tags: &[&str]) -> Add {
    Add {
        url: url.to_string(),
        tags: tags.iter().map(|t| t.to_string()).collect(),
        title: None,
        description: None,
    }
}

fn find_args(query: Option<&str>, tags: &[&str], all_tags: bool) -> Search {
    Search {
        query: query.map(|q| q.to_string()),
        tags: tags.iter().map(|t| t.to_string()).collect(),
        all_tags,
    }
}

/// A transport that hands each request straight to the verified server
/// handler over a second store, the way the real network would.
struct LoopTransport {
    server: RefCell<DatabaseInterface<NoFetch>>,
    user: String,
    pass: String,
}

impl Transport for LoopTransport {
    fn send(
        &self,
        method: &str,
        url: &str,
        body: Option<&str>,
        username: &str,
        password: &str,
    ) -> Result<String, Error> {
        let (path, query) = match url.find('?') {
            Some(i) => (&url[..i], &url[i + 1..]),
            None => (url, ""),
        };
        let req = HttpRequest {
            method: method.to_string(),
            path: path.to_string(),
            query: query.to_string(),
            body: body.unwrap_or("").to_string(),
            username: Some(username.to_string()),
            password: Some(password.to_string()),
        };
        let resp: HttpResponse =
            handle_request(&mut self.server.borrow_mut(), &self.user, &self.pass, &req);
        if resp.status == 200 {
            Ok(resp.body)
        } else {
            Err(Error::Transport)
        }
    }
}

fn remote() -> ServerInterface<LoopTransport> {
    let transport = LoopTransport {
        server: RefCell::new(local()),
        user: "user".to_string(),
        pass: "secret".to_string(),
    };
    let server = syl::config::Server {
        url: "".to_string(),
        username: "user".to_string(),
        password: "secret".to_string(),
    };
    ServerInterface::new(server, transport)
}

#[test]
fn local_and_remote_adapters_agree_on_add_and_find() {
    let mut a = local();
    let mut b = remote();

    let b1 = a.add(add_args("example.org/x", &["t1", "t2"])).unwrap();
    let b2 = b.add(add_args("example.org/x", &["t1", "t2"])).unwrap();
    assert_eq!(b1, b2);

    let b1 = a.add(add_args("example.org/y", &["t2"])).unwrap();
    let b2 = b.add(add_args("example.org/y", &["t2"])).unwrap();
    assert_eq!(b1, b2);

    let f1 = a.find(find_args(None, &["t2"], false)).unwrap();
    let f2 = b.find(find_args(None, &["t2"], false)).unwrap();
    assert_eq!(f1, f2);

    let f1 = a.find(find_args(Some("example"), &["t1", "t2"], true)).unwrap();
    let f2 = b.find(find_args(Some("example"), &["t1", "t2"], true)).unwrap();
    assert_eq!(f1, f2);

    let t1 = a.tags(Tags { sort_by_count: true, reverse: true }).unwrap();
    let t2 = b.tags(Tags { sort_by_count: true, reverse: true }).unwrap();
    assert_eq!(t1, t2);

    let r1 = a
        .rename_tag(RenameTag { from: "t1".to_string(), to: "t3".to_string() })
        .unwrap();
    let r2 = b
        .rename_tag(RenameTag { from: "t1".to_string(), to: "t3".to_string() })
        .unwrap();
    assert_eq!(r1, r2);

    let d1 = a
        .delete(Delete { search: find_args(None, &["t3"], false), force: true })
        .unwrap();
    let d2 = b
        .delete(Delete { search: find_args(None, &["t3"], false), force: true })
        .unwrap();
    assert_eq!(d1, d2);

    let f1 = a.find(find_args(None, &[], false)).unwrap();
    let f2 = b.find(find_args(None, &[], false)).unwrap();
    assert_eq!(f1, f2);
}

#[test]
fn handler_answers_preflight_and_checks_credentials() {
    let mut iface = local();
    let preflight = HttpRequest {
        method: "OPTIONS".to_string(),
        path: "/search".to_string(),
        query: "".to_string(),
        body: "".to_string(),
        username: None,
        password: None,
    };
    let r = handle_request(&mut iface, "user", "secret", &preflight);
    assert_eq!(r.status, 204);

    let missing = HttpRequest {
        method: "GET".to_string(),
        path: "/search".to_string(),
        query: "all_tags=false".to_string(),
        body: "".to_string(),
        username: None,
        password: None,
    };
    let r = handle_request(&mut iface, "user", "secret", &missing);
    assert_eq!(r.status, 401);

    let wrong = HttpRequest {
        method: "GET".to_string(),
        path: "/search".to_string(),
        query: "all_tags=false".to_string(),
        body: "".to_string(),
        username: Some("user".to_string()),
        password: Some("wrong".to_string()),
    };
    let r = handle_request(&mut iface, "user", "secret", &wrong);
    assert_eq!(r.status, 401);

    let unknown = HttpRequest {
        method: "GET".to_string(),
        path: "/nowhere".to_string(),
        query: "".to_string(),
        body: "".to_string(),
        username: Some("user".to_string()),
        password: Some("secret".to_string()),
    };
    let r = handle_request(&mut iface, "user", "secret", &unknown);
    assert_eq!(r.status, 404);

    let bad_query = HttpRequest {
        method: "GET".to_string(),
        path: "/search".to_string(),
        query: "nonsense".to_string(),
        body: "".to_string(),
        username: Some("user".to_string()),
        password: Some("secret".to_string()),
    };
    let r = handle_request(&mut iface, "user", "secret", &bad_query);
    assert_eq!(r.status, 400);
}

#[test]
fn handler_serves_add_and_search_with_json_payloads() {
    let mut iface = local();
    let add = HttpRequest {
        method: "POST".to_string(),
        path: "/bookmark".to_string(),
        query: "".to_string(),
        body: e_add_body(&add_args("example.org/served", &["w"])),
        username: Some("user".to_string()),
        password: Some("secret".to_string()),
    };
    let r = handle_request(&mut iface, "user", "secret", &add);
    assert_eq!(r.status, 200);
    let (b, used) = p_bookmark(&r.body, 0).unwrap();
    assert_eq!(used, r.body.chars().count());
    assert_eq!(b.url, "example.org/served");
    assert_eq!(b.tags, vec!["w".to_string()]);

    let search = HttpRequest {
        method: "GET".to_string(),
        path: "/search".to_string(),
        query: "query=served&tag=w&all_tags=true".to_string(),
        body: "".to_string(),
        username: Some("user".to_string()),
        password: Some("secret".to_string()),
    };
    let r = handle_request(&mut iface, "user", "secret", &search);
    assert_eq!(r.status, 200);
    assert!(r.body.starts_with('['));
    assert!(r.body.contains("example.org/served"));
}

#[test]
fn add_request_body_survives_the_wire() {
    let cases = vec![
        add_args("example.org/plain", &["a", "b"]),
        Add {
            url: "https://example.org/?q=a&b=c%20d".to_string(),
            tags: vec!["quote\"inside".to_string(), "back\\slash".to_string()],
            title: Some("line\nbreak and tab\t!".to_string()),
            description: None,
        },
        Add {
            url: "".to_string(),
            tags: vec![],
            title: None,
            description: Some("ünïcode · ”quotes”".to_string()),
        },
    ];
    for args in cases {
        let body = e_add_body(&args);
        let back = p_add_body(&body).unwrap();
        assert_eq!(back, args);
    }
}

#[test]
fn search_query_survives_the_wire() {
    let cases = vec![
        find_args(None, &[], false),
        find_args(Some("free text & more = yes"), &["tag one", "tag/two"], true),
        find_args(Some(""), &["%", "&", "="], false),
    ];
    for args in cases {
        let q = e_search_query(&args);
        let back = p_search_query(&q).unwrap();
        assert_eq!(back, args);
    }
}

#[test]
fn bookmark_payload_survives_the_wire() {
    let b = syl::db::Bookmark {
        id: 42,
        url: "example.org/\"x\"".to_string(),
        title: Some("A \\ B".to_string()),
        description: None,
        tags: vec!["ctrl\u{1}char".to_string()],
    };
    let s = e_bookmark(&b);
    let (back, used) = p_bookmark(&s, 0).unwrap();
    assert_eq!(used, s.chars().count());
    assert_eq!(back, b);
}

#[test]
fn local_adapter_uses_fetched_metadata_only_without_explicit_title() {
    let db = Database::open(None).unwrap();
    let fetch = FixedFetch {
        title: "Fetched Title".to_string(),
        description: "Fetched Description".to_string(),
    };
    let mut iface = DatabaseInterface::from(db, fetch);

    let fetched = iface.add(add_args("example.org/enriched", &[])).unwrap();
    assert_eq!(fetched.title, Some("Fetched Title".to_string()));
    assert_eq!(fetched.description, Some("Fetched Description".to_string()));

    let explicit = iface
        .add(Add {
            url: "example.org/explicit".to_string(),
            tags: vec![],
            title: Some("Mine".to_string()),
            description: Some("Also mine".to_string()),
        })
        .unwrap();
    assert_eq!(explicit.title, Some("Mine".to_string()));
    assert_eq!(explicit.description, Some("Also mine".to_string()));
}

#[test]
fn adapters_agree_on_values_that_need_escaping() {
    let mut a = local();
    let mut b = remote();
    let args = Add {
        url: "https://example.org/?q=1&r=2".to_string(),
        tags: vec!["sp ace&x=%".to_string(), "quo\"te".to_string()],
        title: Some("new\nline".to_string()),
        description: None,
    };
    let b1 = a.add(args.clone()).unwrap();
    let b2 = b.add(args).unwrap();
    assert_eq!(b1, b2);

    let f = find_args(Some("q=1&r"), &["sp ace&x=%"], true);
    let f1 = a.find(f.clone()).unwrap();
    let f2 = b.find(f).unwrap();
    assert_eq!(f1, f2);
    assert_eq!(f1.len(), 1);
}
