//! A small HTTP server library: the head of a request is read out of the bytes
//! that arrived, the request is matched against the registered routes in the
//! order of their registration, the handler of the first route that serves it
//! fills in a response, and the response is written out as bytes.
//!
//! The library holds no socket. Its caller reads and writes the connection and
//! hands the bytes over: first to [`Pulse::client`], then, with the body, to
//! [`Pulse::handle_routes`].

use crate::http::{cookies, not_found, not_found_bytes, parse_cookies, Req, Res};
use crate::request::{
    content_length_of, head_of, header_or_empty, lossy_text, read_head, RequestError,
};
use crate::routes::{
    match_dynamic, params, parse_params, parse_slug, path_matches, segments, slugs,
    without_query, Route,
};
use crate::strmap::{Pair, StrMap};
use crate::text::{lemma_split_nonempty, same_text, split_on};
use vstd::prelude::*;
use vstd::string::*;

pub mod env;
pub mod http;
pub mod request;
pub mod routes;
pub mod session;
pub mod strmap;
pub mod text;

verus! {

/// What answers a request: it reads the request and fills in the response.
/// Nothing is asked of it, and nothing is known of the response it leaves.
pub trait Handler {
    fn handle(&self, req: &Req, res: &mut Res);
}

/// A registered route: its pattern, its handler, and the method it serves.
pub struct Request<H> {
    /// The route, of which only the pattern is set.
    pub route: Route,
    /// The handler.
    pub method: H,
    /// The method that the route serves, or `ALL` for every method.
    pub http: String,
}

/// Whether a route is as registration leaves it: it holds the pattern, and
/// nothing else yet.
pub open spec fn blank_route(route: Route, pattern: Seq<char>) -> bool {
    &&& route.route@ == pattern
    &&& route.path@ == Seq::<char>::empty()
    &&& route.routes@ == Seq::<String>::empty()
    &&& route.slugs.pairs() == Seq::<Pair>::empty()
    &&& route.params.pairs() == Seq::<Pair>::empty()
}

/// A method and a pattern, as registered.
pub type Entry = (Seq<char>, Seq<char>);

/// Whether a registered entry serves a request: its pattern equals the path
/// without the query, or matches it segment by segment; and its method is the
/// request's, or `ALL`.
pub open spec fn serves(entry: Entry, method: Seq<char>, path: Seq<char>) -> bool {
    &&& entry.1 == without_query(path) || path_matches(without_query(path), entry.1)
    &&& entry.0 == method || entry.0 == "ALL"@
}

/// The position of the first entry that serves the request, or the number of
/// entries where none does.
pub open spec fn first_serving(table: Seq<Entry>, method: Seq<char>, path: Seq<char>) -> int
    decreases table.len(),
{
    if table.len() == 0 {
        0
    } else if serves(table[0], method, path) {
        0
    } else {
        1 + first_serving(table.drop_first(), method, path)
    }
}

/// Where the first serving entry stands: within bounds it serves the request,
/// and no entry before it does.
pub proof fn lemma_first_serving(table: Seq<Entry>, method: Seq<char>, path: Seq<char>)
    ensures
        0 <= first_serving(table, method, path) <= table.len(),
        first_serving(table, method, path) < table.len() ==> serves(
            table[first_serving(table, method, path)],
            method,
            path,
        ),
        forall|j: int|
            0 <= j < first_serving(table, method, path) ==> !serves(
                #[trigger] table[j],
                method,
                path,
            ),
    decreases table.len(),
{
    if table.len() > 0 && !serves(table[0], method, path) {
        let t = table.drop_first();
        lemma_first_serving(t, method, path);
        assert forall|j: int| 0 <= j < first_serving(table, method, path) implies !serves(
            #[trigger] table[j],
            method,
            path,
        ) by {
            if j > 0 {
                assert(table[j] == t[j - 1]);
            }
        }
    }
}

/// A position that no serving entry precedes, and that holds one or is the
/// end, is the first serving one.
pub proof fn lemma_first_serving_is(
    table: Seq<Entry>,
    method: Seq<char>,
    path: Seq<char>,
    k: int,
)
    requires
        0 <= k <= table.len(),
        forall|j: int| 0 <= j < k ==> !serves(#[trigger] table[j], method, path),
        k < table.len() ==> serves(table[k], method, path),
    ensures
        first_serving(table, method, path) == k,
    decreases table.len(),
{
    if table.len() > 0 && !serves(table[0], method, path) {
        let t = table.drop_first();
        assert forall|j: int| 0 <= j < k - 1 implies !serves(#[trigger] t[j], method, path) by {
            assert(t[j] == table[j + 1]);
        }
        lemma_first_serving_is(t, method, path, k - 1);
    }
}

/// The order of registration decides: where an entry serves a request, the
/// request is served, by that entry or by one registered before it; an entry
/// registered after one that serves the request is never reached.
pub proof fn law_first_registered_wins(
    table: Seq<Entry>,
    method: Seq<char>,
    path: Seq<char>,
    i: int,
)
    requires
        0 <= i < table.len(),
        serves(table[i], method, path),
    ensures
        0 <= first_serving(table, method, path) <= i,
        serves(table[first_serving(table, method, path)], method, path),
{
    lemma_first_serving(table, method, path);
}

/// An entry whose pattern has another number of segments than the path,
/// without its query, does not serve the request.
pub proof fn law_segment_count_decides(entry: Entry, method: Seq<char>, path: Seq<char>)
    requires
        segments(entry.1).len() != segments(without_query(path)).len(),
    ensures
        !serves(entry, method, path),
{
}

/// The server: the routes that were registered, and what is known of the
/// request at hand.
pub struct Pulse<H> {
    /// The port to listen on.
    pub port: u16,
    /// The method of the request at hand.
    pub method: String,
    /// The path of the request at hand, with its query.
    pub path: String,
    /// The host that the request at hand names.
    pub url: String,
    /// The `User-Agent` of the request at hand.
    pub user_agent: String,
    /// The `Content-Type` of the request at hand.
    pub content_type: String,
    /// The length of the body of the request at hand.
    pub content_length: usize,
    /// The settings that were loaded.
    pub secrets: StrMap,
    /// Whether the server speaks HTTPS.
    pub is_https: bool,
    /// The registered routes, in the order of their registration.
    pub requests: Vec<Request<H>>,
}

impl<H> Pulse<H> {
    /// The registered routes, in the order of their registration.
    pub open spec fn registered(&self) -> Seq<Request<H>> {
        self.requests@
    }

    /// The method and the pattern of each registered route.
    pub open spec fn table(&self) -> Seq<Entry> {
        Seq::new(
            self.registered().len(),
            |i: int| (self.registered()[i].http@, self.registered()[i].route.route@),
        )
    }

    /// Whether everything but the routes is as it is in `other`.
    pub open spec fn same_state(&self, other: &Pulse<H>) -> bool {
        &&& self.port == other.port
        &&& self.method == other.method
        &&& self.path == other.path
        &&& self.url == other.url
        &&& self.user_agent == other.user_agent
        &&& self.content_type == other.content_type
        &&& self.content_length == other.content_length
        &&& self.secrets == other.secrets
        &&& self.is_https == other.is_https
    }

    /// A server without routes, on port 3000.
    pub fn new() -> (server: Pulse<H>)
        ensures
            server.port == 3000,
            server.registered().len() == 0,
            server.method@.len() == 0,
            server.path@.len() == 0,
            server.url@.len() == 0,
            server.user_agent@.len() == 0,
            server.content_type@.len() == 0,
            server.content_length == 0,
            server.secrets.pairs() == Seq::<Pair>::empty(),
            !server.is_https,
    {
        Pulse {
            port: 3000,
            requests: Vec::new(),
            method: String::new(),
            path: String::new(),
            url: String::new(),
            user_agent: String::new(),
            content_type: String::new(),
            secrets: StrMap::new(),
            is_https: false,
            content_length: 0,
        }
    }

    /// Registers `closure` for the pattern `route` and the method `method`,
    /// after all routes registered so far. Routes are asked in the order of
    /// their registration and the first that serves a request answers it: a
    /// route is reached only by requests that none registered before it
    /// serves, so a pattern with parameters shadows every later route that
    /// it also matches.
    pub fn method(&mut self, route: &str, closure: H, method: &str)
        ensures
            final(self).registered().len() == old(self).registered().len() + 1,
            final(self).registered().drop_last() == old(self).registered(),
            final(self).registered().last().method == closure,
            blank_route(final(self).registered().last().route, route@),
            final(self).table() == old(self).table().push((method@, route@)),
            final(self).same_state(old(self)),
    {
        let entry = Request {
            route: Route {
                path: String::new(),
                route: route.to_owned(),
                slugs: StrMap::new(),
                params: StrMap::new(),
                routes: Vec::new(),
            },
            method: closure,
            http: method.to_owned(),
        };
        self.requests.push(entry);
        assert(self.registered().drop_last() =~= old(self).registered());
        assert(self.table() =~= old(self).table().push((method@, route@)));
    }

    /// Registers `closure` for `GET` requests to `route`.
    pub fn get(&mut self, route: &str, closure: H)
        ensures
            final(self).registered().drop_last() == old(self).registered(),
            final(self).registered().last().method == closure,
            blank_route(final(self).registered().last().route, route@),
            final(self).table() == old(self).table().push(("GET"@, route@)),
            final(self).same_state(old(self)),
    {
        self.method(route, closure, "GET");
    }

    /// Registers `closure` for `POST` requests to `route`.
    pub fn post(&mut self, route: &str, closure: H)
        ensures
            final(self).registered().drop_last() == old(self).registered(),
            final(self).registered().last().method == closure,
            blank_route(final(self).registered().last().route, route@),
            final(self).table() == old(self).table().push(("POST"@, route@)),
            final(self).same_state(old(self)),
    {
        self.method(route, closure, "POST");
    }

    /// Registers `closure` for `PUT` requests to `route`.
    pub fn put(&mut self, route: &str, closure: H)
        ensures
            final(self).registered().drop_last() == old(self).registered(),
            final(self).registered().last().method == closure,
            blank_route(final(self).registered().last().route, route@),
            final(self).table() == old(self).table().push(("PUT"@, route@)),
            final(self).same_state(old(self)),
    {
        self.method(route, closure, "PUT");
    }

    /// Registers `closure` for `DELETE` requests to `route`.
    pub fn delete(&mut self, route: &str, closure: H)
        ensures
            final(self).registered().drop_last() == old(self).registered(),
            final(self).registered().last().method == closure,
            blank_route(final(self).registered().last().route, route@),
            final(self).table() == old(self).table().push(("DELETE"@, route@)),
            final(self).same_state(old(self)),
    {
        self.method(route, closure, "DELETE");
    }

    /// Registers `closure` for `PATCH` requests to `route`.
    pub fn patch(&mut self, route: &str, closure: H)
        ensures
            final(self).registered().drop_last() == old(self).registered(),
            final(self).registered().last().method == closure,
            blank_route(final(self).registered().last().route, route@),
            final(self).table() == old(self).table().push(("PATCH"@, route@)),
            final(self).same_state(old(self)),
    {
        self.method(route, closure, "PATCH");
    }

    /// Registers `closure` for requests of every method to `route`.
    pub fn all(&mut self, route: &str, closure: H)
        ensures
            final(self).registered().drop_last() == old(self).registered(),
            final(self).registered().last().method == closure,
            blank_route(final(self).registered().last().route, route@),
            final(self).table() == old(self).table().push(("ALL"@, route@)),
            final(self).same_state(old(self)),
    {
        self.method(route, closure, "ALL");
    }

    /// Takes in the bytes that arrived first on a connection: reads the head
    /// of the request out of them, notes the method, the path, the host, the
    /// user agent, the content type and the length of the body, and returns
    /// the headers. The caller then reads as many bytes of body as
    /// `content_length` says. Where the bytes hold no request line, nothing
    /// is noted.
    pub fn client(&mut self, buffer: &[u8]) -> (r: Result<StrMap, RequestError>)
        ensures
            final(self).registered() == old(self).registered(),
            final(self).port == old(self).port,
            final(self).secrets == old(self).secrets,
            final(self).is_https == old(self).is_https,
            match r {
                Ok(headers) => {
                    &&& head_of(lossy_text(buffer@)) matches Some(head)
                    &&& final(self).method@ == head.method
                    &&& final(self).path@ == head.path
                    &&& headers.pairs() == head.headers
                    &&& final(self).url@ == header_or_empty(headers@, "Host"@)
                    &&& final(self).user_agent@ == header_or_empty(headers@, "User-Agent"@)
                    &&& final(self).content_type@ == header_or_empty(headers@, "Content-Type"@)
                    &&& final(self).content_length == content_length_of(headers@)
                },
                Err(e) => {
                    &&& e == RequestError::MalformedRequest
                    &&& head_of(lossy_text(buffer@)) is None
                    &&& final(self).same_state(old(self))
                },
            },
    {
        match read_head(buffer) {
            Ok(head) => {
                self.url = text_or_empty(head.headers.get("Host"));
                self.user_agent = text_or_empty(head.headers.get("User-Agent"));
                self.content_type = text_or_empty(head.headers.get("Content-Type"));
                self.content_length = head.content_length;
                self.method = head.method;
                self.path = head.path;
                Ok(head.headers)
            },
            Err(e) => Err(e),
        }
    }

    /// The first registered route that serves a request, if there is one.
    pub fn find_route(&self, method: &str, path: &str) -> (r: Option<usize>)
        ensures
            match r {
                Some(i) => i < self.table().len() && i == first_serving(
                    self.table(),
                    method@,
                    path@,
                ),
                None => first_serving(self.table(), method@, path@) == self.table().len(),
            },
    {
        let parts = split_on(path, '?');
        proof {
            lemma_split_nonempty(path@, '?');
        }
        assert(parts.deep_view()[0] == parts@[0]@);
        let mut i: usize = 0;
        while i < self.requests.len()
            invariant
                parts@.len() > 0,
                parts@[0]@ == without_query(path@),
                i <= self.requests.len(),
                forall|j: int| 0 <= j < i ==> !serves(#[trigger] self.table()[j], method@, path@),
            decreases self.requests.len() - i,
        {
            let entry = &self.requests[i];
            let fits = same_text(entry.route.route.as_str(), parts[0].as_str()) || match_dynamic(
                parts[0].clone(),
                entry.route.route.clone(),
            );
            let speaks = same_text(entry.http.as_str(), method) || same_text(
                entry.http.as_str(),
                "ALL",
            );
            assert(self.table()[i as int] == (entry.http@, entry.route.route@));
            if fits && speaks {
                proof {
                    lemma_first_serving_is(self.table(), method@, path@, i as int);
                }
                return Some(i);
            }
            i += 1;
        }
        proof {
            lemma_first_serving_is(self.table(), method@, path@, i as int);
        }
        None
    }

    /// The request at hand as the handler of the route at position `i` sees
    /// it: with the cookies of its headers, the query parameters of its path,
    /// and the path parameters that the route's pattern reads out of the path
    /// without its query.
    pub fn request_for(&self, i: usize, headers: StrMap, body: Vec<u8>) -> (req: Req)
        requires
            i < self.table().len(),
        ensures
            req.method@ == self.method@,
            req.url@ == self.url@,
            req.path@ == self.path@,
            req.headers.pairs() == headers.pairs(),
            req.cookies.pairs() == cookies(headers@),
            req.body@ == body@,
            req.query.pairs() == params(self.path@),
            req.route.route@ == self.table()[i as int].1,
            req.route.path@ == self.url@,
            req.route.routes.deep_view() == self.registered()[i as int].route.routes.deep_view(),
            req.route.slugs.pairs() == slugs(without_query(self.path@), self.table()[i as int].1),
            req.route.params.pairs() == params(self.path@),
    {
        let entry = &self.requests[i];
        let parts = split_on(self.path.as_str(), '?');
        proof {
            lemma_split_nonempty(self.path@, '?');
        }
        assert(parts.deep_view()[0] == parts@[0]@);
        let registered = entry.route.clone();
        let route = Route {
            path: self.url.clone(),
            route: registered.route,
            routes: registered.routes,
            slugs: parse_slug(parts[0].clone(), entry.route.route.clone()),
            params: parse_params(self.path.clone()),
        };
        let cookies = parse_cookies(headers.clone());
        Req {
            method: self.method.clone(),
            url: self.url.clone(),
            path: self.path.clone(),
            query: parse_params(self.path.clone()),
            cookies,
            headers,
            body,
            route,
        }
    }
}

impl<H: Handler> Pulse<H> {
    /// Answers the request at hand. The first registered route that serves
    /// it has its handler called, once, with the request and a fresh
    /// response, and what the handler leaves of the response goes out as
    /// bytes. Where no route serves the request, no handler is called and the
    /// bare text `404 Not Found` goes out.
    pub fn handle_routes(&self, headers: StrMap, body: Vec<u8>) -> (out: Vec<u8>)
        ensures
            first_serving(self.table(), self.method@, self.path@) >= self.table().len() ==> out@
                == not_found(),
            first_serving(self.table(), self.method@, self.path@) < self.table().len()
                ==> exists|res: Res| out@ == #[trigger] res.wire(),
    {
        match self.find_route(self.method.as_str(), self.path.as_str()) {
            Some(i) => {
                let req = self.request_for(i, headers, body);
                let mut res = Res::new();
                self.requests[i].method.handle(&req, &mut res);
                let out = res.to_bytes();
                assert(out@ == res.wire());
                out
            },
            None => not_found_bytes(),
        }
    }
}

/// The text, or the empty text where there is none.
fn text_or_empty(text: Option<&String>) -> (out: String)
    ensures
        out@ == (match text {
            Some(t) => t@,
            None => Seq::empty(),
        }),
{
    match text {
        Some(t) => t.clone(),
        None => String::new(),
    }
}

} // verus!
