//! Route patterns: matching a path against a pattern segment by segment, and
//! reading the path and query parameters out of a path.

use crate::strmap::{
    collect, holds_key, lemma_collect_keys, lemma_collect_step, lemma_collect_value, to_map, Pair,
    StrMap,
};
use crate::text::{
    chars_of, lemma_split_nonempty, lemma_trim_empty, piece_or_empty, same_text, split, split_on,
    strip_leading, strip_trailing, stripped, trim, trimmed,
};
use vstd::prelude::*;
use vstd::string::*;

verus! {

/// The segments of a path or pattern: what stands between its slashes. A slash
/// at either end, and two in a row, give an empty segment.
pub open spec fn segments(path: Seq<char>) -> Seq<Seq<char>> {
    split(path, '/')
}

/// Whether a pattern segment is a parameter: it begins with `<` and ends with `>`.
pub open spec fn is_param(seg: Seq<char>) -> bool {
    seg.len() > 0 && seg[0] == '<' && seg.last() == '>'
}

/// The name of a parameter segment: the segment without the `<` at its start
/// and the `>` at its end, however many there are of either.
pub open spec fn param_name(seg: Seq<char>) -> Seq<char> {
    strip_trailing(strip_leading(seg, '<'), '>')
}

/// Whether a path matches a pattern: both have the same number of segments, and
/// each segment of the pattern is a parameter or equals the path's segment at
/// the same place. A parameter accepts any segment, an empty one too.
pub open spec fn path_matches(path: Seq<char>, pattern: Seq<char>) -> bool {
    let p = segments(path);
    let r = segments(pattern);
    p.len() == r.len() && forall|i: int| 0 <= i < r.len() ==> is_param(#[trigger] r[i]) || r[i]
        == p[i]
}

/// What each segment of the pattern binds: a parameter segment binds its name
/// to the path's segment at the same place (to the empty text where the path
/// has none there); any other segment binds nothing.
pub open spec fn bindings(path: Seq<char>, pattern: Seq<char>) -> Seq<Option<Pair>> {
    let p = segments(path);
    let r = segments(pattern);
    Seq::new(
        r.len(),
        |i: int|
            if is_param(r[i]) {
                Some((param_name(r[i]), piece_or_empty(p, i)))
            } else {
                None
            },
    )
}

/// The path parameters that a pattern reads out of a path.
pub open spec fn slugs(path: Seq<char>, pattern: Seq<char>) -> Seq<Pair> {
    collect(bindings(path, pattern))
}

/// The query of a path: what stands between its first `?` and its second, or
/// its end. Empty where the path has no `?`.
pub open spec fn query_of(path: Seq<char>) -> Seq<char> {
    piece_or_empty(split(path, '?'), 1)
}

/// The path without its query: what stands before the first `?`.
pub open spec fn without_query(path: Seq<char>) -> Seq<char> {
    split(path, '?')[0]
}

/// The key and value of one item of a query: what stands before its first
/// `=`, and what stands between its first `=` and its second, each without
/// the white space around it.
pub open spec fn query_pair(item: Seq<char>) -> Pair {
    let parts = split(item, '=');
    (trim(parts[0]), trim(piece_or_empty(parts, 1)))
}

/// The key and value of each item of the query, the items being what stands
/// between its `&`.
pub open spec fn query_items(path: Seq<char>) -> Seq<Option<Pair>> {
    let items = split(query_of(path), '&');
    Seq::new(items.len(), |i: int| Some(query_pair(items[i])))
}

/// The query parameters of a path. A path without a query has the one
/// parameter whose key and value are both empty.
pub open spec fn params(path: Seq<char>) -> Seq<Pair> {
    collect(query_items(path))
}

/// A route as one request sees it: the pattern that was registered, and what
/// matching it against the request's path gave.
#[derive(Debug)]
pub struct Route {
    /// The path that the route was matched against.
    pub path: String,
    /// The pattern, as it was registered.
    pub route: String,
    /// The segments of the path.
    pub routes: Vec<String>,
    /// The path parameters: each parameter name of the pattern with its segment of the path.
    pub slugs: StrMap,
    /// The query parameters of the path.
    pub params: StrMap,
}

impl Clone for Route {
    fn clone(&self) -> (r: Route)
        ensures
            r.path@ == self.path@,
            r.route@ == self.route@,
            r.routes.deep_view() == self.routes.deep_view(),
            r.slugs.pairs() == self.slugs.pairs(),
            r.params.pairs() == self.params.pairs(),
    {
        let mut routes: Vec<String> = Vec::new();
        let mut i: usize = 0;
        while i < self.routes.len()
            invariant
                i <= self.routes.len(),
                routes@.len() == i,
                forall|j: int| 0 <= j < i ==> (#[trigger] routes@[j])@ == self.routes@[j]@,
            decreases self.routes.len() - i,
        {
            routes.push(self.routes[i].clone());
            i += 1;
        }
        assert(routes.deep_view() =~= self.routes.deep_view());
        Route {
            path: self.path.clone(),
            route: self.route.clone(),
            routes,
            slugs: self.slugs.clone(),
            params: self.params.clone(),
        }
    }
}

/// The text that holds the one character `/`.
pub open spec fn slash() -> Seq<char> {
    seq!['/']
}

impl Route {
    /// Reads `path` against the pattern `route`: the segments of the path,
    /// the path parameters that the pattern binds, and the query parameters
    /// of the path's last segment.
    pub fn parse(path: String, route: String) -> (out: Route)
        ensures
            out.path@ == path@,
            out.route@ == route@,
            out.routes.deep_view() == segments(path@),
            out.slugs.pairs() == slugs(path@, route@),
            out.params.pairs() == params(slash() + segments(path@).last()),
    {
        let routes = split_on(path.as_str(), '/');
        proof {
            lemma_split_nonempty(path@, '/');
            reveal_strlit("/");
        }
        let n = routes.len();
        assert(routes.deep_view()[n - 1] == routes@[n - 1]@);
        let mut tail = "/".to_owned();
        assert(tail@ =~= slash());
        tail.append(routes[n - 1].as_str());
        let params = parse_params(tail);
        let slugs = parse_slug(path.clone(), route.clone());
        Route { path, route, routes, slugs, params }
    }
}

/// A path with as many segments as the pattern, each equal to the pattern's
/// segment wherever that is no parameter, matches the pattern. Every parameter
/// name of the pattern is then bound; a parameter whose name no later
/// parameter of the pattern bears is bound to the path's segment at its place.
pub proof fn law_match_binds(path: Seq<char>, pattern: Seq<char>)
    requires
        segments(path).len() == segments(pattern).len(),
        forall|i: int|
            0 <= i < segments(pattern).len() && !is_param(#[trigger] segments(pattern)[i])
                ==> segments(pattern)[i] == segments(path)[i],
    ensures
        path_matches(path, pattern),
        forall|i: int|
            0 <= i < segments(pattern).len() && is_param(#[trigger] segments(pattern)[i])
                ==> to_map(slugs(path, pattern)).contains_key(param_name(segments(pattern)[i])),
        forall|i: int|
            0 <= i < segments(pattern).len() && is_param(#[trigger] segments(pattern)[i]) && (
            forall|j: int|
                i < j < segments(pattern).len() && is_param(#[trigger] segments(pattern)[j])
                    ==> param_name(segments(pattern)[j]) != param_name(segments(pattern)[i]))
                ==> to_map(slugs(path, pattern))[param_name(segments(pattern)[i])] == segments(
                path,
            )[i],
{
    let r = segments(pattern);
    let p = segments(path);
    let items = bindings(path, pattern);
    assert forall|i: int| 0 <= i < r.len() && is_param(#[trigger] r[i]) implies to_map(
        slugs(path, pattern),
    ).contains_key(param_name(r[i])) by {
        assert(holds_key(items[i], param_name(r[i])));
        lemma_collect_keys(items, param_name(r[i]));
    }
    assert forall|i: int|
        0 <= i < r.len() && is_param(#[trigger] r[i]) && (forall|j: int|
            i < j < r.len() && is_param(#[trigger] r[j]) ==> param_name(r[j]) != param_name(
                r[i],
            )) implies to_map(slugs(path, pattern))[param_name(r[i])] == p[i] by {
        let k = param_name(r[i]);
        assert(holds_key(items[i], k));
        assert forall|j: int| i + 1 <= j < items.len() implies !holds_key(
            #[trigger] items[j],
            k,
        ) by {
            if is_param(r[j]) {
                assert(param_name(r[j]) != k);
            }
        }
        lemma_collect_value(items, k, i);
    }
}

/// A path and a pattern with different numbers of segments do not match,
/// whatever parameters the pattern has.
pub proof fn law_segment_count(path: Seq<char>, pattern: Seq<char>)
    requires
        segments(path).len() != segments(pattern).len(),
    ensures
        !path_matches(path, pattern),
{
}

/// Whether a pattern segment is a parameter.
pub fn segment_is_param(seg: &str) -> (r: bool)
    ensures
        r == is_param(seg@),
{
    let cs = chars_of(seg);
    cs.len() > 0 && cs[0] == '<' && cs[cs.len() - 1] == '>'
}

/// Whether `path` matches the pattern `route`.
///
/// A path and a pattern with different numbers of segments never match,
/// whatever parameters the pattern has.
pub fn match_dynamic(path: String, route: String) -> (r: bool)
    ensures
        r == path_matches(path@, route@),
        segments(path@).len() != segments(route@).len() ==> !r,
{
    let p = split_on(path.as_str(), '/');
    let q = split_on(route.as_str(), '/');
    if p.len() != q.len() {
        return false;
    }
    let mut i: usize = 0;
    while i < q.len()
        invariant
            p.deep_view() == segments(path@),
            q.deep_view() == segments(route@),
            p.len() == q.len(),
            i <= q.len(),
            forall|j: int|
                0 <= j < i ==> is_param(#[trigger] segments(route@)[j]) || segments(route@)[j]
                    == segments(path@)[j],
        decreases q.len() - i,
    {
        assert(q.deep_view()[i as int] == q@[i as int]@);
        assert(p.deep_view()[i as int] == p@[i as int]@);
        if !segment_is_param(q[i].as_str()) && !same_text(q[i].as_str(), p[i].as_str()) {
            return false;
        }
        i += 1;
    }
    true
}

/// The path parameters that `pattern` reads out of `path`: for each parameter
/// segment of the pattern, its name with the path's segment at the same place.
/// Where a name comes twice, the later segment's value stays.
pub fn parse_slug(path: String, pattern: String) -> (out: StrMap)
    ensures
        out.pairs() == slugs(path@, pattern@),
{
    let p = split_on(path.as_str(), '/');
    let q = split_on(pattern.as_str(), '/');
    let mut out = StrMap::new();
    let ghost items = bindings(path@, pattern@);
    let mut i: usize = 0;
    assert(items.take(0) =~= Seq::empty());
    while i < q.len()
        invariant
            p.deep_view() == segments(path@),
            q.deep_view() == segments(pattern@),
            items == bindings(path@, pattern@),
            i <= q.len(),
            out.pairs() == collect(items.take(i as int)),
        decreases q.len() - i,
    {
        assert(q.deep_view()[i as int] == q@[i as int]@);
        proof {
            lemma_collect_step(items, i as int);
        }
        if segment_is_param(q[i].as_str()) {
            let name = stripped(q[i].as_str(), '<', '>');
            let value = if i < p.len() {
                assert(p.deep_view()[i as int] == p@[i as int]@);
                p[i].clone()
            } else {
                String::new()
            };
            out.insert(name, value);
        }
        i += 1;
    }
    assert(items.take(items.len() as int) =~= items);
    out
}

/// The query parameters of `path`: the items of its query, each split at `=`
/// into a key and a value. A later item with the same key replaces the value.
pub fn parse_params(path: String) -> (out: StrMap)
    ensures
        out.pairs() == params(path@),
{
    let parts = split_on(path.as_str(), '?');
    let query = if parts.len() > 1 {
        assert(parts.deep_view()[1] == parts@[1]@);
        parts[1].clone()
    } else {
        String::new()
    };
    assert(query@ == query_of(path@));
    let list = split_on(query.as_str(), '&');
    let ghost items = query_items(path@);
    let mut out = StrMap::new();
    let mut i: usize = 0;
    assert(items.take(0) =~= Seq::empty());
    while i < list.len()
        invariant
            list.deep_view() == split(query_of(path@), '&'),
            items == query_items(path@),
            i <= list.len(),
            out.pairs() == collect(items.take(i as int)),
        decreases list.len() - i,
    {
        assert(list.deep_view()[i as int] == list@[i as int]@);
        proof {
            lemma_collect_step(items, i as int);
            lemma_split_nonempty(list@[i as int]@, '=');
        }
        let kv = split_on(list[i].as_str(), '=');
        assert(kv.deep_view()[0] == kv@[0]@);
        let key = trimmed(kv[0].as_str());
        let value = if kv.len() > 1 {
            assert(kv.deep_view()[1] == kv@[1]@);
            trimmed(kv[1].as_str())
        } else {
            proof {
                lemma_trim_empty();
            }
            String::new()
        };
        out.insert(key, value);
        i += 1;
    }
    assert(items.take(items.len() as int) =~= items);
    out
}

} // verus!
