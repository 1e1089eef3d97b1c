//! Route metadata and the lookup of the route that serves a URL.

use crate::params::RouteParams;
use crate::pattern::{match_url, parse_segments, priority_of, RoutePattern};
use vstd::prelude::*;

verus! {

/// What a route is: its path and the name of its component.
pub struct RouteInfoView {
    pub path: Seq<char>,
    pub component_name: Seq<char>,
}

/// The priority of a route: that of the pattern parsed from its path.
pub open spec fn route_priority(route: RouteInfoView) -> nat {
    priority_of(parse_segments(route.path))
}

/// The views of a list of routes.
pub open spec fn route_views(routes: Seq<RouteInfo>) -> Seq<RouteInfoView> {
    routes.map_values(|route: RouteInfo| route@)
}

/// Metadata for a single route
#[derive(Debug)]
pub struct RouteInfo {
    /// Primary route path
    path: String,
    /// Component name
    component_name: String,
    /// Parsed pattern for matching
    pattern: RoutePattern,
}

impl View for RouteInfo {
    type V = RouteInfoView;

    closed spec fn view(&self) -> RouteInfoView {
        RouteInfoView { path: self.path@, component_name: self.component_name@ }
    }
}

impl RouteInfo {
    #[verifier::type_invariant]
    closed spec fn pattern_of_path(self) -> bool {
        self.pattern@ == self.path@
    }

    /// Create new route info
    pub fn new(path: &str, component_name: &str) -> (route: Self)
        requires
            priority_of(parse_segments(path@)) <= usize::MAX,
        ensures
            route@ == (RouteInfoView { path: path@, component_name: component_name@ }),
    {
        RouteInfo {
            path: String::from_str(path),
            component_name: String::from_str(component_name),
            pattern: RoutePattern::parse(path),
        }
    }

    /// Get the route path
    pub fn path(&self) -> (path: &str)
        ensures
            path@ == self@.path,
    {
        self.path.as_str()
    }

    /// Whether two routes have the same path.
    pub fn has_same_path(&self, other: &RouteInfo) -> (same: bool)
        ensures
            same == (self@.path == other@.path),
    {
        self.path == other.path
    }

    /// Whether the route's path is the given text.
    pub fn has_path(&self, path: &String) -> (same: bool)
        ensures
            same == (self@.path == path@),
    {
        self.path == *path
    }

    /// Get the parsed pattern
    pub fn pattern(&self) -> (pattern: &RoutePattern)
        ensures
            pattern@ == self@.path,
    {
        proof {
            use_type_invariant(self);
        }
        &self.pattern
    }

    /// Get the component name
    pub fn component_name(&self) -> (name: &str)
        ensures
            name@ == self@.component_name,
    {
        self.component_name.as_str()
    }

    /// Get the priority for route matching
    pub fn priority(&self) -> (priority: usize)
        ensures
            priority == route_priority(self@),
    {
        self.pattern().priority()
    }

    /// Check if this route matches the given URL
    pub fn matches(&self, url: &str) -> (params: Option<RouteParams>)
        ensures
            match params {
                Some(found) => match_url(self@.path, url@) == Some(found@),
                None => match_url(self@.path, url@) is None,
            },
    {
        self.pattern().matches(url)
    }
}

impl Clone for RouteInfo {
    fn clone(&self) -> (copy: Self)
        ensures
            copy@ == self@,
    {
        proof {
            use_type_invariant(self);
        }
        RouteInfo {
            path: self.path.clone(),
            component_name: self.component_name.clone(),
            pattern: self.pattern.clone(),
        }
    }
}

/// Routes are in priority order: highest first.
pub open spec fn sorted_by_priority(routes: Seq<RouteInfoView>) -> bool {
    forall|i: int, j: int|
        0 <= i < j < routes.len() ==> route_priority(#[trigger] routes[i]) >= route_priority(
            #[trigger] routes[j],
        )
}

/// The routes of priority `p`, in order.
pub open spec fn with_priority(routes: Seq<RouteInfoView>, p: nat) -> Seq<RouteInfoView> {
    routes.filter(|route: RouteInfoView| route_priority(route) == p)
}

/// Filtering a sequence in which no element passes gives nothing.
proof fn lemma_filter_none<A>(s: Seq<A>, pred: spec_fn(A) -> bool)
    requires
        forall|i: int| 0 <= i < s.len() ==> !pred(#[trigger] s[i]),
    ensures
        s.filter(pred) == Seq::<A>::empty(),
    decreases s.len(),
{
    if s.len() == 0 {
        reveal(Seq::filter);
    } else {
        let init = s.drop_last();
        assert forall|i: int| 0 <= i < init.len() implies !pred(#[trigger] init[i]) by {
            assert(init[i] == s[i]);
        }
        lemma_filter_none(init, pred);
        init.lemma_filter_push(s.last(), pred);
        assert(!pred(s[s.len() - 1]));
        assert(init.push(s.last()) =~= s);
    }
}

/// Inserting a route after every route of at least its priority and before
/// every route of lower priority keeps the order sorted and adds the route at
/// the end of its priority group.
proof fn lemma_insert_by_priority(out: Seq<RouteInfoView>, k: int, x: RouteInfoView)
    requires
        sorted_by_priority(out),
        0 <= k <= out.len(),
        forall|m: int| 0 <= m < k ==> route_priority(#[trigger] out[m]) >= route_priority(x),
        k < out.len() ==> route_priority(out[k]) < route_priority(x),
    ensures
        sorted_by_priority(out.insert(k, x)),
        forall|p: nat|
            #[trigger] with_priority(out.insert(k, x), p) == if p == route_priority(x) {
                with_priority(out, p).push(x)
            } else {
                with_priority(out, p)
            },
{
    let head = out.take(k);
    let tail = out.skip(k);
    let next = out.insert(k, x);
    assert(next =~= head.push(x) + tail);
    assert(out =~= head + tail);
    assert forall|m: int| 0 <= m < tail.len() implies route_priority(#[trigger] tail[m])
        < route_priority(x) by {
        assert(tail[m] == out[k + m]);
        assert(route_priority(out[k]) >= route_priority(out[k + m]));
    }
    assert forall|p: nat| #[trigger] with_priority(next, p) == if p == route_priority(x) {
        with_priority(out, p).push(x)
    } else {
        with_priority(out, p)
    } by {
        let pred = |route: RouteInfoView| route_priority(route) == p;
        Seq::filter_distributes_over_add(head.push(x), tail, pred);
        Seq::filter_distributes_over_add(head, tail, pred);
        head.lemma_filter_push(x, pred);
        if p == route_priority(x) {
            assert forall|m: int| 0 <= m < tail.len() implies !pred(#[trigger] tail[m]) by {
                assert(route_priority(tail[m]) < route_priority(x));
            }
            lemma_filter_none(tail, pred);
            assert(tail.filter(pred) =~= Seq::<RouteInfoView>::empty());
            assert(head.filter(pred).push(x) + Seq::<RouteInfoView>::empty() =~= head.filter(pred).push(x));
            assert(head.filter(pred) + Seq::<RouteInfoView>::empty() =~= head.filter(pred));
        }
    }
    assert forall|a: int, b: int| 0 <= a < b < next.len() implies route_priority(
        #[trigger] next[a],
    ) >= route_priority(#[trigger] next[b]) by {
        if b < k {
            assert(next[a] == out[a] && next[b] == out[b]);
        } else if b == k {
            assert(next[a] == out[a]);
        } else if a < k {
            assert(next[a] == out[a]);
            assert(next[b] == tail[b - k - 1]);
        } else if a == k {
            assert(next[b] == tail[b - k - 1]);
        } else {
            assert(next[a] == out[a - 1] && next[b] == out[b - 1]);
        }
    }
}

/// The routes at the given positions.
pub open spec fn routes_at(routes: Seq<RouteInfoView>, positions: Seq<usize>) -> Seq<RouteInfoView> {
    positions.map_values(|i: usize| routes[i as int])
}

/// The order in which routes are tried: by priority, highest first, keeping
/// the registration order among routes of equal priority (a stable sort).
/// Gives the positions of the routes in that order.
pub fn sort_by_priority(routes: &[RouteInfo]) -> (order: Vec<usize>)
    ensures
        order.len() == routes@.len(),
        forall|m: int| 0 <= m < order.len() ==> order[m] < routes@.len(),
        forall|a: int, b: int| 0 <= a < b < order.len() ==> #[trigger] order[a] != #[trigger] order[b],
        sorted_by_priority(routes_at(route_views(routes@), order@)),
        forall|p: nat|
            #[trigger] with_priority(routes_at(route_views(routes@), order@), p) == with_priority(
                route_views(routes@),
                p,
            ),
{
    let ghost input = route_views(routes@);
    let n = routes.len();
    let mut order: Vec<usize> = Vec::new();
    let mut i: usize = 0;
    assert(input.take(0) =~= Seq::<RouteInfoView>::empty());
    assert(routes_at(input, order@) =~= Seq::<RouteInfoView>::empty());
    while i < n
        invariant
            n == routes@.len(),
            input == route_views(routes@),
            i <= n,
            order.len() == i,
            forall|m: int| 0 <= m < order.len() ==> order[m] < i,
            forall|a: int, b: int| 0 <= a < b < order.len() ==> #[trigger] order[a] != #[trigger] order[b],
            sorted_by_priority(routes_at(input, order@)),
            forall|p: nat|
                #[trigger] with_priority(routes_at(input, order@), p) == with_priority(
                    input.take(i as int),
                    p,
                ),
        decreases n - i,
    {
        let ghost out = routes_at(input, order@);
        let priority = routes[i].priority();
        let ghost x = input[i as int];
        assert(x == routes@[i as int]@);
        let count = order.len();
        let mut k: usize = 0;
        while k < count && routes[order[k]].priority() >= priority
            invariant
                count == order@.len(),
                n == routes@.len(),
                input == route_views(routes@),
                forall|m: int| 0 <= m < order.len() ==> order[m] < n,
                out == routes_at(input, order@),
                k <= count,
                priority == route_priority(x),
                forall|m: int| 0 <= m < k ==> route_priority(#[trigger] out[m]) >= priority,
            decreases count - k,
        {
            assert(out[k as int] == routes@[order[k as int] as int]@);
            k = k + 1;
        }
        proof {
            if k < count {
                assert(out[k as int] == routes@[order[k as int] as int]@);
            }
        }
        let ghost before = order@;
        order.insert(k, i);
        proof {
            assert(routes_at(input, order@) =~= out.insert(k as int, x));
            lemma_insert_by_priority(out, k as int, x);
            assert(input.take(i + 1) =~= input.take(i as int).push(x));
            assert forall|p: nat| #[trigger] with_priority(routes_at(input, order@), p) == with_priority(
                input.take(i + 1),
                p,
            ) by {
                let pred = |route: RouteInfoView| route_priority(route) == p;
                input.take(i as int).lemma_filter_push(x, pred);
            }
            assert forall|m: int| 0 <= m < order.len() implies order[m] < i + 1 by {
                if m < k {
                    assert(order[m] == before[m]);
                } else if m > k {
                    assert(order[m] == before[m - 1]);
                }
            }
            assert forall|a: int, b: int| 0 <= a < b < order.len() implies #[trigger] order[a]
                != #[trigger] order[b] by {
                if a < k {
                    assert(order[a] == before[a]);
                } else if a > k {
                    assert(order[a] == before[a - 1]);
                }
                if b < k {
                    assert(order[b] == before[b]);
                } else if b > k {
                    assert(order[b] == before[b - 1]);
                }
            }
        }
        i = i + 1;
    }
    assert(input.take(n as int) =~= input);
    order
}

/// In a table sorted by priority, the first route that matches has the
/// highest priority among all routes that match.
pub proof fn lemma_first_match_wins(routes: Seq<RouteInfoView>, url: Seq<char>, index: int)
    requires
        sorted_by_priority(routes),
        0 <= index < routes.len(),
        match_url(routes[index].path, url) is Some,
        forall|j: int| 0 <= j < index ==> match_url(#[trigger] routes[j].path, url) is None,
    ensures
        forall|j: int|
            0 <= j < routes.len() && match_url(#[trigger] routes[j].path, url) is Some
                ==> route_priority(routes[index]) >= route_priority(routes[j]),
{
    assert forall|j: int|
        0 <= j < routes.len() && match_url(#[trigger] routes[j].path, url) is Some implies route_priority(
        routes[index],
    ) >= route_priority(routes[j]) by {
        if j > index {
            assert(route_priority(routes[index]) >= route_priority(routes[j]));
        }
    }
}

/// Find the first route, in the given order, whose path is exactly `path`.
pub fn match_route(routes: &[RouteInfo], path: &str) -> (found: Option<usize>)
    ensures
        match found {
            Some(index) => index < routes@.len() && routes@[index as int]@.path == path@ && forall|j: int|
                0 <= j < index ==> (#[trigger] routes@[j])@.path != path@,
            None => forall|j: int| 0 <= j < routes@.len() ==> (#[trigger] routes@[j])@.path != path@,
        },
{
    let wanted = String::from_str(path);
    let n = routes.len();
    let mut i: usize = 0;
    while i < n
        invariant
            n == routes@.len(),
            wanted@ == path@,
            i <= n,
            forall|j: int| 0 <= j < i ==> (#[trigger] routes@[j])@.path != path@,
        decreases n - i,
    {
        if routes[i].has_path(&wanted) {
            return Some(i);
        }
        i = i + 1;
    }
    None
}

/// Find the first route, in the given order, that matches the path
///
/// Returns the position of the matched route and the extracted parameters.
/// The pattern matcher handles URL normalisation and decoding.
pub fn find_route(routes: &[RouteInfo], path: &str) -> (found: Option<(usize, RouteParams)>)
    ensures
        match found {
            Some((index, params)) => {
                &&& index < routes@.len()
                &&& match_url(routes@[index as int]@.path, path@) == Some(params@)
                &&& forall|j: int|
                    0 <= j < index ==> match_url(#[trigger] routes@[j]@.path, path@) is None
            },
            None => forall|j: int|
                0 <= j < routes@.len() ==> match_url(#[trigger] routes@[j]@.path, path@) is None,
        },
{
    let n = routes.len();
    let mut i: usize = 0;
    while i < n
        invariant
            n == routes@.len(),
            i <= n,
            forall|j: int| 0 <= j < i ==> match_url(#[trigger] routes@[j]@.path, path@) is None,
        decreases n - i,
    {
        if let Some(params) = routes[i].matches(path) {
            return Some((i, params));
        }
        i = i + 1;
    }
    None
}

} // verus!
