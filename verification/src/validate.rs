//! Validation of a route table: duplicate paths, an empty table, and routes
//! of the same priority that can match the same URL.

use crate::errors::{RouterError, RouterErrorView, ValidationErrors};
use crate::pattern::{
    decoded_segment, lemma_url_of_segments, match_segments, match_url, parse_segments,
    url_of_segments, url_segments, Segment, SegmentView,
};
use crate::route::{route_priority, route_views, routes_at, RouteInfo, RouteInfoView};
use vstd::prelude::*;

verus! {

/// Whether two segment lists can match the same URL: they have the same
/// length, and wherever both are static they hold the same text.
pub open spec fn segments_ambiguous(a: Seq<SegmentView>, b: Seq<SegmentView>) -> bool {
    &&& a.len() == b.len()
    &&& forall|i: int|
        0 <= i < a.len() ==> ((#[trigger] a[i]) is Static && b[i] is Static ==> a[i] == b[i])
}

/// Checks if two sets of path segments are ambiguous, meaning that they
/// can overlap (or conflict) when matched against the same request path.
///
/// Static segments are compared case-sensitively.
pub fn are_patterns_ambiguous(segments_a: &[Segment], segments_b: &[Segment]) -> (ambiguous: bool)
    ensures
        ambiguous == segments_ambiguous(segments_a.deep_view(), segments_b.deep_view()),
{
    let ghost a = segments_a.deep_view();
    let ghost b = segments_b.deep_view();
    if segments_a.len() != segments_b.len() {
        return false;
    }
    let n = segments_a.len();
    let mut i: usize = 0;
    while i < n
        invariant
            n == a.len(),
            n == b.len(),
            a == segments_a.deep_view(),
            b == segments_b.deep_view(),
            i <= n,
            forall|k: int| 0 <= k < i ==> ((#[trigger] a[k]) is Static && b[k] is Static ==> a[k] == b[k]),
        decreases n - i,
    {
        assert(a[i as int] == segments_a[i as int].deep_view());
        assert(b[i as int] == segments_b[i as int].deep_view());
        match (&segments_a[i], &segments_b[i]) {
            (Segment::Static(sa), Segment::Static(sb)) => {
                if !(*sa == *sb) {
                    return false;
                }
            },
            _ => {},
        }
        i = i + 1;
    }
    true
}

/// Ambiguity does not depend on the order of the two patterns.
pub proof fn lemma_ambiguity_symmetric(a: Seq<SegmentView>, b: Seq<SegmentView>)
    ensures
        segments_ambiguous(a, b) == segments_ambiguous(b, a),
{
    if segments_ambiguous(a, b) {
        assert forall|i: int| 0 <= i < b.len() && (#[trigger] b[i]) is Static && a[i] is Static
            implies b[i] == a[i] by {
            assert(a[i] is Static && b[i] is Static ==> a[i] == b[i]);
        }
    }
    if segments_ambiguous(b, a) {
        assert forall|i: int| 0 <= i < a.len() && (#[trigger] a[i]) is Static && b[i] is Static
            implies a[i] == b[i] by {
            assert(b[i] is Static && a[i] is Static ==> b[i] == a[i]);
        }
    }
}

/// Every pattern is ambiguous with itself.
pub proof fn lemma_ambiguity_reflexive(a: Seq<SegmentView>)
    ensures
        segments_ambiguous(a, a),
{
}

/// A successful match pins every static segment to its URL segment.
proof fn lemma_match_static_segments(pattern: Seq<SegmentView>, url: Seq<Seq<char>>)
    requires
        match_segments(pattern, url) is Some,
    ensures
        pattern.len() == url.len(),
        forall|i: int|
            0 <= i < pattern.len() && (#[trigger] pattern[i]) is Static ==> pattern[i]
                == SegmentView::Static(url[i]),
    decreases pattern.len(),
{
    if pattern.len() > 0 {
        lemma_match_static_segments(pattern.drop_last(), url.drop_last());
        assert forall|i: int|
            0 <= i < pattern.len() && (#[trigger] pattern[i]) is Static implies pattern[i]
            == SegmentView::Static(url[i]) by {
            if i < pattern.len() - 1 {
                assert(pattern.drop_last()[i] == pattern[i]);
            }
        }
    }
}

/// Patterns that are not ambiguous never match the same URL: a URL whose
/// segments both patterns match makes them ambiguous.
pub proof fn lemma_common_match_implies_ambiguous(
    a: Seq<SegmentView>,
    b: Seq<SegmentView>,
    url: Seq<Seq<char>>,
)
    requires
        match_segments(a, url) is Some,
        match_segments(b, url) is Some,
    ensures
        segments_ambiguous(a, b),
{
    lemma_match_static_segments(a, url);
    lemma_match_static_segments(b, url);
}

/// Whether every static segment holds a non-empty text free of `/`, `?`,
/// `#` and `%`, so that a URL segment can spell it out.
pub open spec fn plain_statics(segments: Seq<SegmentView>) -> bool {
    forall|i: int|
        0 <= i < segments.len() && (#[trigger] segments[i]) is Static ==> {
            let text = segments[i]->Static_0;
            &&& text.len() > 0
            &&& !text.contains('/')
            &&& !text.contains('?')
            &&& !text.contains('#')
            &&& !text.contains('%')
        }
}

/// A URL segment that both a segment of one pattern and the segment at the
/// same position of another can match: the static text of either, or `x`.
pub open spec fn common_segment(a: SegmentView, b: SegmentView) -> Seq<char> {
    match a {
        SegmentView::Static(text) => text,
        SegmentView::Param(_) => match b {
            SegmentView::Static(text) => text,
            SegmentView::Param(_) => seq!['x'],
        },
    }
}

/// A pattern matches URL segments that spell out each of its static segments
/// and give each parameter a segment without `%`.
proof fn lemma_match_spelled_out(pattern: Seq<SegmentView>, url: Seq<Seq<char>>)
    requires
        pattern.len() == url.len(),
        forall|i: int|
            0 <= i < pattern.len() ==> match #[trigger] pattern[i] {
                SegmentView::Static(text) => url[i] == text,
                SegmentView::Param(_) => !url[i].contains('%'),
            },
    ensures
        match_segments(pattern, url) is Some,
    decreases pattern.len(),
{
    if pattern.len() > 0 {
        assert forall|i: int| 0 <= i < pattern.len() - 1 implies match #[trigger] pattern.drop_last()[i] {
            SegmentView::Static(text) => url.drop_last()[i] == text,
            SegmentView::Param(_) => !url.drop_last()[i].contains('%'),
        } by {
            assert(pattern.drop_last()[i] == pattern[i]);
        }
        lemma_match_spelled_out(pattern.drop_last(), url.drop_last());
        let last = pattern.len() - 1;
        assert(pattern.last() == pattern[last]);
        if let SegmentView::Param(_) = pattern[last] {
            assert(decoded_segment(url.last()) == Some(url.last()));
        }
    }
}

/// Ambiguity is exactly the possibility of a common match: two patterns
/// whose static segments are plain texts are ambiguous if and only if some
/// URL matches both.
pub proof fn lemma_ambiguous_iff_common_match(a: Seq<SegmentView>, b: Seq<SegmentView>)
    requires
        plain_statics(a),
        plain_statics(b),
    ensures
        segments_ambiguous(a, b) <==> exists|url: Seq<char>|
            #[trigger] match_segments(a, url_segments(url)) is Some && match_segments(
                b,
                url_segments(url),
            ) is Some,
{
    if segments_ambiguous(a, b) {
        let segs = Seq::new(a.len(), |i: int| common_segment(a[i], b[i]));
        assert forall|i: int| 0 <= i < segs.len() implies (#[trigger] segs[i]).len() > 0
            && !segs[i].contains('/') && !segs[i].contains('?') && !segs[i].contains('#')
            && !segs[i].contains('%') by {
            let x = seq!['x'];
            if a[i] is Param && b[i] is Param {
                assert(segs[i] == x);
                assert forall|c: char| x.contains(c) implies c == 'x' by {
                    let m = choose|m: int| 0 <= m < x.len() && x[m] == c;
                    assert(m == 0);
                }
            }
        }
        assert forall|i: int| 0 <= i < a.len() implies match #[trigger] a[i] {
            SegmentView::Static(text) => segs[i] == text,
            SegmentView::Param(_) => !segs[i].contains('%'),
        } by {
            assert(segs[i] == common_segment(a[i], b[i]));
        }
        assert forall|i: int| 0 <= i < b.len() implies match #[trigger] b[i] {
            SegmentView::Static(text) => segs[i] == text,
            SegmentView::Param(_) => !segs[i].contains('%'),
        } by {
            assert(segs[i] == common_segment(a[i], b[i]));
            assert(a[i] is Static && b[i] is Static ==> a[i] == b[i]);
        }
        lemma_match_spelled_out(a, segs);
        lemma_match_spelled_out(b, segs);
        lemma_url_of_segments(segs);
        let url = url_of_segments(segs);
        assert(match_segments(a, url_segments(url)) is Some);
    }
    if exists|url: Seq<char>|
        #[trigger] match_segments(a, url_segments(url)) is Some && match_segments(
            b,
            url_segments(url),
        ) is Some {
        let url = choose|url: Seq<char>|
            #[trigger] match_segments(a, url_segments(url)) is Some && match_segments(
                b,
                url_segments(url),
            ) is Some;
        lemma_common_match_implies_ambiguous(a, b, url_segments(url));
    }
}

/// Whether some route has the given path.
pub open spec fn has_path(routes: Seq<RouteInfoView>, path: Seq<char>) -> bool {
    exists|i: int| 0 <= i < routes.len() && routes[i].path == path
}

/// The routes that are kept for the ambiguity check: each route whose path
/// no earlier route has, in order.
pub open spec fn accepted_routes(routes: Seq<RouteInfoView>) -> Seq<RouteInfoView>
    decreases routes.len(),
{
    if routes.len() == 0 {
        Seq::empty()
    } else {
        let accepted = accepted_routes(routes.drop_last());
        if has_path(accepted, routes.last().path) {
            accepted
        } else {
            accepted.push(routes.last())
        }
    }
}

/// The component of the route with the given path.
pub open spec fn component_with_path(routes: Seq<RouteInfoView>, path: Seq<char>) -> Seq<char> {
    routes[choose|i: int| 0 <= i < routes.len() && routes[i].path == path].component_name
}

/// One error for each route whose path an earlier route already has, naming
/// the component of that earlier route and its own, in order.
pub open spec fn duplicate_errors(routes: Seq<RouteInfoView>) -> Seq<RouterErrorView>
    decreases routes.len(),
{
    if routes.len() == 0 {
        Seq::empty()
    } else {
        let errors = duplicate_errors(routes.drop_last());
        let accepted = accepted_routes(routes.drop_last());
        let route = routes.last();
        if has_path(accepted, route.path) {
            errors.push(
                RouterErrorView::DuplicateRoute {
                    path: route.path,
                    first_component: component_with_path(accepted, route.path),
                    second_component: route.component_name,
                },
            )
        } else {
            errors
        }
    }
}

/// The distinct priorities of the routes, in the order they first occur.
pub open spec fn priorities_in_order(routes: Seq<RouteInfoView>) -> Seq<nat>
    decreases routes.len(),
{
    if routes.len() == 0 {
        Seq::empty()
    } else {
        let priorities = priorities_in_order(routes.drop_last());
        if priorities.contains(route_priority(routes.last())) {
            priorities
        } else {
            priorities.push(route_priority(routes.last()))
        }
    }
}

/// Whether two routes' patterns can match the same URL.
pub open spec fn routes_ambiguous(a: RouteInfoView, b: RouteInfoView) -> bool {
    segments_ambiguous(parse_segments(a.path), parse_segments(b.path))
}

/// The error reporting two ambiguous routes.
pub open spec fn ambiguity_error(a: RouteInfoView, b: RouteInfoView) -> RouterErrorView {
    RouterErrorView::AmbiguousRoutes {
        path_a: a.path,
        component_a: a.component_name,
        path_b: b.path,
        component_b: b.component_name,
    }
}

/// Whether routes `i` and `j` both have priority `p` and are ambiguous.
pub open spec fn conflict_at(routes: Seq<RouteInfoView>, p: nat, i: int, j: int) -> bool {
    &&& route_priority(routes[i]) == p
    &&& route_priority(routes[j]) == p
    &&& routes_ambiguous(routes[i], routes[j])
}

/// The errors for the pairs `(i, j)` with `i < j < upto` in which both
/// routes have priority `p` and are ambiguous, in order of `j`.
pub open spec fn pair_errors(routes: Seq<RouteInfoView>, p: nat, i: int, upto: int) -> Seq<
    RouterErrorView,
>
    decreases upto - i,
{
    if upto <= i + 1 {
        Seq::empty()
    } else {
        let errors = pair_errors(routes, p, i, upto - 1);
        if conflict_at(routes, p, i, upto - 1) {
            errors.push(ambiguity_error(routes[i], routes[upto - 1]))
        } else {
            errors
        }
    }
}

/// The errors of the priority-`p` group: for each `i < upto` in order, the
/// errors of its pairs with later routes.
pub open spec fn bucket_errors(routes: Seq<RouteInfoView>, p: nat, upto: int) -> Seq<
    RouterErrorView,
>
    decreases upto,
{
    if upto <= 0 {
        Seq::empty()
    } else {
        bucket_errors(routes, p, upto - 1) + pair_errors(routes, p, upto - 1, routes.len() as int)
    }
}

/// The ambiguity errors of each priority group, group after group.
pub open spec fn ambiguity_errors(routes: Seq<RouteInfoView>, priorities: Seq<nat>) -> Seq<
    RouterErrorView,
>
    decreases priorities.len(),
{
    if priorities.len() == 0 {
        Seq::empty()
    } else {
        ambiguity_errors(routes, priorities.drop_last()) + bucket_errors(
            routes,
            priorities.last(),
            routes.len() as int,
        )
    }
}

/// All errors of a non-empty route table: the duplicates, then the
/// ambiguities among the routes kept, priority group by priority group in
/// the order the priorities first occur.
pub open spec fn validation_errors(routes: Seq<RouteInfoView>) -> Seq<RouterErrorView> {
    let accepted = accepted_routes(routes);
    duplicate_errors(routes) + ambiguity_errors(accepted, priorities_in_order(accepted))
}

/// What validating a route table gives.
pub open spec fn validation_outcome(routes: Seq<RouteInfoView>) -> Result<(), Seq<RouterErrorView>> {
    if routes.len() == 0 {
        Err(seq![RouterErrorView::NoRoutesRegistered])
    } else if validation_errors(routes).len() == 0 {
        Ok(())
    } else {
        Err(validation_errors(routes))
    }
}

/// No two routes have the same path.
pub open spec fn paths_distinct(routes: Seq<RouteInfoView>) -> bool {
    forall|i: int, j: int|
        0 <= i < j < routes.len() ==> (#[trigger] routes[i]).path != (#[trigger] routes[j]).path
}

/// No two routes of the same priority can match the same URL.
pub open spec fn no_same_priority_conflict(routes: Seq<RouteInfoView>) -> bool {
    forall|i: int, j: int|
        0 <= i < j < routes.len() && route_priority(#[trigger] routes[i]) == route_priority(
            #[trigger] routes[j],
        ) ==> !routes_ambiguous(routes[i], routes[j])
}

/// No duplicate errors exactly when the paths are distinct, and then every
/// route is kept.
proof fn lemma_duplicates_iff_distinct(routes: Seq<RouteInfoView>)
    ensures
        duplicate_errors(routes).len() == 0 <==> paths_distinct(routes),
        paths_distinct(routes) ==> accepted_routes(routes) == routes,
    decreases routes.len(),
{
    if routes.len() > 0 {
        let init = routes.drop_last();
        let last = routes.last();
        lemma_duplicates_iff_distinct(init);
        assert(paths_distinct(routes) ==> paths_distinct(init)) by {
            if paths_distinct(routes) {
                assert forall|i: int, j: int| 0 <= i < j < init.len() implies (
                #[trigger] init[i]).path != (#[trigger] init[j]).path by {
                    assert(init[i] == routes[i] && init[j] == routes[j]);
                }
            }
        }
        if paths_distinct(init) {
            let acc = accepted_routes(init);
            assert(acc == init);
            if has_path(acc, last.path) {
                let i = choose|i: int| 0 <= i < acc.len() && acc[i].path == last.path;
                assert(routes[i] == init[i]);
                assert(routes[routes.len() - 1] == last);
                assert(!paths_distinct(routes));
            } else {
                assert forall|i: int, j: int| 0 <= i < j < routes.len() implies (
                #[trigger] routes[i]).path != (#[trigger] routes[j]).path by {
                    if j < routes.len() - 1 {
                        assert(init[i] == routes[i] && init[j] == routes[j]);
                    } else {
                        assert(init[i] == routes[i]);
                        assert(routes[j] == last);
                    }
                }
                assert(init.push(last) =~= routes);
            }
        }
    }
}

/// The errors of one pair group are none exactly when no later route conflicts.
proof fn lemma_pair_errors_empty(routes: Seq<RouteInfoView>, p: nat, i: int, upto: int)
    ensures
        pair_errors(routes, p, i, upto).len() == 0 <==> forall|j: int|
            i < j < upto ==> !#[trigger] conflict_at(routes, p, i, j),
    decreases upto - i,
{
    if upto > i + 1 {
        lemma_pair_errors_empty(routes, p, i, upto - 1);
    }
}

/// The errors of a priority group are none exactly when no pair conflicts.
proof fn lemma_bucket_errors_empty(routes: Seq<RouteInfoView>, p: nat, upto: int)
    ensures
        bucket_errors(routes, p, upto).len() == 0 <==> forall|i: int, j: int|
            0 <= i < upto && i < j < routes.len() ==> !#[trigger] conflict_at(routes, p, i, j),
    decreases upto,
{
    if upto > 0 {
        lemma_bucket_errors_empty(routes, p, upto - 1);
        lemma_pair_errors_empty(routes, p, upto - 1, routes.len() as int);
        if bucket_errors(routes, p, upto).len() == 0 {
            assert forall|i: int, j: int|
                0 <= i < upto && i < j < routes.len() implies !#[trigger] conflict_at(routes, p, i, j) by {
                if i == upto - 1 {
                    assert(!conflict_at(routes, p, i, j));
                }
            }
        }
    }
}

/// The ambiguity errors are none exactly when no group has a conflicting pair.
proof fn lemma_ambiguity_errors_empty(routes: Seq<RouteInfoView>, priorities: Seq<nat>)
    ensures
        ambiguity_errors(routes, priorities).len() == 0 <==> forall|k: int, i: int, j: int|
            0 <= k < priorities.len() && 0 <= i < j < routes.len() ==> !#[trigger] conflict_at(
                routes,
                priorities[k],
                i,
                j,
            ),
    decreases priorities.len(),
{
    if priorities.len() > 0 {
        let init = priorities.drop_last();
        lemma_ambiguity_errors_empty(routes, init);
        lemma_bucket_errors_empty(routes, priorities.last(), routes.len() as int);
        if ambiguity_errors(routes, priorities).len() == 0 {
            assert forall|k: int, i: int, j: int|
                0 <= k < priorities.len() && 0 <= i < j < routes.len() implies !#[trigger] conflict_at(
                routes,
                priorities[k],
                i,
                j,
            ) by {
                if k < init.len() {
                    assert(init[k] == priorities[k]);
                    assert(!conflict_at(routes, init[k], i, j));
                } else {
                    assert(!conflict_at(routes, priorities.last(), i, j));
                }
            }
        } else {
            if forall|k: int, i: int, j: int|
                0 <= k < priorities.len() && 0 <= i < j < routes.len() ==> !#[trigger] conflict_at(
                    routes,
                    priorities[k],
                    i,
                    j,
                ) {
                assert forall|k: int, i: int, j: int|
                    0 <= k < init.len() && 0 <= i < j < routes.len() implies !#[trigger] conflict_at(
                    routes,
                    init[k],
                    i,
                    j,
                ) by {
                    assert(init[k] == priorities[k]);
                    assert(!conflict_at(routes, priorities[k], i, j));
                }
                assert forall|i: int, j: int|
                    0 <= i < routes.len() && i < j < routes.len() implies !#[trigger] conflict_at(
                    routes,
                    priorities.last(),
                    i,
                    j,
                ) by {
                    assert(!conflict_at(routes, priorities[priorities.len() - 1], i, j));
                }
            }
        }
    }
}

/// Every route's priority occurs among the priorities in order.
proof fn lemma_priorities_cover(routes: Seq<RouteInfoView>)
    ensures
        forall|i: int|
            0 <= i < routes.len() ==> priorities_in_order(routes).contains(
                route_priority(#[trigger] routes[i]),
            ),
    decreases routes.len(),
{
    if routes.len() > 0 {
        let init = routes.drop_last();
        lemma_priorities_cover(init);
        let before = priorities_in_order(init);
        let after = priorities_in_order(routes);
        assert forall|i: int| 0 <= i < routes.len() implies after.contains(
            route_priority(#[trigger] routes[i]),
        ) by {
            if i < init.len() {
                assert(init[i] == routes[i]);
                assert(before.contains(route_priority(init[i])));
                let k = choose|k: int| 0 <= k < before.len() && before[k] == route_priority(init[i]);
                if !before.contains(route_priority(routes.last())) {
                    assert(after[k] == before[k]);
                }
            } else {
                assert(routes[i] == routes.last());
                if !before.contains(route_priority(routes.last())) {
                    assert(after[before.len() as int] == route_priority(routes.last()));
                }
            }
        }
    }
}

/// A route table passes validation exactly when it is not empty, no two
/// routes share a path, and no two routes of the same priority can match
/// the same URL.
pub proof fn lemma_validation_accepts_exactly(routes: Seq<RouteInfoView>)
    ensures
        validation_outcome(routes) is Ok <==> routes.len() > 0 && paths_distinct(routes)
            && no_same_priority_conflict(routes),
{
    lemma_duplicates_iff_distinct(routes);
    if routes.len() > 0 && paths_distinct(routes) {
        let priorities = priorities_in_order(routes);
        lemma_ambiguity_errors_empty(routes, priorities);
        lemma_priorities_cover(routes);
        if no_same_priority_conflict(routes) {
            assert forall|k: int, i: int, j: int|
                0 <= k < priorities.len() && 0 <= i < j < routes.len() implies !#[trigger] conflict_at(
                routes,
                priorities[k],
                i,
                j,
            ) by {
                if conflict_at(routes, priorities[k], i, j) {
                    assert(route_priority(routes[i]) == route_priority(routes[j]));
                }
            }
        } else {
            let (i, j) = choose|i: int, j: int|
                0 <= i < j < routes.len() && route_priority(#[trigger] routes[i]) == route_priority(
                    #[trigger] routes[j],
                ) && routes_ambiguous(routes[i], routes[j]);
            assert(priorities.contains(route_priority(routes[i])));
            let k = choose|k: int| 0 <= k < priorities.len() && priorities[k] == route_priority(routes[i]);
            assert(conflict_at(routes, priorities[k], i, j));
        }
    }
}

/// In a table without same-priority conflicts, no URL is matched by two
/// routes of the same priority: the route that serves a URL is decided by
/// priority alone.
pub proof fn lemma_no_conflict_unique_match(routes: Seq<RouteInfoView>, url: Seq<char>)
    requires
        no_same_priority_conflict(routes),
    ensures
        forall|i: int, j: int|
            0 <= i < j < routes.len() && route_priority(routes[i]) == route_priority(routes[j])
                ==> !(match_url(#[trigger] routes[i].path, url) is Some && match_url(
                #[trigger] routes[j].path,
                url,
            ) is Some),
{
    assert forall|i: int, j: int|
        0 <= i < j < routes.len() && route_priority(routes[i]) == route_priority(routes[j]) implies !(
    match_url(#[trigger] routes[i].path, url) is Some && match_url(#[trigger] routes[j].path, url)
        is Some) by {
        if match_url(routes[i].path, url) is Some && match_url(routes[j].path, url) is Some {
            lemma_common_match_implies_ambiguous(
                parse_segments(routes[i].path),
                parse_segments(routes[j].path),
                url_segments(url),
            );
            assert(routes_ambiguous(routes[i], routes[j]));
        }
    }
}

/// The routes kept have distinct paths.
proof fn lemma_accepted_distinct(routes: Seq<RouteInfoView>)
    ensures
        forall|i: int, j: int|
            0 <= i < accepted_routes(routes).len() && 0 <= j < accepted_routes(routes).len() && i
                != j ==> (#[trigger] accepted_routes(routes)[i]).path != (
            #[trigger] accepted_routes(routes)[j]).path,
    decreases routes.len(),
{
    if routes.len() > 0 {
        lemma_accepted_distinct(routes.drop_last());
        let before = accepted_routes(routes.drop_last());
        let after = accepted_routes(routes);
        if !has_path(before, routes.last().path) {
            assert forall|i: int, j: int|
                0 <= i < after.len() && 0 <= j < after.len() && i != j implies (
            #[trigger] after[i]).path != (#[trigger] after[j]).path by {
                if i < before.len() && j < before.len() {
                    assert(after[i] == before[i] && after[j] == before[j]);
                } else if i < before.len() {
                    assert(after[i] == before[i]);
                } else if j < before.len() {
                    assert(after[j] == before[j]);
                }
            }
        }
    }
}

/// Keeps, of the routes, those whose path no earlier route has, and adds a
/// duplicate error for each of the others.
fn accept_routes(routes: &[RouteInfo], errors: &mut ValidationErrors) -> (accepted: Vec<usize>)
    requires
        old(errors)@ == Seq::<RouterErrorView>::empty(),
    ensures
        final(errors)@ == duplicate_errors(route_views(routes@)),
        routes_at(route_views(routes@), accepted@) == accepted_routes(route_views(routes@)),
        forall|m: int| 0 <= m < accepted.len() ==> accepted[m] < routes@.len(),
{
    let ghost views = route_views(routes@);
    let n = routes.len();
    let mut accepted: Vec<usize> = Vec::new();
    let mut k: usize = 0;
    assert(views.take(0) =~= Seq::<RouteInfoView>::empty());
    assert(routes_at(views, accepted@) =~= Seq::<RouteInfoView>::empty());
    while k < n
        invariant
            n == routes@.len(),
            views == route_views(routes@),
            k <= n,
            errors@ == duplicate_errors(views.take(k as int)),
            routes_at(views, accepted@) == accepted_routes(views.take(k as int)),
            forall|m: int| 0 <= m < accepted.len() ==> accepted[m] < k,
        decreases n - k,
    {
        let ghost prefix = views.take(k as int);
        let ghost next = views.take(k + 1);
        let ghost kept = accepted_routes(prefix);
        assert(next.drop_last() =~= prefix);
        assert(next.last() == routes@[k as int]@);
        proof {
            lemma_accepted_distinct(prefix);
        }
        let m_len = accepted.len();
        let mut m: usize = 0;
        let mut found: Option<usize> = None;
        while m < m_len
            invariant
                m_len == accepted.len(),
                n == routes@.len(),
                views == route_views(routes@),
                k < n,
                m <= m_len,
                forall|q: int| 0 <= q < accepted.len() ==> accepted[q] < k,
                kept == routes_at(views, accepted@),
                match found {
                    Some(q) => q < m_len && kept[q as int].path == views[k as int].path,
                    None => forall|q: int| 0 <= q < m ==> kept[q].path != views[k as int].path,
                },
            decreases m_len - m,
        {
            if found.is_none() {
                assert(kept[m as int] == routes@[accepted[m as int] as int]@);
                if routes[accepted[m]].has_same_path(&routes[k]) {
                    found = Some(m);
                }
            }
            m = m + 1;
        }
        match found {
            Some(q) => {
                let first = &routes[accepted[q]];
                let second = &routes[k];
                assert(kept[q as int] == first@);
                assert(has_path(kept, views[k as int].path));
                let ghost chosen = choose|i: int| 0 <= i < kept.len() && kept[i].path == views[k as int].path;
                assert(chosen == q as int);
                errors.add(
                    RouterError::DuplicateRoute {
                        path: String::from_str(second.path()),
                        first_component: String::from_str(first.component_name()),
                        second_component: String::from_str(second.component_name()),
                    },
                );
            },
            None => {
                assert(!has_path(kept, views[k as int].path));
                let ghost before = accepted@;
                accepted.push(k);
                assert(routes_at(views, accepted@) =~= kept.push(views[k as int]));
            },
        }
        k = k + 1;
    }
    assert(views.take(n as int) =~= views);
    accepted
}

/// The distinct priorities of the routes at the given positions, in the
/// order they first occur.
fn priorities_of(routes: &[RouteInfo], positions: &Vec<usize>) -> (priorities: Vec<usize>)
    requires
        forall|m: int| 0 <= m < positions.len() ==> positions[m] < routes@.len(),
    ensures
        priorities@.map_values(|p: usize| p as nat) == priorities_in_order(
            routes_at(route_views(routes@), positions@),
        ),
{
    let ghost views = route_views(routes@);
    let ghost kept = routes_at(views, positions@);
    let n = positions.len();
    let mut priorities: Vec<usize> = Vec::new();
    let mut k: usize = 0;
    assert(kept.take(0) =~= Seq::<RouteInfoView>::empty());
    assert(priorities@.map_values(|p: usize| p as nat) =~= Seq::<nat>::empty());
    while k < n
        invariant
            n == positions.len(),
            n == kept.len(),
            views == route_views(routes@),
            kept == routes_at(views, positions@),
            forall|m: int| 0 <= m < positions.len() ==> positions[m] < routes@.len(),
            k <= n,
            priorities@.map_values(|p: usize| p as nat) == priorities_in_order(kept.take(k as int)),
        decreases n - k,
    {
        let ghost known = priorities_in_order(kept.take(k as int));
        assert(kept.take(k + 1).drop_last() =~= kept.take(k as int));
        assert(kept.take(k + 1).last() == routes@[positions[k as int] as int]@);
        let p = routes[positions[k]].priority();
        let count = priorities.len();
        let mut b: usize = 0;
        let mut seen = false;
        while b < count
            invariant
                count == priorities.len(),
                b <= count,
                priorities@.map_values(|q: usize| q as nat) == known,
                seen ==> known.contains(p as nat),
                !seen ==> forall|q: int| 0 <= q < b ==> known[q] != p as nat,
            decreases count - b,
        {
            if priorities[b] == p {
                assert(known[b as int] == p as nat);
                seen = true;
            }
            b = b + 1;
        }
        if !seen {
            priorities.push(p);
            assert(priorities@.map_values(|q: usize| q as nat) =~= known.push(p as nat));
        }
        k = k + 1;
    }
    assert(kept.take(n as int) =~= kept);
    priorities
}

/// Adds the errors of the priority-`p` group among the routes at the given
/// positions.
fn add_bucket_errors(
    routes: &[RouteInfo],
    positions: &Vec<usize>,
    p: usize,
    errors: &mut ValidationErrors,
)
    requires
        forall|m: int| 0 <= m < positions.len() ==> positions[m] < routes@.len(),
    ensures
        final(errors)@ == old(errors)@ + bucket_errors(
            routes_at(route_views(routes@), positions@),
            p as nat,
            positions.len() as int,
        ),
{
    let ghost views = route_views(routes@);
    let ghost kept = routes_at(views, positions@);
    let n = positions.len();
    let ghost start = errors@;
    let mut i: usize = 0;
    assert(start =~= start + bucket_errors(kept, p as nat, 0));
    while i < n
        invariant
            n == positions.len(),
            n == kept.len(),
            views == route_views(routes@),
            kept == routes_at(views, positions@),
            forall|m: int| 0 <= m < positions.len() ==> positions[m] < routes@.len(),
            i <= n,
            errors@ == start + bucket_errors(kept, p as nat, i as int),
        decreases n - i,
    {
        let ghost before = errors@;
        let first = &routes[positions[i]];
        assert(kept[i as int] == first@);
        if first.priority() == p {
            let mut j: usize = i + 1;
            assert(before =~= before + pair_errors(kept, p as nat, i as int, j as int));
            while j < n
                invariant
                    n == positions.len(),
                    n == kept.len(),
                    views == route_views(routes@),
                    kept == routes_at(views, positions@),
                    forall|m: int| 0 <= m < positions.len() ==> positions[m] < routes@.len(),
                    i < j <= n,
                    kept[i as int] == first@,
                    route_priority(first@) == p,
                    errors@ == before + pair_errors(kept, p as nat, i as int, j as int),
                decreases n - j,
            {
                let second = &routes[positions[j]];
                assert(kept[j as int] == second@);
                if second.priority() == p && are_patterns_ambiguous(
                    first.pattern().segments(),
                    second.pattern().segments(),
                ) {
                    errors.add(
                        RouterError::AmbiguousRoutes {
                            path_a: String::from_str(first.path()),
                            component_a: String::from_str(first.component_name()),
                            path_b: String::from_str(second.path()),
                            component_b: String::from_str(second.component_name()),
                        },
                    );
                }
                assert(errors@ =~= before + pair_errors(kept, p as nat, i as int, j + 1));
                j = j + 1;
            }
        } else {
            proof {
                lemma_pair_errors_other_priority(kept, p as nat, i as int, n as int);
            }
        }
        assert(errors@ =~= start + bucket_errors(kept, p as nat, i + 1));
        i = i + 1;
    }
}

/// A route of another priority has no pair errors in the group.
proof fn lemma_pair_errors_other_priority(routes: Seq<RouteInfoView>, p: nat, i: int, upto: int)
    requires
        0 <= i < routes.len(),
        route_priority(routes[i]) != p,
    ensures
        pair_errors(routes, p, i, upto) == Seq::<RouterErrorView>::empty(),
    decreases upto - i,
{
    if upto > i + 1 {
        lemma_pair_errors_other_priority(routes, p, i, upto - 1);
    }
}

/// Validate a route table
///
/// This checks for:
/// - No routes registered
/// - Duplicate route paths
/// - Ambiguous routes (overlapping patterns with the same priority, e.g. '/user/:id' and '/user/:name')
///
/// Returns `Ok(())` if all routes are valid, and otherwise every error found.
pub fn validate_routes(routes: &[RouteInfo]) -> (result: Result<(), ValidationErrors>)
    ensures
        match result {
            Ok(()) => validation_outcome(route_views(routes@)) is Ok,
            Err(errors) => validation_outcome(route_views(routes@)) == Err::<(), _>(errors@),
        },
{
    let ghost views = route_views(routes@);
    let mut validation_errors = ValidationErrors::new();
    if routes.len() == 0 {
        validation_errors.add(RouterError::NoRoutesRegistered);
        assert(validation_errors@ =~= seq![RouterErrorView::NoRoutesRegistered]);
        return Err(validation_errors);
    }
    let accepted = accept_routes(routes, &mut validation_errors);
    let ghost kept = routes_at(views, accepted@);
    let priorities = priorities_of(routes, &accepted);
    let ghost order = priorities@.map_values(|p: usize| p as nat);
    let ghost duplicates = validation_errors@;
    let count = priorities.len();
    let mut b: usize = 0;
    assert(order.take(0) =~= Seq::<nat>::empty());
    assert(duplicates =~= duplicates + ambiguity_errors(kept, order.take(0)));
    while b < count
        invariant
            count == priorities.len(),
            order == priorities@.map_values(|p: usize| p as nat),
            kept == routes_at(views, accepted@),
            views == route_views(routes@),
            forall|m: int| 0 <= m < accepted.len() ==> accepted[m] < routes@.len(),
            b <= count,
            validation_errors@ == duplicates + ambiguity_errors(kept, order.take(b as int)),
        decreases count - b,
    {
        assert(order.take(b + 1).drop_last() =~= order.take(b as int));
        assert(order.take(b + 1).last() == priorities[b as int] as nat);
        add_bucket_errors(routes, &accepted, priorities[b], &mut validation_errors);
        assert(validation_errors@ =~= duplicates + ambiguity_errors(kept, order.take(b + 1)));
        b = b + 1;
    }
    assert(order.take(count as int) =~= order);
    if validation_errors.is_empty() {
        Ok(())
    } else {
        Err(validation_errors)
    }
}

/// Validate a route table and panic with a detailed error message if
/// validation fails: the table must be valid.
pub fn validate_routes_or_panic(routes: &[RouteInfo])
    requires
        validation_outcome(route_views(routes@)) is Ok,
{
    match validate_routes(routes) {
        Ok(()) => {},
        Err(_) => {
            assert(false);
        },
    }
}

} // verus!
