//! What a table of routes means, stated on the table itself: which requests
//! it matches, with which handler and which parameters. The compiled automaton
//! is held to this meaning.
//!
//! A route's template becomes a sequence of tokens: a literal is its
//! character, a parameter is the `/` that ends it, and the route's method
//! comes last. A walk follows these tokens through the table. At the place of
//! a parameter, a character that no route continues with is captured under the
//! parameter's name.

use crate::router::error::RouterBuilderError;
use crate::router::method::Method;
use crate::router::state::recorded;
use crate::router::template::{has_duplicate_names, template_segments, SegmentView};
use crate::router::token::{request_tokens, InputToken};
use vstd::prelude::*;

verus! {

/// The character that ends a captured parameter.
pub const DELIMITER: char = '/';

/// A route as it was registered: a method and a template.
pub struct RouteView {
    pub method: Method,
    pub path: Seq<char>,
}

/// A compiled route: its method, the segments of its template and its handler.
pub struct Entry<H> {
    pub method: Method,
    pub segments: Seq<SegmentView>,
    pub handler: H,
}

/// The token that a segment puts into a route's path: a literal's character,
/// or the delimiter that ends a parameter.
pub open spec fn segment_token(segment: SegmentView) -> InputToken {
    match segment {
        SegmentView::Literal(c) => InputToken::Char(c),
        SegmentView::Parameter(_) => InputToken::Char(DELIMITER),
    }
}

/// The tokens of a sequence of segments, one for each.
pub open spec fn segment_tokens(segments: Seq<SegmentView>) -> Seq<InputToken> {
    Seq::new(segments.len(), |i: int| segment_token(segments[i]))
}

/// The tokens of a route: those of its segments, then its method.
pub open spec fn entry_tokens<H>(entry: Entry<H>) -> Seq<InputToken> {
    segment_tokens(entry.segments).push(InputToken::Method(entry.method))
}

/// The name of the parameter that the segments capture at the place `at`: the
/// segment that follows the tokens `at` is a parameter.
pub open spec fn segments_capture(segments: Seq<SegmentView>, at: Seq<InputToken>) -> Option<
    Seq<char>,
> {
    let k = at.len() as int;
    if k < segments.len() && segment_tokens(segments).take(k) == at && segments[k] is Parameter {
        Some(segments[k]->Parameter_0)
    } else {
        None
    }
}

/// Whether some route of the table starts with the tokens `path`.
pub open spec fn has_path<H>(table: Seq<Entry<H>>, path: Seq<InputToken>) -> bool
    decreases table.len(),
{
    table.len() > 0 && (path.is_prefix_of(entry_tokens(table.last())) || has_path(
        table.drop_last(),
        path,
    ))
}

/// The name under which the table captures at the place `at`: that of the
/// last route that captures there.
pub open spec fn capture_at<H>(table: Seq<Entry<H>>, at: Seq<InputToken>) -> Option<Seq<char>>
    decreases table.len(),
{
    if table.len() == 0 {
        None
    } else {
        match segments_capture(table.last().segments, at) {
            Some(name) => Some(name),
            None => capture_at(table.drop_last(), at),
        }
    }
}

/// The handler of the last route whose tokens are exactly `path`.
pub open spec fn handler_at<H>(table: Seq<Entry<H>>, path: Seq<InputToken>) -> Option<H>
    decreases table.len(),
{
    if table.len() == 0 {
        None
    } else if entry_tokens(table.last()) == path {
        Some(table.last().handler)
    } else {
        handler_at(table.drop_last(), path)
    }
}

/// Where a walk stands: the tokens that it has followed and the parameters
/// that it has captured.
pub struct WalkView {
    pub path: Seq<InputToken>,
    pub params: Map<Seq<char>, Seq<char>>,
}

/// One step of a walk. A token that some route continues with is followed.
/// Any other token is captured, where the table captures at this place. Else
/// the walk has failed.
pub open spec fn table_step<H>(table: Seq<Entry<H>>, walk: WalkView, token: InputToken) -> Option<
    WalkView,
> {
    if has_path(table, walk.path.push(token)) {
        Some(WalkView { path: walk.path.push(token), params: walk.params })
    } else {
        match capture_at(table, walk.path) {
            Some(name) => Some(
                WalkView { path: walk.path, params: recorded(walk.params, name, token) },
            ),
            None => None,
        }
    }
}

/// The walk over `tokens` from `start`; nothing, once a step has failed.
pub open spec fn table_run<H>(
    table: Seq<Entry<H>>,
    start: WalkView,
    tokens: Seq<InputToken>,
) -> Option<WalkView>
    decreases tokens.len(),
{
    if tokens.len() == 0 {
        Some(start)
    } else {
        match table_run(table, start, tokens.drop_last()) {
            Some(walk) => table_step(table, walk, tokens.last()),
            None => None,
        }
    }
}

/// Where every walk starts.
pub open spec fn walk_start() -> WalkView {
    WalkView { path: Seq::empty(), params: Map::empty() }
}

/// What a request is matched to.
pub enum MatchView<H> {
    /// A route matches: its handler, and the parameters that were captured.
    Matched { handler: H, params: Map<Seq<char>, Seq<char>> },
    /// No route matches.
    NotFound,
}

/// What the table matches a request to: the walk over the path's characters
/// and then the method ends where a route ends, or the request is not found.
pub open spec fn table_match<H>(table: Seq<Entry<H>>, method: Method, path: Seq<char>) -> MatchView<
    H,
> {
    match table_run(table, walk_start(), request_tokens(method, path)) {
        Some(walk) => match handler_at(table, walk.path) {
            Some(handler) => MatchView::Matched { handler, params: walk.params },
            None => MatchView::NotFound,
        },
        None => MatchView::NotFound,
    }
}

/// Whether the segments capture, at some place, under another name than the
/// table does there.
pub open spec fn conflicts<H>(table: Seq<Entry<H>>, segments: Seq<SegmentView>) -> bool {
    exists|k: int|
        0 <= k < segments.len() && conflicts_at(table, segments, k)
}

/// Whether segment `k` is a parameter, and the table captures at its place
/// under another name.
pub open spec fn conflicts_at<H>(table: Seq<Entry<H>>, segments: Seq<SegmentView>, k: int) -> bool {
    &&& segments[k] is Parameter
    &&& capture_at(table, segment_tokens(segments).take(k)) matches Some(name)
    &&& name != segments[k]->Parameter_0
}

/// The fault for which a route cannot join the table, if there is one: a
/// malformed template first, then a name that it declares twice, then a
/// capture that conflicts with the table.
pub open spec fn route_fault<H>(table: Seq<Entry<H>>, route: RouteView) -> Option<
    RouterBuilderError,
> {
    match template_segments(route.path) {
        None => Some(RouterBuilderError::InvalidPath),
        Some(segments) => if has_duplicate_names(segments) {
            Some(RouterBuilderError::DuplicateParameter)
        } else if conflicts(table, segments) {
            Some(RouterBuilderError::ConflictingParameter)
        } else {
            None
        },
    }
}

/// The compiled route of a registered route with a well-formed template.
pub open spec fn entry_of<H>(route: RouteView, handler: H) -> Entry<H> {
    Entry { method: route.method, segments: template_segments(route.path).unwrap(), handler }
}

/// The table that the routes compile to, in the order of their registration;
/// or the fault of the first route that has one.
pub open spec fn compiled<H>(routes: Seq<(RouteView, H)>) -> Result<
    Seq<Entry<H>>,
    RouterBuilderError,
>
    decreases routes.len(),
{
    if routes.len() == 0 {
        Ok(Seq::empty())
    } else {
        match compiled(routes.drop_last()) {
            Err(e) => Err(e),
            Ok(table) => match route_fault(table, routes.last().0) {
                Some(e) => Err(e),
                None => Ok(table.push(entry_of(routes.last().0, routes.last().1))),
            },
        }
    }
}

/// A table in which no route declares a name twice and no route captures
/// under another name than a route before it does at the same place.
pub open spec fn table_valid<H>(table: Seq<Entry<H>>) -> bool
    decreases table.len(),
{
    table.len() > 0 ==> {
        &&& table_valid(table.drop_last())
        &&& !has_duplicate_names(table.last().segments)
        &&& !conflicts(table.drop_last(), table.last().segments)
    }
}

/// What compiles is a valid table with one route for each that was registered.
pub proof fn lemma_compiled_is_valid<H>(routes: Seq<(RouteView, H)>)
    requires
        compiled(routes) is Ok,
    ensures
        table_valid(compiled(routes).unwrap()),
        compiled(routes).unwrap().len() == routes.len(),
        forall|i: int|
            0 <= i < routes.len() ==> template_segments(routes[i].0.path) is Some && (
            #[trigger] compiled(routes).unwrap()[i]) == entry_of(routes[i].0, routes[i].1),
    decreases routes.len(),
{
    if routes.len() > 0 {
        lemma_compiled_is_valid(routes.drop_last());
        let table = compiled(routes.drop_last()).unwrap();
        let entry = entry_of(routes.last().0, routes.last().1);
        assert(table.push(entry).drop_last() =~= table);
    }
}


/// The length of the longest start of `tokens` that the table has.
pub open spec fn known_depth<H>(table: Seq<Entry<H>>, tokens: Seq<InputToken>) -> nat
    decreases tokens.len(),
{
    if tokens.len() == 0 {
        0
    } else if has_path(table, tokens) {
        tokens.len()
    } else {
        known_depth(table, tokens.drop_last())
    }
}

/// The number of nodes of the automaton that holds the table: the start node,
/// and for every route one node for each of its tokens behind the longest
/// start that the routes before it have.
pub open spec fn table_nodes<H>(table: Seq<Entry<H>>) -> nat
    decreases table.len(),
{
    if table.len() == 0 {
        1
    } else {
        (table_nodes(table.drop_last()) + entry_tokens(table.last()).len() - known_depth(
            table.drop_last(),
            entry_tokens(table.last()),
        )) as nat
    }
}

/// The number of tokens of all routes of the table.
pub open spec fn table_tokens<H>(table: Seq<Entry<H>>) -> nat
    decreases table.len(),
{
    if table.len() == 0 {
        0
    } else {
        table_tokens(table.drop_last()) + entry_tokens(table.last()).len()
    }
}

} // verus!
