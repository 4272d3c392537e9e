//! The router: a table of routes compiled into one automaton, and the walk
//! that matches a request against it.
//!
//! A route is a method and a path template. In a template, `<name>` stands
//! for a parameter: at its place the router captures characters under the name
//! until the delimiter `/` ends the capture. The delimiter belongs to the
//! parameter: the route `/roles/<id>` matches the path `/roles/7/`, with `7`
//! captured under `id`, and a `/` that follows a parameter in a template is a
//! literal of its own. Routes that start alike share the nodes of their
//! common start.
//!
//! Where routes meet, the router goes by these rules:
//!
//! - Of two routes with the same tokens, the one registered last gives the
//!   handler.
//! - A route that captures at a place where a route registered before it
//!   captures under another name is refused when the router is built.
//! - A character for which the node has an edge follows the edge, also at the
//!   place of a parameter: a literal of one route is taken before the capture
//!   of another.
//! - A parameter may capture nothing. Its name is then missing among the
//!   parameters of the match.

pub mod error;
pub mod laws;
pub mod method;
pub mod state;
pub mod table;
pub mod template;
pub mod token;
mod trie;

use crate::automaton::{Automaton, Iter};
use crate::router::error::RouterBuilderError;
use crate::router::method::Method;
use crate::router::state::{AutomatonState, Capture};
use crate::router::table::{
    capture_at, compiled, conflicts, conflicts_at, entry_of, entry_tokens, known_depth,
    lemma_compiled_is_valid, segment_tokens, table_match, table_nodes, table_run, table_valid,
    walk_start, Entry, MatchView, RouteView, WalkView, DELIMITER,
};
use crate::router::template::{
    find_duplicate_names, parse_template, segment_views, Segment, SegmentView,
};
use crate::router::token::{request_tokens, InputToken};
use crate::router::trie::{
    content_with_capture, lemma_known_depth, lemma_node_agrees, lemma_represents_edge,
    lemma_represents_empty, lemma_represents_loop, lemma_represents_payload,
    lemma_segment_tokens_push, lemma_table_content_empty, lemma_table_content_entry,
    lemma_table_content_segment, lemma_table_content_wf, paths_with_edge, represents,
    table_content, Content,
};
use vstd::prelude::*;

verus! {

/// A route to register: a method and a path template.
#[derive(Debug)]
pub struct Route {
    method: Method,
    path: String,
}

impl View for Route {
    type V = RouteView;

    closed spec fn view(&self) -> RouteView {
        RouteView { method: self.method, path: self.path@ }
    }
}

impl Route {
    /// A route for `GET` requests.
    pub fn get(path: &str) -> (route: Self)
        ensures
            route@ == (RouteView { method: Method::Get, path: path@ }),
    {
        Self::from(Method::Get, path)
    }

    /// A route for `POST` requests.
    pub fn post(path: &str) -> (route: Self)
        ensures
            route@ == (RouteView { method: Method::Post, path: path@ }),
    {
        Self::from(Method::Post, path)
    }

    /// A route for `PUT` requests.
    pub fn put(path: &str) -> (route: Self)
        ensures
            route@ == (RouteView { method: Method::Put, path: path@ }),
    {
        Self::from(Method::Put, path)
    }

    /// A route for `DELETE` requests.
    pub fn delete(path: &str) -> (route: Self)
        ensures
            route@ == (RouteView { method: Method::Delete, path: path@ }),
    {
        Self::from(Method::Delete, path)
    }

    /// A route for requests of the given method.
    pub fn from(method: Method, path: &str) -> (route: Self)
        ensures
            route@ == (RouteView { method, path: path@ }),
    {
        Self { method, path: path.to_owned() }
    }

    /// The method of the route.
    pub fn method(&self) -> (method: Method)
        ensures
            method == self@.method,
    {
        self.method
    }

    /// The template of the route.
    pub fn path(&self) -> (path: &str)
        ensures
            path@ == self@.path,
    {
        self.path.as_str()
    }
}

/// The registered routes, each with the content of its route.
pub open spec fn route_views<H>(routes: Seq<(Route, H)>) -> Seq<(RouteView, H)> {
    Seq::new(routes.len(), |i: int| (routes[i].0@, routes[i].1))
}

/// A compiled table of routes. It is built once and then only read.
pub struct Router<H> {
    automaton: Automaton<InputToken, Capture, H>,
    table: Ghost<Seq<Entry<H>>>,
    paths: Ghost<Seq<Seq<InputToken>>>,
}

impl<H> View for Router<H> {
    type V = Seq<Entry<H>>;

    /// The routes that the router was compiled from, in the order of their
    /// registration.
    closed spec fn view(&self) -> Seq<Entry<H>> {
        self.table@
    }
}

/// What a request was matched to.
#[derive(Debug)]
pub enum MatchOutcome<'a, H> {
    /// A route matches: its handler, and the parameters that were captured.
    Matched { handler: &'a H, params: AutomatonState },
    /// No route matches. This is an expected outcome, not a fault.
    NotFound,
}

impl<'a, H> View for MatchOutcome<'a, H> {
    type V = MatchView<H>;

    open spec fn view(&self) -> MatchView<H> {
        match self {
            MatchOutcome::Matched { handler, params } => MatchView::Matched {
                handler: **handler,
                params: params@,
            },
            MatchOutcome::NotFound => MatchView::NotFound,
        }
    }
}

impl<H> Router<H> {
    /// The automaton holds the table, and the table is valid.
    pub closed spec fn wf(&self) -> bool {
        &&& self.automaton.wf()
        &&& represents(self.automaton@, self.paths@, table_content(self.table@, Seq::empty()))
        &&& table_valid(self.table@)
        &&& self.automaton@.len() == table_nodes(self.table@)
    }

    /// The table of a router is valid.
    pub proof fn lemma_table_valid(&self)
        requires
            self.wf(),
        ensures
            table_valid(self@),
    {
    }

    /// The number of nodes of the automaton.
    pub fn node_count(&self) -> (n: usize)
        requires
            self.wf(),
        ensures
            n == table_nodes(self@),
    {
        self.automaton.len()
    }

    /// Matches a request: see `match_request`.
    pub fn route(&self, method: &Method, path: &str) -> (outcome: MatchOutcome<'_, H>)
        requires
            self.wf(),
        ensures
            outcome@ == table_match(self@, *method, path@),
            outcome matches MatchOutcome::Matched { params, .. } ==> params.wf(),
    {
        match_request(self, *method, path)
    }
}

/// Once a walk has failed, it has failed, however the tokens go on.
proof fn lemma_run_failure_stays<H>(table: Seq<Entry<H>>, tokens: Seq<InputToken>, n: int)
    requires
        0 <= n <= tokens.len(),
        table_run(table, walk_start(), tokens.take(n)) is None,
    ensures
        table_run(table, walk_start(), tokens) is None,
    decreases tokens.len() - n,
{
    if n < tokens.len() {
        assert(tokens.take(n + 1).drop_last() =~= tokens.take(n));
        lemma_run_failure_stays(table, tokens, n + 1);
    } else {
        assert(tokens.take(n) =~= tokens);
    }
}

/// Matches a request against the router: walks the automaton over the
/// characters of `path` and then over `method`, and gives the handler of the
/// node where the walk ends, with the parameters captured on the way. Where a
/// token leads nowhere, or the walk ends on a node without a handler, the
/// request is not found. Nothing is tried twice: the first failure is final.
pub fn match_request<'a, H>(router: &'a Router<H>, method: Method, path: &str) -> (outcome:
    MatchOutcome<'a, H>)
    requires
        router.wf(),
    ensures
        outcome@ == table_match(router@, method, path@),
        outcome matches MatchOutcome::Matched { params, .. } ==> params.wf(),
{
    let ghost table = router.table@;
    let ghost paths = router.paths@;
    let ghost tokens = request_tokens(method, path@);
    let mut state = AutomatonState::new();
    let mut node = router.automaton.start();
    proof {
        assert(tokens.take(0) =~= Seq::<InputToken>::empty());
        assert(paths[0] =~= walk_start().path);
    }
    for c in it: path.chars()
        invariant
            it.seq() == path@,
            router.wf(),
            table == router.table@,
            paths == router.paths@,
            tokens == request_tokens(method, path@),
            node < router.automaton@.len(),
            state.wf(),
            table_run(table, walk_start(), tokens.take(it.index() as int)) == Some(
                WalkView { path: paths[node as int], params: state@ },
            ),
    {
        let token = InputToken::Char(c);
        let ghost i = it.index() as int;
        proof {
            assert(tokens[i] == token);
            assert(tokens.take(i + 1).drop_last() =~= tokens.take(i));
            lemma_node_agrees(router.automaton@, paths, table, node as int, token);
        }
        match router.automaton.step(node, token, &mut state) {
            Some(next) => {
                node = next;
            },
            None => {
                proof {
                    lemma_run_failure_stays(table, tokens, i + 1);
                }
                return MatchOutcome::NotFound;
            },
        }
    }
    let token = InputToken::Method(method);
    proof {
        assert(tokens.drop_last() =~= tokens.take(path@.len() as int));
        lemma_node_agrees(router.automaton@, paths, table, node as int, token);
    }
    match router.automaton.step(node, token, &mut state) {
        Some(next) => {
            proof {
                lemma_node_agrees(router.automaton@, paths, table, next as int, token);
            }
            match router.automaton.payload(next) {
                Some(handler) => MatchOutcome::Matched { handler, params: state },
                None => MatchOutcome::NotFound,
            }
        },
        None => MatchOutcome::NotFound,
    }
}

/// Adds one route to the automaton: follows the tokens of its segments from
/// the start node, adding the edges that are not there, makes the node before
/// each parameter capture under the parameter's name, and gives the node
/// after the method the handler. A parameter at a node that captures under
/// another name is refused.
fn insert_route<H>(
    automaton: Automaton<InputToken, Capture, H>,
    segments: &Vec<Segment>,
    method: Method,
    handler: H,
    Ghost(paths): Ghost<Seq<Seq<InputToken>>>,
    Ghost(table): Ghost<Seq<Entry<H>>>,
) -> (result: Result<
    (Automaton<InputToken, Capture, H>, Ghost<Seq<Seq<InputToken>>>),
    RouterBuilderError,
>)
    requires
        automaton.wf(),
        represents(automaton@, paths, table_content(table, Seq::empty())),
    ensures
        match result {
            Ok((grown, longer)) => {
                &&& grown.wf()
                &&& grown@.len() == automaton@.len() + segments@.len() + 1 - known_depth(
                    table,
                    segment_tokens(segment_views(segments@)).push(InputToken::Method(method)),
                )
                &&& !conflicts(table, segment_views(segments@))
                &&& represents(
                    grown@,
                    longer@,
                    table_content(
                        table.push(
                            Entry { method, segments: segment_views(segments@), handler },
                        ),
                        Seq::empty(),
                    ),
                )
            },
            Err(e) => e == RouterBuilderError::ConflictingParameter && conflicts(
                table,
                segment_views(segments@),
            ),
        },
{
    let ghost views = segment_views(segments@);
    let ghost route = segment_tokens(views).push(InputToken::Method(method));
    let ghost depth = known_depth(table, route);
    let ghost start_len = automaton@.len();
    let ghost mut paths = paths;
    let mut cursor: Iter<AutomatonState, InputToken, Capture, H> = automaton.iter();
    let mut k: usize = 0;
    proof {
        cursor.lemma_wf();
        assert(views.take(0) =~= Seq::<SegmentView>::empty());
        assert(segment_tokens(Seq::<SegmentView>::empty()) =~= Seq::<InputToken>::empty());
    }
    while k < segments.len()
        invariant
            k <= segments@.len(),
            views == segment_views(segments@),
            cursor.wf(),
            represents(cursor.automaton()@, paths, table_content(table, views.take(k as int))),
            cursor.position() < paths.len(),
            paths[cursor.position() as int] == segment_tokens(views.take(k as int)),
            forall|j: int| 0 <= j < k ==> !conflicts_at(table, views, j),
            route == segment_tokens(views).push(InputToken::Method(method)),
            depth == known_depth(table, route),
            cursor.automaton()@.len() == start_len + (if k <= depth {
                0
            } else {
                k - depth
            }),
        decreases segments@.len() - k,
    {
        let ghost pending = views.take(k as int);
        let ghost at = segment_tokens(pending);
        let ghost node = cursor.position() as int;
        let ghost before = cursor.automaton()@;
        let ghost content = table_content(table, pending);
        proof {
            cursor.lemma_wf();
            lemma_table_content_wf(table, pending);
            lemma_table_content_segment(table, pending, views[k as int]);
            lemma_segment_tokens_push(pending, views[k as int]);
            assert(pending.push(views[k as int]) =~= views.take(k + 1));
            assert(at =~= segment_tokens(views).take(k as int));
            assert(content.capture(at) == capture_at(table, at));
            assert(views[k as int] == segments@[k as int]@);
        }
        let token = match &segments[k] {
            Segment::Literal(c) => InputToken::Char(*c),
            Segment::Parameter(name) => {
                let conflict = match cursor.automaton_ref().transition(cursor.index()) {
                    Some(capture) => capture.name != *name,
                    None => false,
                };
                if conflict {
                    proof {
                        assert(conflicts_at(table, views, k as int));
                    }
                    return Err(RouterBuilderError::ConflictingParameter);
                }
                let capture = Capture { name: name.clone() };
                proof {
                    lemma_represents_loop(before, paths, content, node, capture);
                }
                cursor.set_loop(capture);
                InputToken::Char(DELIMITER)
            },
        };
        let ghost middle = cursor.automaton()@;
        let ghost captured = content_with_capture(content, at, views[k as int]);
        proof {
            cursor.lemma_wf();
            lemma_represents_edge(middle, paths, captured, node, token);
            lemma_known_depth(table, route, k + 1);
            assert(route.take(k + 1) =~= at.push(token));
            assert(!at.push(token).is_prefix_of(at));
        }
        cursor.next_or_create_new_node(token);
        proof {
            paths = paths_with_edge(middle, paths, node, token);
        }
        k = k + 1;
    }
    let ghost pending = views;
    let ghost entry = Entry { method, segments: views, handler };
    let ghost node = cursor.position() as int;
    let ghost before = cursor.automaton()@;
    let ghost content = table_content(table, pending);
    let token = InputToken::Method(method);
    proof {
        cursor.lemma_wf();
        assert(views.take(k as int) =~= views);
        lemma_table_content_wf(table, pending);
        lemma_table_content_entry(table, entry);
        lemma_represents_edge(before, paths, content, node, token);
        lemma_known_depth(table, route, k + 1);
        assert(route.take(k + 1) =~= route);
        assert(!route.is_prefix_of(segment_tokens(views)));
    }
    cursor.next_or_create_new_node(token);
    let ghost middle = cursor.automaton()@;
    let ghost end = cursor.position() as int;
    let ghost known = Content { known: content.known.insert(entry_tokens(entry)), ..content };
    proof {
        paths = paths_with_edge(before, paths, node, token);
        cursor.lemma_wf();
        lemma_represents_payload(middle, paths, known, end, handler);
    }
    cursor.change_node(handler);
    proof {
        cursor.lemma_wf();
    }
    Ok((cursor.into_automaton(), Ghost(paths)))
}

/// Once a route has a fault, the table has it, whatever routes follow.
proof fn lemma_compiled_fault_stays<H>(routes: Seq<(RouteView, H)>, n: int)
    requires
        0 <= n <= routes.len(),
        compiled(routes.take(n)) is Err,
    ensures
        compiled(routes) == compiled(routes.take(n)),
    decreases routes.len() - n,
{
    if n < routes.len() {
        assert(routes.take(n + 1).drop_last() =~= routes.take(n));
        lemma_compiled_fault_stays(routes, n + 1);
    } else {
        assert(routes.take(n) =~= routes);
    }
}

/// Compiles the routes, in the order in which they are given, into a router.
/// The first route with a fault stops the build: a malformed template, a name
/// that a template declares twice, or a parameter at a place where a route
/// before it captures under another name.
pub fn compile<H>(routes: Vec<(Route, H)>) -> (result: Result<Router<H>, RouterBuilderError>)
    ensures
        match result {
            Ok(router) => router.wf() && (compiled(route_views(routes@)) matches Ok(table) && table
                == router@),
            Err(e) => compiled(route_views(routes@)) matches Err(fault) && fault == e,
        },
{
    let ghost all = route_views(routes@);
    let ghost mut table = Seq::<Entry<H>>::empty();
    let ghost mut paths = seq![Seq::<InputToken>::empty()];
    let mut automaton: Automaton<InputToken, Capture, H> = Automaton::new();
    proof {
        lemma_represents_empty(automaton@);
        lemma_table_content_empty::<H>();
        assert(all.take(0) =~= Seq::<(RouteView, H)>::empty());
    }
    for pair in it: routes.into_iter()
        invariant
            it.seq() == routes@,
            all == route_views(routes@),
            automaton.wf(),
            represents(automaton@, paths, table_content(table, Seq::empty())),
            automaton@.len() == table_nodes(table),
            compiled(all.take(it.index() as int)) == Ok::<Seq<Entry<H>>, RouterBuilderError>(
                table,
            ),
    {
        let ghost i = it.index() as int;
        let (route, handler) = pair;
        proof {
            assert(all.take(i + 1).drop_last() =~= all.take(i));
            assert(all.take(i + 1).last() == (route@, handler));
        }
        let segments = match parse_template(route.path.as_str()) {
            Ok(segments) => segments,
            Err(e) => {
                proof {
                    lemma_compiled_fault_stays(all, i + 1);
                }
                return Err(e);
            },
        };
        if find_duplicate_names(&segments) {
            proof {
                lemma_compiled_fault_stays(all, i + 1);
            }
            return Err(RouterBuilderError::DuplicateParameter);
        }
        let inserted = insert_route(
            automaton,
            &segments,
            route.method,
            handler,
            Ghost(paths),
            Ghost(table),
        );
        match inserted {
            Ok((grown, longer)) => {
                automaton = grown;
                proof {
                    assert(table.push(entry_of(route@, handler)).drop_last() =~= table);
                    paths = longer@;
                    table = table.push(entry_of(route@, handler));
                }
            },
            Err(e) => {
                proof {
                    lemma_compiled_fault_stays(all, i + 1);
                }
                return Err(e);
            },
        }
    }
    proof {
        assert(all.take(all.len() as int) =~= all);
        lemma_compiled_is_valid(all);
    }
    Ok(Router { automaton, table: Ghost(table), paths: Ghost(paths) })
}

/// Collects the routes of a router.
pub struct Builder<H> {
    routes: Vec<(Route, H)>,
}

impl<H> View for Builder<H> {
    type V = Seq<(RouteView, H)>;

    /// The routes registered so far, in the order of their registration.
    closed spec fn view(&self) -> Seq<(RouteView, H)> {
        route_views(self.routes@)
    }
}

impl<H> Builder<H> {
    /// A builder without routes.
    pub fn new() -> (builder: Self)
        ensures
            builder@ == Seq::<(RouteView, H)>::empty(),
    {
        let builder = Self { routes: Vec::new() };
        assert(builder@ =~= Seq::<(RouteView, H)>::empty());
        builder
    }

    /// Register a route by its HTTP method and path.
    pub fn register(self, route: Route, handler: H) -> (builder: Self)
        ensures
            builder@ == self@.push((route@, handler)),
    {
        let mut routes = self.routes;
        routes.push((route, handler));
        let builder = Self { routes };
        assert(builder@ =~= self@.push((route@, handler)));
        builder
    }

    /// Compiles the registered routes: see `compile`.
    pub fn build(self) -> (result: Result<Router<H>, RouterBuilderError>)
        ensures
            match result {
                Ok(router) => router.wf() && (compiled(self@) matches Ok(table) && table
                    == router@),
                Err(e) => compiled(self@) matches Err(fault) && fault == e,
            },
    {
        compile(self.routes)
    }
}

/// Compiling is repeatable: two routers compiled from the same routes match
/// every request alike, whatever numbers their nodes have.
pub proof fn lemma_compiled_alike<H>(
    first: Router<H>,
    second: Router<H>,
    routes: Seq<(RouteView, H)>,
    method: Method,
    path: Seq<char>,
)
    requires
        compiled(routes) matches Ok(table) && table == first@,
        compiled(routes) matches Ok(table) && table == second@,
    ensures
        table_match(first@, method, path) == table_match(second@, method, path),
{
}

} // verus!
