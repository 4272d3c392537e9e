//! How the automaton holds a table of routes: as a trie. Every node stands for
//! one sequence of tokens, the edges spell the sequences out, and a node's
//! loop and payload are what the table has at its sequence.

use crate::automaton::{AutomatonView, NodeView};
use crate::router::state::Capture;
use crate::router::table::{
    capture_at, entry_tokens, handler_at, has_path, known_depth, segment_token, segment_tokens,
    segments_capture, Entry,
};
use crate::router::template::SegmentView;
use crate::router::token::InputToken;
use vstd::prelude::*;

verus! {

/// The view of the router's automaton.
pub type RouteGraph<H> = AutomatonView<InputToken, Capture, H>;

/// What a trie holds: the token sequences that it knows, and for some of them
/// the name of a capture or a handler.
pub struct Content<H> {
    pub known: Set<Seq<InputToken>>,
    pub captures: Map<Seq<InputToken>, Seq<char>>,
    pub handlers: Map<Seq<InputToken>, H>,
}

impl<H> Content<H> {
    /// The empty sequence is known, with every known sequence its prefixes
    /// are, and captures and handlers stand at known sequences.
    pub open spec fn wf(self) -> bool {
        &&& self.known.contains(Seq::empty())
        &&& forall|path: Seq<InputToken>, token: InputToken|
            self.known.contains(#[trigger] path.push(token)) ==> self.known.contains(path)
        &&& forall|path: Seq<InputToken>| #[trigger]
            self.captures.contains_key(path) ==> self.known.contains(path)
        &&& forall|path: Seq<InputToken>| #[trigger]
            self.handlers.contains_key(path) ==> self.known.contains(path)
    }

    /// The name of the capture at `path`, if there is one.
    pub open spec fn capture(self, path: Seq<InputToken>) -> Option<Seq<char>> {
        if self.captures.contains_key(path) {
            Some(self.captures[path])
        } else {
            None
        }
    }

    /// The handler at `path`, if there is one.
    pub open spec fn handler(self, path: Seq<InputToken>) -> Option<H> {
        if self.handlers.contains_key(path) {
            Some(self.handlers[path])
        } else {
            None
        }
    }
}

/// The name that a node captures under, if it loops.
pub open spec fn loop_name<H>(node: NodeView<InputToken, Capture, H>) -> Option<Seq<char>> {
    match node.transition {
        Some(capture) => Some(capture.name@),
        None => None,
    }
}

/// The automaton `graph` holds `content`, node `n` standing for the sequence
/// `paths[n]`.
pub open spec fn represents<H>(
    graph: RouteGraph<H>,
    paths: Seq<Seq<InputToken>>,
    content: Content<H>,
) -> bool {
    &&& paths.len() == graph.nodes.len()
    &&& graph.nodes.len() >= 1
    &&& paths[0] == Seq::<InputToken>::empty()
    &&& forall|n: int| 0 <= n < paths.len() ==> content.known.contains(#[trigger] paths[n])
    &&& forall|i: int, j: int|
        0 <= i < paths.len() && 0 <= j < paths.len() && i != j ==> #[trigger] paths[i]
            != #[trigger] paths[j]
    &&& forall|n: int, token: InputToken|
        0 <= n < paths.len() && #[trigger] graph.nodes[n].edges.contains_key(token) ==> {
            &&& graph.nodes[n].edges[token] < paths.len()
            &&& paths[graph.nodes[n].edges[token] as int] == paths[n].push(token)
        }
    &&& forall|n: int, token: InputToken|
        0 <= n < paths.len() && content.known.contains(#[trigger] paths[n].push(token))
            ==> graph.nodes[n].edges.contains_key(token)
    &&& forall|n: int|
        0 <= n < paths.len() ==> loop_name(#[trigger] graph.nodes[n]) == content.capture(paths[n])
    &&& forall|n: int|
        0 <= n < paths.len() ==> (#[trigger] graph.nodes[n]).payload == content.handler(paths[n])
}

/// The empty automaton holds the content in which only the empty sequence is
/// known.
pub proof fn lemma_represents_empty<H>(graph: RouteGraph<H>)
    requires
        graph.nodes == seq![NodeView::<InputToken, Capture, H>::empty()],
    ensures
        represents(
            graph,
            seq![Seq::<InputToken>::empty()],
            Content {
                known: set![Seq::<InputToken>::empty()],
                captures: Map::empty(),
                handlers: Map::empty(),
            },
        ),
{
    let paths = seq![Seq::<InputToken>::empty()];
    assert forall|n: int, token: InputToken| 0 <= n < paths.len() implies #[trigger] paths[n].push(
        token,
    ) != Seq::<InputToken>::empty() by {
        assert(paths[n].push(token).len() == 1);
    }
}

/// Setting a node's loop is giving its sequence a capture.
pub proof fn lemma_represents_loop<H>(
    graph: RouteGraph<H>,
    paths: Seq<Seq<InputToken>>,
    content: Content<H>,
    node: int,
    capture: Capture,
)
    requires
        represents(graph, paths, content),
        content.wf(),
        0 <= node < paths.len(),
    ensures
        represents(
            graph.with_loop(node, capture),
            paths,
            Content { captures: content.captures.insert(paths[node], capture.name@), ..content },
        ),
        (Content { captures: content.captures.insert(paths[node], capture.name@), ..content }).wf(),
{
    let after = graph.with_loop(node, capture);
    let grown = Content {
        captures: content.captures.insert(paths[node], capture.name@),
        ..content
    };
    assert forall|n: int| 0 <= n < paths.len() implies loop_name(#[trigger] after.nodes[n])
        == grown.capture(paths[n]) by {
        if n != node {
            assert(after.nodes[n] == graph.nodes[n]);
            assert(paths[n] != paths[node]);
        }
    }
    assert forall|n: int| 0 <= n < paths.len() implies (#[trigger] after.nodes[n]).payload
        == grown.handler(paths[n]) by {
        assert(after.nodes[n].payload == graph.nodes[n].payload);
    }
    assert forall|n: int, token: InputToken|
        0 <= n < paths.len() && #[trigger] after.nodes[n].edges.contains_key(token) implies {
        &&& after.nodes[n].edges[token] < paths.len()
        &&& paths[after.nodes[n].edges[token] as int] == paths[n].push(token)
    } by {
        assert(after.nodes[n].edges == graph.nodes[n].edges);
        assert(graph.nodes[n].edges.contains_key(token));
    }
    assert forall|n: int, token: InputToken|
        0 <= n < paths.len() && grown.known.contains(
            #[trigger] paths[n].push(token),
        ) implies after.nodes[n].edges.contains_key(token) by {
        assert(after.nodes[n].edges == graph.nodes[n].edges);
    }
}

/// Setting a node's payload is giving its sequence a handler.
pub proof fn lemma_represents_payload<H>(
    graph: RouteGraph<H>,
    paths: Seq<Seq<InputToken>>,
    content: Content<H>,
    node: int,
    handler: H,
)
    requires
        represents(graph, paths, content),
        content.wf(),
        0 <= node < paths.len(),
    ensures
        represents(
            graph.with_payload(node, handler),
            paths,
            Content { handlers: content.handlers.insert(paths[node], handler), ..content },
        ),
        (Content { handlers: content.handlers.insert(paths[node], handler), ..content }).wf(),
{
    let after = graph.with_payload(node, handler);
    let grown = Content { handlers: content.handlers.insert(paths[node], handler), ..content };
    assert forall|n: int| 0 <= n < paths.len() implies loop_name(#[trigger] after.nodes[n])
        == grown.capture(paths[n]) by {
        assert(after.nodes[n].transition == graph.nodes[n].transition);
        assert(loop_name(graph.nodes[n]) == content.capture(paths[n]));
    }
    assert forall|n: int| 0 <= n < paths.len() implies (#[trigger] after.nodes[n]).payload
        == grown.handler(paths[n]) by {
        if n != node {
            assert(after.nodes[n] == graph.nodes[n]);
            assert(paths[n] != paths[node]);
        }
    }
    assert forall|n: int, token: InputToken|
        0 <= n < paths.len() && #[trigger] after.nodes[n].edges.contains_key(token) implies {
        &&& after.nodes[n].edges[token] < paths.len()
        &&& paths[after.nodes[n].edges[token] as int] == paths[n].push(token)
    } by {
        assert(after.nodes[n].edges == graph.nodes[n].edges);
        assert(graph.nodes[n].edges.contains_key(token));
    }
    assert forall|n: int, token: InputToken|
        0 <= n < paths.len() && grown.known.contains(
            #[trigger] paths[n].push(token),
        ) implies after.nodes[n].edges.contains_key(token) by {
        assert(after.nodes[n].edges == graph.nodes[n].edges);
    }
}

/// The sequences that the nodes stand for after an edge for `token` was asked
/// of `node`: one more, for the new node, where the edge was not there.
pub open spec fn paths_with_edge<H>(
    graph: RouteGraph<H>,
    paths: Seq<Seq<InputToken>>,
    node: int,
    token: InputToken,
) -> Seq<Seq<InputToken>> {
    if graph.has_edge(node, token) {
        paths
    } else {
        paths.push(paths[node].push(token))
    }
}

/// A sequence that ends in a token is the sequence before it and the token.
pub proof fn lemma_push_injective(
    a: Seq<InputToken>,
    x: InputToken,
    b: Seq<InputToken>,
    y: InputToken,
)
    requires
        a.push(x) == b.push(y),
    ensures
        a == b,
        x == y,
{
    assert(a.push(x).drop_last() =~= a);
    assert(b.push(y).drop_last() =~= b);
    assert(a.push(x).last() == x);
    assert(b.push(y).last() == y);
}

/// Following or adding an edge is getting to know the node's sequence with the
/// token behind it.
pub proof fn lemma_represents_edge<H>(
    graph: RouteGraph<H>,
    paths: Seq<Seq<InputToken>>,
    content: Content<H>,
    node: int,
    token: InputToken,
)
    requires
        represents(graph, paths, content),
        content.wf(),
        0 <= node < paths.len(),
    ensures
        represents(
            graph.with_edge(node, token),
            paths_with_edge(graph, paths, node, token),
            Content { known: content.known.insert(paths[node].push(token)), ..content },
        ),
        (Content { known: content.known.insert(paths[node].push(token)), ..content }).wf(),
        graph.with_edge(node, token).has_edge(node, token),
        graph.with_edge(node, token).target(node, token) < graph.with_edge(node, token).len(),
        paths_with_edge(graph, paths, node, token)[graph.with_edge(node, token).target(
            node,
            token,
        ) as int] == paths[node].push(token),
        graph.has_edge(node, token) <==> content.known.contains(paths[node].push(token)),
{
    let label = paths[node].push(token);
    let after = graph.with_edge(node, token);
    let longer = paths_with_edge(graph, paths, node, token);
    let grown = Content { known: content.known.insert(label), ..content };
    assert(grown.wf()) by {
        assert forall|path: Seq<InputToken>, other: InputToken|
            grown.known.contains(#[trigger] path.push(other)) implies grown.known.contains(
            path,
        ) by {
            if path.push(other) == label {
                lemma_push_injective(path, other, paths[node], token);
            }
        }
    }
    if graph.has_edge(node, token) {
        assert(graph.nodes[node].edges.contains_key(token));
        assert(content.known.contains(label));
        assert(grown.known =~= content.known);
    } else {
        let fresh = paths.len() as int;
        assert(!content.known.contains(label));
        assert(after.nodes[fresh] == NodeView::<InputToken, Capture, H>::empty());
        assert(after.nodes[node].edges == graph.nodes[node].edges.insert(token, fresh as nat));
        assert forall|n: int| 0 <= n < longer.len() implies grown.known.contains(
            #[trigger] longer[n],
        ) by {
            if n < fresh {
                assert(longer[n] == paths[n]);
            }
        }
        assert forall|i: int, j: int|
            0 <= i < longer.len() && 0 <= j < longer.len() && i != j implies #[trigger] longer[i]
            != #[trigger] longer[j] by {
            if i < fresh {
                assert(content.known.contains(paths[i]));
            }
            if j < fresh {
                assert(content.known.contains(paths[j]));
            }
        }
        assert forall|n: int, other: InputToken|
            0 <= n < longer.len() && #[trigger] after.nodes[n].edges.contains_key(other) implies {
            &&& after.nodes[n].edges[other] < longer.len()
            &&& longer[after.nodes[n].edges[other] as int] == longer[n].push(other)
        } by {
            if n == node {
                if other != token {
                    assert(graph.nodes[n].edges.contains_key(other));
                }
            } else if n < fresh {
                assert(after.nodes[n] == graph.nodes[n]);
                assert(graph.nodes[n].edges.contains_key(other));
            }
        }
        assert forall|n: int, other: InputToken|
            0 <= n < longer.len() && grown.known.contains(
                #[trigger] longer[n].push(other),
            ) implies after.nodes[n].edges.contains_key(other) by {
            if n == fresh {
                if longer[n].push(other) == label {
                    assert(longer[n].push(other).len() == label.len() + 1);
                } else {
                    assert(content.known.contains(label.push(other)));
                }
            } else if longer[n].push(other) == label {
                lemma_push_injective(paths[n], other, paths[node], token);
            } else {
                assert(content.known.contains(paths[n].push(other)));
                if n != node {
                    assert(after.nodes[n] == graph.nodes[n]);
                }
            }
        }
        assert forall|n: int| 0 <= n < longer.len() implies loop_name(#[trigger] after.nodes[n])
            == grown.capture(longer[n]) by {
            if n < fresh {
                assert(after.nodes[n].transition == graph.nodes[n].transition);
                assert(loop_name(graph.nodes[n]) == content.capture(paths[n]));
            }
        }
        assert forall|n: int| 0 <= n < longer.len() implies (#[trigger] after.nodes[n]).payload
            == grown.handler(longer[n]) by {
            if n < fresh {
                assert(after.nodes[n].payload == graph.nodes[n].payload);
                assert(graph.nodes[n].payload == content.handler(paths[n]));
            }
        }
    }
}


/// The tokens of segments with one more segment.
pub proof fn lemma_segment_tokens_push(segments: Seq<SegmentView>, segment: SegmentView)
    ensures
        segment_tokens(segments.push(segment)) == segment_tokens(segments).push(
            segment_token(segment),
        ),
{
    assert(segment_tokens(segments.push(segment)) =~= segment_tokens(segments).push(
        segment_token(segment),
    ));
}

/// The prefixes of a sequence with one more token are those of the sequence,
/// and the longer sequence itself.
pub proof fn lemma_prefix_of_push(path: Seq<InputToken>, whole: Seq<InputToken>, token: InputToken)
    ensures
        path.is_prefix_of(whole.push(token)) <==> path.is_prefix_of(whole) || path == whole.push(
            token,
        ),
{
    let longer = whole.push(token);
    if path.is_prefix_of(longer) {
        if path.len() <= whole.len() {
            assert(path =~= whole.subrange(0, path.len() as int));
        } else {
            assert(longer.subrange(0, path.len() as int) =~= longer);
        }
    }
    if path.is_prefix_of(whole) {
        assert(path =~= longer.subrange(0, path.len() as int));
    }
    if path == longer {
        assert(longer.subrange(0, path.len() as int) =~= longer);
    }
}

/// A prefix of a prefix is a prefix.
pub proof fn lemma_prefix_shorter(path: Seq<InputToken>, token: InputToken, whole: Seq<InputToken>)
    requires
        path.push(token).is_prefix_of(whole),
    ensures
        path.is_prefix_of(whole),
{
    assert(path =~= whole.subrange(0, path.len() as int)) by {
        assert(path.push(token) =~= whole.subrange(0, path.len() as int + 1));
        assert forall|i: int| 0 <= i < path.len() implies path[i] == whole[i] by {
            assert(path.push(token)[i] == whole.subrange(0, path.len() as int + 1)[i]);
        }
    }
}

/// With a sequence that a table has, it has the sequence's prefixes.
pub proof fn lemma_has_path_shorter<H>(
    table: Seq<Entry<H>>,
    path: Seq<InputToken>,
    token: InputToken,
)
    requires
        has_path(table, path.push(token)),
    ensures
        has_path(table, path),
    decreases table.len(),
{
    if path.push(token).is_prefix_of(entry_tokens(table.last())) {
        lemma_prefix_shorter(path, token, entry_tokens(table.last()));
    } else {
        lemma_has_path_shorter(table.drop_last(), path, token);
    }
}

/// Where segments capture, their tokens go on with the delimiter.
pub proof fn lemma_segments_capture_known(segments: Seq<SegmentView>, at: Seq<InputToken>)
    requires
        segments_capture(segments, at) is Some,
    ensures
        at.is_prefix_of(segment_tokens(segments)),
        at.len() < segments.len(),
{
    let tokens = segment_tokens(segments);
    assert(tokens.take(at.len() as int) =~= tokens.subrange(0, at.len() as int));
}

/// Where a table captures, it has the place.
pub proof fn lemma_capture_at_known<H>(table: Seq<Entry<H>>, at: Seq<InputToken>)
    requires
        capture_at(table, at) is Some,
    ensures
        has_path(table, at),
    decreases table.len(),
{
    if segments_capture(table.last().segments, at) is Some {
        lemma_segments_capture_known(table.last().segments, at);
        lemma_prefix_of_push(
            at,
            segment_tokens(table.last().segments),
            InputToken::Method(table.last().method),
        );
    } else {
        lemma_capture_at_known(table.drop_last(), at);
    }
}

/// Where a table has a handler, it has the sequence.
pub proof fn lemma_handler_at_known<H>(table: Seq<Entry<H>>, path: Seq<InputToken>)
    requires
        handler_at(table, path) is Some,
    ensures
        has_path(table, path),
    decreases table.len(),
{
    if entry_tokens(table.last()) == path {
        assert(path.subrange(0, path.len() as int) =~= path);
    } else {
        lemma_handler_at_known(table.drop_last(), path);
    }
}

/// The name under which is captured at `at` while the segments `pending` of a
/// further route are in the automaton: the name that they capture under, else
/// the table's.
pub open spec fn capture_with<H>(
    table: Seq<Entry<H>>,
    pending: Seq<SegmentView>,
    at: Seq<InputToken>,
) -> Option<Seq<char>> {
    match segments_capture(pending, at) {
        Some(name) => Some(name),
        None => capture_at(table, at),
    }
}

/// What the automaton holds when it has the routes of `table` and the
/// segments `pending` of a further route.
pub open spec fn table_content<H>(table: Seq<Entry<H>>, pending: Seq<SegmentView>) -> Content<H> {
    Content {
        known: Set::new(
            |path: Seq<InputToken>|
                path.len() == 0 || has_path(table, path) || path.is_prefix_of(
                    segment_tokens(pending),
                ),
        ),
        captures: Map::new(
            |at: Seq<InputToken>| capture_with(table, pending, at) is Some,
            |at: Seq<InputToken>| capture_with(table, pending, at).unwrap(),
        ),
        handlers: Map::new(
            |path: Seq<InputToken>| handler_at(table, path) is Some,
            |path: Seq<InputToken>| handler_at(table, path).unwrap(),
        ),
    }
}

/// The content of a table is well formed.
pub proof fn lemma_table_content_wf<H>(table: Seq<Entry<H>>, pending: Seq<SegmentView>)
    ensures
        table_content(table, pending).wf(),
{
    let content = table_content(table, pending);
    assert forall|path: Seq<InputToken>, token: InputToken|
        content.known.contains(#[trigger] path.push(token)) implies content.known.contains(
        path,
    ) by {
        if has_path(table, path.push(token)) {
            lemma_has_path_shorter(table, path, token);
        } else {
            lemma_prefix_shorter(path, token, segment_tokens(pending));
        }
    }
    assert forall|path: Seq<InputToken>| #[trigger]
        content.captures.contains_key(path) implies content.known.contains(path) by {
        if segments_capture(pending, path) is Some {
            lemma_segments_capture_known(pending, path);
        } else {
            lemma_capture_at_known(table, path);
        }
    }
    assert forall|path: Seq<InputToken>| #[trigger]
        content.handlers.contains_key(path) implies content.known.contains(path) by {
        lemma_handler_at_known(table, path);
    }
}

/// The content of no routes at all.
pub proof fn lemma_table_content_empty<H>()
    ensures
        table_content(Seq::<Entry<H>>::empty(), Seq::empty()) == (Content::<H> {
            known: set![Seq::<InputToken>::empty()],
            captures: Map::empty(),
            handlers: Map::empty(),
        }),
{
    let content = table_content(Seq::<Entry<H>>::empty(), Seq::empty());
    assert forall|path: Seq<InputToken>| content.known.contains(path) <==> path == Seq::<
        InputToken,
    >::empty() by {
        if path.len() == 0 {
            assert(path =~= Seq::<InputToken>::empty());
        }
    }
    assert(content.known =~= set![Seq::<InputToken>::empty()]);
    assert(content.captures =~= Map::empty());
    assert(content.handlers =~= Map::empty());
}

/// What one more pending segment adds to the content: the longer sequence,
/// and, for a parameter, its capture at the place before.
pub proof fn lemma_table_content_segment<H>(
    table: Seq<Entry<H>>,
    pending: Seq<SegmentView>,
    segment: SegmentView,
)
    ensures
        table_content(table, pending.push(segment)) == ({
            let content = table_content(table, pending);
            let at = segment_tokens(pending);
            Content {
                known: content.known.insert(at.push(segment_token(segment))),
                captures: match segment {
                    SegmentView::Parameter(name) => content.captures.insert(at, name),
                    SegmentView::Literal(_) => content.captures,
                },
                handlers: content.handlers,
            }
        }),
{
    let content = table_content(table, pending);
    let longer = pending.push(segment);
    let after = table_content(table, longer);
    let at = segment_tokens(pending);
    let label = at.push(segment_token(segment));
    lemma_segment_tokens_push(pending, segment);
    assert forall|path: Seq<InputToken>| after.known.contains(path) <==> content.known.insert(
        label,
    ).contains(path) by {
        lemma_prefix_of_push(path, at, segment_token(segment));
    }
    assert(after.known =~= content.known.insert(label));
    let captures = match segment {
        SegmentView::Parameter(name) => content.captures.insert(at, name),
        SegmentView::Literal(_) => content.captures,
    };
    assert forall|path: Seq<InputToken>| capture_with(table, longer, path) == (if path == at
        && segment is Parameter {
        Some(segment->Parameter_0)
    } else {
        capture_with(table, pending, path)
    }) by {
        let k = path.len() as int;
        if k < pending.len() {
            assert(segment_tokens(longer).take(k) =~= at.take(k));
        } else if k == pending.len() {
            assert(segment_tokens(longer).take(k) =~= at);
        }
    }
    assert(after.captures =~= captures);
    assert(after.handlers =~= content.handlers);
}

/// What the end of a route adds to the content: the route's tokens, with its
/// handler. The route is then one of the table.
pub proof fn lemma_table_content_entry<H>(table: Seq<Entry<H>>, entry: Entry<H>)
    ensures
        table_content(table.push(entry), Seq::empty()) == ({
            let content = table_content(table, entry.segments);
            Content {
                known: content.known.insert(entry_tokens(entry)),
                captures: content.captures,
                handlers: content.handlers.insert(entry_tokens(entry), entry.handler),
            }
        }),
{
    let content = table_content(table, entry.segments);
    let after = table_content(table.push(entry), Seq::empty());
    let tokens = entry_tokens(entry);
    assert(table.push(entry).drop_last() =~= table);
    assert forall|path: Seq<InputToken>| after.known.contains(path) <==> content.known.insert(
        tokens,
    ).contains(path) by {
        lemma_prefix_of_push(
            path,
            segment_tokens(entry.segments),
            InputToken::Method(entry.method),
        );
        if path.is_prefix_of(segment_tokens(Seq::<SegmentView>::empty())) {
            assert(path.len() == 0);
        }
    }
    assert(after.known =~= content.known.insert(tokens));
    assert forall|path: Seq<InputToken>| capture_with(table.push(entry), Seq::empty(), path)
        == capture_with(table, entry.segments, path) by {
    }
    assert(after.captures =~= content.captures);
    assert(after.handlers =~= content.handlers.insert(tokens, entry.handler));
}


/// What a node of the automaton that holds a table has: its edges, its loop
/// and its payload are what the table has at the node's sequence.
pub proof fn lemma_node_agrees<H>(
    graph: RouteGraph<H>,
    paths: Seq<Seq<InputToken>>,
    table: Seq<Entry<H>>,
    node: int,
    token: InputToken,
)
    requires
        represents(graph, paths, table_content(table, Seq::empty())),
        0 <= node < paths.len(),
    ensures
        graph.has_edge(node, token) <==> has_path(table, paths[node].push(token)),
        graph.has_edge(node, token) ==> {
            &&& graph.target(node, token) < paths.len()
            &&& paths[graph.target(node, token) as int] == paths[node].push(token)
        },
        loop_name(graph.nodes[node]) == capture_at(table, paths[node]),
        graph.nodes[node].payload == handler_at(table, paths[node]),
{
    let content = table_content(table, Seq::empty());
    let longer = paths[node].push(token);
    if graph.nodes[node].edges.contains_key(token) {
        let target = graph.nodes[node].edges[token] as int;
        assert(content.known.contains(paths[target]));
        assert(longer.len() > 0);
        if longer.is_prefix_of(segment_tokens(Seq::<SegmentView>::empty())) {
            assert(longer.len() == 0);
        }
    }
    if has_path(table, longer) {
        assert(content.known.contains(longer));
    }
    assert(loop_name(graph.nodes[node]) == content.capture(paths[node]));
    assert(graph.nodes[node].payload == content.handler(paths[node]));
}

/// The content with the capture that a segment brings, if it brings one.
pub open spec fn content_with_capture<H>(
    content: Content<H>,
    at: Seq<InputToken>,
    segment: SegmentView,
) -> Content<H> {
    match segment {
        SegmentView::Parameter(name) => Content {
            captures: content.captures.insert(at, name),
            ..content
        },
        SegmentView::Literal(_) => content,
    }
}


/// With a sequence, a table has every start of it.
pub proof fn lemma_has_path_take<H>(table: Seq<Entry<H>>, path: Seq<InputToken>, j: int)
    requires
        has_path(table, path),
        0 <= j <= path.len(),
    ensures
        has_path(table, path.take(j)),
    decreases path.len() - j,
{
    if j < path.len() {
        lemma_has_path_take(table, path, j + 1);
        assert(path.take(j + 1) =~= path.take(j).push(path[j]));
        lemma_has_path_shorter(table, path.take(j), path[j]);
    } else {
        assert(path.take(j) =~= path);
    }
}

/// The table has exactly the starts of `tokens` that are no longer than the
/// known depth.
pub proof fn lemma_known_depth<H>(table: Seq<Entry<H>>, tokens: Seq<InputToken>, j: int)
    requires
        1 <= j <= tokens.len(),
    ensures
        has_path(table, tokens.take(j)) <==> j <= known_depth(table, tokens),
        known_depth(table, tokens) <= tokens.len(),
    decreases tokens.len(),
{
    if has_path(table, tokens) {
        lemma_has_path_take(table, tokens, j);
    } else if j == tokens.len() {
        assert(tokens.take(j) =~= tokens);
        if tokens.len() > 1 {
            lemma_known_depth(table, tokens.drop_last(), 1);
        }
    } else {
        assert(tokens.drop_last().take(j) =~= tokens.take(j));
        lemma_known_depth(table, tokens.drop_last(), j);
    }
}

} // verus!
