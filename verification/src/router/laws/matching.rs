//! A route matches the requests made for it.

use crate::router::laws::facts::{
    lemma_capture_of_entry, lemma_char_tokens_concat, lemma_has_path_of_entry, lemma_run_concat,
    lemma_run_one, lemma_valid_entry,
};
use crate::router::method::Method;
use crate::router::table::{
    capture_at, entry_tokens, handler_at, has_path, segment_token, segment_tokens, table_match,
    table_run, table_step, table_valid, walk_start, DELIMITER, Entry, MatchView, WalkView,
};
use crate::router::template::{has_duplicate_names, SegmentView};
use crate::router::token::{char_token, char_tokens, request_tokens, InputToken};
use vstd::prelude::*;

verus! {

/// The text that fills a route's segments: a literal is its character, a
/// parameter is its value and then the delimiter that ends it.
pub open spec fn filled(segments: Seq<SegmentView>, values: Map<Seq<char>, Seq<char>>) -> Seq<char>
    decreases segments.len(),
{
    if segments.len() == 0 {
        Seq::empty()
    } else {
        filled(segments.drop_last(), values) + match segments.last() {
            SegmentView::Literal(c) => seq![c],
            SegmentView::Parameter(name) => values[name].push(DELIMITER),
        }
    }
}

/// Whether a parameter of the segments has the name.
pub open spec fn declares(segments: Seq<SegmentView>, name: Seq<char>) -> bool {
    exists|k: int|
        0 <= k < segments.len() && #[trigger] segments[k] == SegmentView::Parameter(name)
}

/// Whether `path` satisfies the segments with the values: there is a value
/// for each parameter and for nothing else, no value holds the delimiter, and
/// the path is the text that fills the segments with the values.
pub open spec fn satisfies(
    segments: Seq<SegmentView>,
    values: Map<Seq<char>, Seq<char>>,
    path: Seq<char>,
) -> bool {
    &&& forall|name: Seq<char>| values.contains_key(name) <==> declares(segments, name)
    &&& forall|name: Seq<char>|
        values.contains_key(name) ==> !(#[trigger] values[name]).contains(DELIMITER)
    &&& path == filled(segments, values)
}

/// The parameters that a walk captures where the values fill the segments:
/// each value under the name of its parameter. A value without a character is
/// never captured, so its name is missing.
pub open spec fn captured(segments: Seq<SegmentView>, values: Map<Seq<char>, Seq<char>>) -> Map<
    Seq<char>,
    Seq<char>,
> {
    Map::new(
        |name: Seq<char>| declares(segments, name) && values[name].len() > 0,
        |name: Seq<char>| values[name],
    )
}

/// Where every parameter has a value with a character, and nothing else has a
/// value, the walk captures exactly the values.
pub proof fn lemma_captured_all(segments: Seq<SegmentView>, values: Map<Seq<char>, Seq<char>>)
    requires
        forall|name: Seq<char>| values.contains_key(name) <==> declares(segments, name),
        forall|name: Seq<char>| values.contains_key(name) ==> (#[trigger] values[name]).len() > 0,
    ensures
        captured(segments, values) == values,
{
    assert(captured(segments, values) =~= values);
}

/// Whether the walk stays on the way of route `i` while it captures the
/// values: at the place of each parameter, no route of the table goes on with
/// a character of the parameter's value.
pub open spec fn stays_on_route<H>(
    table: Seq<Entry<H>>,
    i: int,
    values: Map<Seq<char>, Seq<char>>,
) -> bool {
    forall|k: int, j: int|
        0 <= k < table[i].segments.len() && (#[trigger] table[i].segments[k]) is Parameter && 0 <= j
            < values[table[i].segments[k]->Parameter_0].len() ==> !has_path(
            table,
            segment_tokens(table[i].segments).take(k).push(
                char_token(#[trigger] values[table[i].segments[k]->Parameter_0][j]),
            ),
        )
}

/// A route matches the requests made for it. In a valid table, take a route
/// and a value for each of its parameters. The path that fills the route's
/// template with the values, each value ended by the delimiter, requested with
/// the route's method, is matched to the route's handler, and the parameters
/// are the values under their names.
///
/// This holds where the walk stays on the route's own way, and where the
/// route's tokens lead to its own handler: no route registered later has the
/// same tokens with another handler.
pub proof fn lemma_route_matches<H>(
    table: Seq<Entry<H>>,
    i: int,
    values: Map<Seq<char>, Seq<char>>,
)
    requires
        table_valid(table),
        0 <= i < table.len(),
        stays_on_route(table, i, values),
        handler_at(table, entry_tokens(table[i])) == Some(table[i].handler),
    ensures
        table_match(table, table[i].method, filled(table[i].segments, values)) == (
        MatchView::Matched {
            handler: table[i].handler,
            params: captured(table[i].segments, values),
        }),
{
    let entry = table[i];
    let segments = entry.segments;
    let path = filled(segments, values);
    lemma_route_walk(table, i, values, segments.len() as int);
    assert(segments.take(segments.len() as int) =~= segments);
    assert(segment_tokens(segments).take(segments.len() as int) =~= segment_tokens(segments));
    let walk = WalkView { path: segment_tokens(segments), params: captured(segments, values) };
    let tokens = request_tokens(entry.method, path);
    assert(tokens.drop_last() =~= char_tokens(path));
    assert(tokens.last() == InputToken::Method(entry.method));
    assert(entry_tokens(entry).is_prefix_of(entry_tokens(entry))) by {
        assert(entry_tokens(entry).subrange(0, entry_tokens(entry).len() as int) =~= entry_tokens(
            entry,
        ));
    }
    lemma_has_path_of_entry(table, i, entry_tokens(entry));
    assert(table_step(table, walk, InputToken::Method(entry.method)) == Some(
        WalkView { path: entry_tokens(entry), params: walk.params },
    ));
}

/// The walk captures a value: at a place where the table captures under
/// `name`, a text of which the table follows no character is captured whole.
proof fn lemma_run_captures<H>(
    table: Seq<Entry<H>>,
    at: Seq<InputToken>,
    params: Map<Seq<char>, Seq<char>>,
    name: Seq<char>,
    value: Seq<char>,
)
    requires
        capture_at(table, at) == Some(name),
        !params.contains_key(name),
        forall|j: int|
            0 <= j < value.len() ==> !has_path(table, at.push(char_token(#[trigger] value[j]))),
    ensures
        table_run(table, WalkView { path: at, params }, char_tokens(value)) == Some(
            WalkView {
                path: at,
                params: if value.len() == 0 {
                    params
                } else {
                    params.insert(name, value)
                },
            },
        ),
    decreases value.len(),
{
    let tokens = char_tokens(value);
    if value.len() > 0 {
        let front = value.drop_last();
        lemma_run_captures(table, at, params, name, front);
        assert(tokens.drop_last() =~= char_tokens(front));
        assert(tokens.last() == char_token(value[value.len() - 1]));
        let before = if front.len() == 0 {
            params
        } else {
            params.insert(name, front)
        };
        assert(front.push(value.last()) =~= value);
        if front.len() == 0 {
            assert(Seq::<char>::empty().push(value.last()) =~= value);
        } else {
            assert(before.insert(name, front.push(value.last())) =~= params.insert(name, value));
        }
    }
}

/// What one more segment adds to the names that the segments declare.
pub proof fn lemma_declares_push(segments: Seq<SegmentView>, k: int, name: Seq<char>)
    requires
        0 <= k < segments.len(),
    ensures
        declares(segments.take(k + 1), name) <==> declares(segments.take(k), name) || segments[k]
            == SegmentView::Parameter(name),
{
    let shorter = segments.take(k);
    let longer = segments.take(k + 1);
    if declares(longer, name) {
        let j = choose|j: int|
            0 <= j < longer.len() && #[trigger] longer[j] == SegmentView::Parameter(name);
        if j < k {
            assert(shorter[j] == longer[j]);
        }
    }
    if declares(shorter, name) {
        let j = choose|j: int|
            0 <= j < shorter.len() && #[trigger] shorter[j] == SegmentView::Parameter(name);
        assert(longer[j] == shorter[j]);
    }
    if segments[k] == SegmentView::Parameter(name) {
        assert(longer[k] == SegmentView::Parameter(name));
    }
}

/// Segments without a name twice declare the name of a parameter nowhere
/// before the parameter.
pub proof fn lemma_declared_once(segments: Seq<SegmentView>, k: int)
    requires
        !has_duplicate_names(segments),
        0 <= k < segments.len(),
        segments[k] is Parameter,
    ensures
        !declares(segments.take(k), segments[k]->Parameter_0),
{
    let shorter = segments.take(k);
    let name = segments[k]->Parameter_0;
    if declares(shorter, name) {
        let j = choose|j: int|
            0 <= j < shorter.len() && #[trigger] shorter[j] == SegmentView::Parameter(name);
        assert(segments[j] is Parameter);
        assert(segments[k] is Parameter);
    }
}

/// The walk over the text that fills the first `k` segments of a route ends
/// after the route's first `k` tokens, with the values of the parameters among
/// these segments.
proof fn lemma_route_walk<H>(
    table: Seq<Entry<H>>,
    i: int,
    values: Map<Seq<char>, Seq<char>>,
    k: int,
)
    requires
        table_valid(table),
        0 <= i < table.len(),
        0 <= k <= table[i].segments.len(),
        stays_on_route(table, i, values),
    ensures
        table_run(
            table,
            walk_start(),
            char_tokens(filled(table[i].segments.take(k), values)),
        ) == Some(
            WalkView {
                path: segment_tokens(table[i].segments).take(k),
                params: captured(table[i].segments.take(k), values),
            },
        ),
    decreases k,
{
    let segments = table[i].segments;
    let tokens = segment_tokens(segments);
    if k == 0 {
        assert(segments.take(0) =~= Seq::<SegmentView>::empty());
        assert(filled(segments.take(0), values) =~= Seq::<char>::empty());
        assert(char_tokens(Seq::<char>::empty()) =~= Seq::<InputToken>::empty());
        assert(tokens.take(0) =~= Seq::<InputToken>::empty());
        assert(captured(segments.take(0), values) =~= Map::<Seq<char>, Seq<char>>::empty());
    } else {
        lemma_route_walk(table, i, values, k - 1);
        let shorter = segments.take(k - 1);
        let longer = segments.take(k);
        assert(longer.drop_last() =~= shorter);
        assert(longer.last() == segments[k - 1]);
        let at = tokens.take(k - 1);
        let before = WalkView { path: at, params: captured(shorter, values) };
        let delimiter = char_token(DELIMITER);
        assert(tokens.take(k) =~= at.push(segment_token(segments[k - 1])));
        assert(tokens.take(k).is_prefix_of(entry_tokens(table[i]))) by {
            assert(tokens.take(k) =~= entry_tokens(table[i]).subrange(0, k));
        }
        lemma_has_path_of_entry(table, i, tokens.take(k));
        assert forall|name: Seq<char>|
            declares(longer, name) <==> declares(shorter, name) || segments[k - 1]
                == SegmentView::Parameter(name) by {
            lemma_declares_push(segments, k - 1, name);
        }
        match segments[k - 1] {
            SegmentView::Literal(c) => {
                let piece = seq![c];
                lemma_char_tokens_concat(filled(shorter, values), piece);
                lemma_run_concat(
                    table,
                    walk_start(),
                    char_tokens(filled(shorter, values)),
                    char_tokens(piece),
                );
                assert(char_tokens(piece) =~= seq![char_token(c)]);
                lemma_run_one(table, before, char_token(c));
                assert(captured(longer, values) =~= captured(shorter, values));
            },
            SegmentView::Parameter(name) => {
                let value = values[name];
                let piece = value.push(DELIMITER);
                assert(segments[k - 1] is Parameter);
                lemma_capture_of_entry(table, i, k - 1);
                lemma_valid_entry(table, i);
                lemma_declared_once(segments, k - 1);
                lemma_run_captures(table, at, before.params, name, value);
                let middle = WalkView {
                    path: at,
                    params: if value.len() == 0 {
                        before.params
                    } else {
                        before.params.insert(name, value)
                    },
                };
                lemma_char_tokens_concat(filled(shorter, values), piece);
                assert(piece =~= value + seq![DELIMITER]);
                lemma_char_tokens_concat(value, seq![DELIMITER]);
                assert(char_tokens(seq![DELIMITER]) =~= seq![delimiter]);
                lemma_run_concat(
                    table,
                    walk_start(),
                    char_tokens(filled(shorter, values)),
                    char_tokens(piece),
                );
                lemma_run_concat(table, before, char_tokens(value), seq![delimiter]);
                lemma_run_one(table, middle, delimiter);
                assert(captured(longer, values) =~= middle.params);
            },
        }
    }
}

} // verus!
