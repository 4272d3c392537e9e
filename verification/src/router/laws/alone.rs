//! What one route matches when it is alone in the table: the paths that
//! satisfy its segments.

use crate::router::laws::facts::lemma_single_content;
use crate::router::laws::matching::{
    captured, declares, filled, lemma_declared_once, lemma_declares_push, lemma_route_matches,
    satisfies,
};
use crate::router::method::Method;
use crate::router::table::{
    capture_at, conflicts, conflicts_at, entry_tokens, has_path, segment_token, segment_tokens,
    segments_capture, table_match, table_run, table_step, table_valid, walk_start, DELIMITER, Entry,
    MatchView,
};
use crate::router::template::{has_duplicate_names, SegmentView};
use crate::router::token::{char_token, char_tokens, request_tokens, InputToken};
use vstd::prelude::*;

verus! {

/// What a route alone matches: the paths that satisfy its segments, with its
/// method.
pub proof fn lemma_single_route_matches<H>(
    entry: Entry<H>,
    values: Map<Seq<char>, Seq<char>>,
    path: Seq<char>,
)
    requires
        !has_duplicate_names(entry.segments),
        satisfies(entry.segments, values, path),
    ensures
        table_match(seq![entry], entry.method, path) == (MatchView::Matched {
            handler: entry.handler,
            params: captured(entry.segments, values),
        }),
{
    let single = seq![entry];
    let segments = entry.segments;
    let route = segment_tokens(segments);
    let none = Seq::<Entry<H>>::empty();
    assert(single.last() == entry);
    assert(single.drop_last() =~= none);
    assert(table_valid(none));
    assert(!conflicts(none, segments)) by {
        assert forall|k: int| 0 <= k < segments.len() implies !conflicts_at(none, segments, k) by {
            assert(capture_at(none, route.take(k)) is None);
        }
    }
    assert(table_valid(single));
    lemma_single_content(entry, entry_tokens(entry));
    assert forall|k: int, j: int|
        0 <= k < single[0].segments.len() && (#[trigger] single[0].segments[k]) is Parameter && 0
            <= j < values[single[0].segments[k]->Parameter_0].len() implies !has_path(
        single,
        route.take(k).push(char_token(#[trigger] values[single[0].segments[k]->Parameter_0][j])),
    ) by {
        let name = segments[k]->Parameter_0;
        let c = values[name][j];
        let longer = route.take(k).push(char_token(c));
        lemma_single_content(entry, longer);
        assert(segments[k] == SegmentView::Parameter(name));
        assert(declares(segments, name));
        assert(values[name].contains(c));
        if longer.is_prefix_of(entry_tokens(entry)) {
            assert(longer[k] == entry_tokens(entry)[k]) by {
                assert(longer =~= entry_tokens(entry).subrange(0, k + 1));
                assert(entry_tokens(entry).subrange(0, k + 1)[k] == entry_tokens(entry)[k]);
            }
            assert(entry_tokens(entry)[k] == segment_token(segments[k]));
        }
    }
    lemma_route_matches(single, 0, values);
}

/// What a route alone matches: a request that a table of one route matches
/// has the route's method, and its path satisfies the route's segments with
/// some values, the parameters being what the walk captures from them.
pub proof fn lemma_single_route_matched<H>(
    entry: Entry<H>,
    method: Method,
    path: Seq<char>,
) -> (values: Map<Seq<char>, Seq<char>>)
    requires
        !has_duplicate_names(entry.segments),
        table_match(seq![entry], method, path) is Matched,
    ensures
        method == entry.method,
        satisfies(entry.segments, values, path),
        table_match(seq![entry], method, path) == (MatchView::Matched {
            handler: entry.handler,
            params: captured(entry.segments, values),
        }),
{
    let single = seq![entry];
    let segments = entry.segments;
    let tokens = request_tokens(method, path);
    let last = InputToken::Method(method);
    assert(tokens.drop_last() =~= char_tokens(path));
    assert(tokens.last() == last);
    lemma_single_walk(entry, path);
    let before = table_run(single, walk_start(), char_tokens(path)).unwrap();
    let after = table_step(single, before, last).unwrap();
    let k = before.path.len() as int;
    lemma_single_content(entry, before.path.push(last));
    lemma_single_content(entry, before.path);
    lemma_single_content(entry, after.path);
    assert(entry_tokens(entry).len() == segments.len() + 1);
    if before.path.push(last).is_prefix_of(entry_tokens(entry)) {
        let longer_path = before.path.push(last);
        assert(longer_path[k] == entry_tokens(entry)[k]) by {
            assert(longer_path =~= entry_tokens(entry).subrange(0, k + 1));
            assert(entry_tokens(entry).subrange(0, k + 1)[k] == entry_tokens(entry)[k]);
        }
        if k < segments.len() {
            assert(entry_tokens(entry)[k] == segment_token(segments[k]));
        }
    }
    assert(k == segments.len());
    assert(segments.take(k) =~= segments);
    let values = values_of(segments, before.params);
    assert(path =~= filled(segments, values) + Seq::<char>::empty());
    assert(captured(segments, values) =~= before.params);
    values
}

/// The values that parameters stand for: for each parameter of the segments
/// what was captured under its name, or nothing.
pub open spec fn values_of(segments: Seq<SegmentView>, params: Map<Seq<char>, Seq<char>>) -> Map<
    Seq<char>,
    Seq<char>,
> {
    Map::new(
        |name: Seq<char>| declares(segments, name),
        |name: Seq<char>|
            if params.contains_key(name) {
                params[name]
            } else {
                Seq::empty()
            },
    )
}

/// What the walk has captured so far for the parameter that it stands at.
spec fn pending(segments: Seq<SegmentView>, k: int, params: Map<Seq<char>, Seq<char>>) -> Seq<
    char,
> {
    if k < segments.len() && segments[k] is Parameter && params.contains_key(
        segments[k]->Parameter_0,
    ) {
        params[segments[k]->Parameter_0]
    } else {
        Seq::empty()
    }
}

/// Whether the parameters are those of a walk that stands behind `k` segments
/// of a route: each is captured under the name of a parameter among the
/// segments, or of the parameter that follows them, and holds a character and
/// no delimiter.
spec fn captured_so_far(
    segments: Seq<SegmentView>,
    k: int,
    params: Map<Seq<char>, Seq<char>>,
) -> bool {
    forall|name: Seq<char>| #[trigger]
        params.contains_key(name) ==> {
            &&& declares(segments.take(k), name) || (k < segments.len() && segments[k]
                == SegmentView::Parameter(name))
            &&& params[name].len() > 0
            &&& !params[name].contains(DELIMITER)
        }
}

/// The text that fills segments depends on the values of their parameters
/// only.
proof fn lemma_filled_agree(
    segments: Seq<SegmentView>,
    first: Map<Seq<char>, Seq<char>>,
    second: Map<Seq<char>, Seq<char>>,
)
    requires
        forall|k: int|
            0 <= k < segments.len() && (#[trigger] segments[k]) is Parameter
                ==> first[segments[k]->Parameter_0] == second[segments[k]->Parameter_0],
    ensures
        filled(segments, first) == filled(segments, second),
    decreases segments.len(),
{
    if segments.len() > 0 {
        let front = segments.drop_last();
        assert forall|k: int|
            0 <= k < front.len() && (#[trigger] front[k]) is Parameter implies ({
            let name = front[k]->Parameter_0;
            first[name] == second[name]
        }) by {
            assert(segments[k] is Parameter);
        }
        lemma_filled_agree(front, first, second);
        assert(segments[segments.len() - 1] == segments.last());
    }
}

/// Where a walk through a route alone stands after a text: behind some of
/// the route's segments, and the text fills these segments, followed by what
/// is captured so far for the parameter that comes next.
proof fn lemma_single_walk<H>(entry: Entry<H>, text: Seq<char>)
    requires
        !has_duplicate_names(entry.segments),
        table_run(seq![entry], walk_start(), char_tokens(text)) is Some,
    ensures
        ({
            let walk = table_run(seq![entry], walk_start(), char_tokens(text)).unwrap();
            let k = walk.path.len() as int;
            &&& k <= entry.segments.len()
            &&& walk.path == segment_tokens(entry.segments).take(k)
            &&& captured_so_far(entry.segments, k, walk.params)
            &&& text == filled(
                entry.segments.take(k),
                values_of(entry.segments.take(k), walk.params),
            ) + pending(entry.segments, k, walk.params)
        }),
    decreases text.len(),
{
    let single = seq![entry];
    let segments = entry.segments;
    let route = segment_tokens(segments);
    let tokens = char_tokens(text);
    if text.len() == 0 {
        assert(route.take(0) =~= Seq::<InputToken>::empty());
        assert(segments.take(0) =~= Seq::<SegmentView>::empty());
        assert(text =~= Seq::<char>::empty() + Seq::<char>::empty());
    } else {
        let front = text.drop_last();
        let c = text.last();
        let token = char_token(c);
        assert(tokens.drop_last() =~= char_tokens(front));
        assert(tokens.last() == token);
        assert(text =~= front.push(c));
        lemma_single_walk(entry, front);
        let before = table_run(single, walk_start(), char_tokens(front)).unwrap();
        let after = table_step(single, before, token).unwrap();
        let k = before.path.len() as int;
        let shorter = segments.take(k);
        let old_values = values_of(shorter, before.params);
        let old_pending = pending(segments, k, before.params);
        lemma_single_content(entry, before.path.push(token));
        lemma_single_content(entry, before.path);
        if k < segments.len() {
            assert(route.take(k + 1) =~= route.take(k).push(segment_token(segments[k])));
            assert(route.take(k + 1).is_prefix_of(entry_tokens(entry))) by {
                assert(route.take(k + 1) =~= entry_tokens(entry).subrange(0, k + 1));
            }
        }
        if before.path.push(token).is_prefix_of(entry_tokens(entry)) {
            let longer_path = before.path.push(token);
            assert(longer_path[k] == entry_tokens(entry)[k]) by {
                assert(longer_path =~= entry_tokens(entry).subrange(0, k + 1));
                assert(entry_tokens(entry).subrange(0, k + 1)[k] == entry_tokens(entry)[k]);
            }
            assert(k < segments.len());
            assert(segment_token(segments[k]) == token);
            assert(after.path =~= route.take(k + 1));
            let longer = segments.take(k + 1);
            assert(longer.drop_last() =~= shorter);
            assert(longer.last() == segments[k]);
            let values = values_of(longer, after.params);
            assert forall|j: int|
                0 <= j < shorter.len() && (#[trigger] shorter[j]) is Parameter implies ({
                let name = shorter[j]->Parameter_0;
                values[name] == old_values[name]
            }) by {
                assert(shorter[j] == SegmentView::Parameter(shorter[j]->Parameter_0));
                assert(longer[j] == shorter[j]);
            }
            lemma_filled_agree(shorter, values, old_values);
            assert forall|name: Seq<char>| #[trigger]
                after.params.contains_key(name) implies declares(longer, name) by {
                lemma_declares_push(segments, k, name);
            }
            assert(pending(segments, k + 1, after.params) =~= Seq::<char>::empty()) by {
                if k + 1 < segments.len() && segments[k + 1] is Parameter {
                    let name = segments[k + 1]->Parameter_0;
                    lemma_declared_once(segments, k + 1);
                }
            }
            match segments[k] {
                SegmentView::Literal(_) => {
                    assert(text =~= filled(longer, values) + Seq::<char>::empty());
                },
                SegmentView::Parameter(name) => {
                    assert(longer[k] == SegmentView::Parameter(name));
                    assert(text =~= filled(longer, values) + Seq::<char>::empty());
                },
            }
        } else {
            let name = segments_capture(segments, before.path).unwrap();
            assert(segments[k] == SegmentView::Parameter(name));
            assert(c != DELIMITER);
            lemma_declared_once(segments, k);
            let values = values_of(shorter, after.params);
            assert forall|j: int|
                0 <= j < shorter.len() && (#[trigger] shorter[j]) is Parameter implies ({
                let name = shorter[j]->Parameter_0;
                values[name] == old_values[name]
            }) by {
                assert(shorter[j] == SegmentView::Parameter(shorter[j]->Parameter_0));
            }
            lemma_filled_agree(shorter, values, old_values);
            assert(pending(segments, k, after.params) =~= old_pending.push(c));
            assert(text =~= filled(shorter, values) + old_pending.push(c));
            assert forall|other: Seq<char>| #[trigger]
                after.params.contains_key(other) implies !after.params[other].contains(
                DELIMITER,
            ) by {
                if other == name {
                    let value = after.params[other];
                    if value.contains(DELIMITER) {
                        let j = choose|j: int| 0 <= j < value.len() && value[j] == DELIMITER;
                        if j < old_pending.len() {
                            assert(old_pending[j] == DELIMITER);
                            assert(old_pending.contains(DELIMITER));
                        }
                    }
                }
            }
        }
    }
}

} // verus!
