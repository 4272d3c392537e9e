//! A request that no route matches is not found.

use crate::router::laws::alone::lemma_single_route_matched;
use crate::router::laws::facts::{
    lemma_capture_of_entry, lemma_handler_at_witness, lemma_has_path_of_entry, lemma_valid_entry,
    lemma_walk_over_chars,
};
use crate::router::laws::matching::satisfies;
use crate::router::method::Method;
use crate::router::table::{
    capture_at, entry_tokens, has_path, segment_tokens, table_match, table_run, table_step,
    table_valid, walk_start, Entry,
};
use crate::router::token::{char_token, char_tokens, request_tokens, InputToken};
use crate::router::trie::{lemma_prefix_of_push, lemma_prefix_shorter};
use vstd::prelude::*;

verus! {

/// A request with a method that no route has is not found.
pub proof fn lemma_unregistered_method_is_not_found<H>(
    table: Seq<Entry<H>>,
    method: Method,
    path: Seq<char>,
)
    requires
        forall|i: int| 0 <= i < table.len() ==> (#[trigger] table[i]).method != method,
    ensures
        table_match(table, method, path) is NotFound,
{
    if table_match(table, method, path) is Matched {
        let i = lemma_match_ends_on_route(table, method, path);
        assert(table[i].method == method);
    }
}

/// Whether the table captures, on the way of route `i`, only where the route
/// itself has a parameter.
pub open spec fn captures_own<H>(table: Seq<Entry<H>>, i: int) -> bool {
    forall|k: int|
        0 <= k <= table[i].segments.len() && capture_at(
            table,
            #[trigger] segment_tokens(table[i].segments).take(k),
        ) is Some ==> k < table[i].segments.len() && table[i].segments[k] is Parameter
}

/// Whether every route of the table keeps to itself in this way: no route
/// has a parameter at a place that another route passes with a literal, or
/// ends at.
pub open spec fn captures_apart<H>(table: Seq<Entry<H>>) -> bool {
    forall|i: int| 0 <= i < table.len() ==> #[trigger] captures_own(table, i)
}

/// A request that no route satisfies is not found. In a valid table whose
/// routes keep their captures apart, take a request whose path satisfies the
/// segments of no route of the request's method, whatever the values: the
/// table does not match it.
pub proof fn lemma_unsatisfied_is_not_found<H>(
    table: Seq<Entry<H>>,
    method: Method,
    path: Seq<char>,
)
    requires
        table_valid(table),
        captures_apart(table),
        forall|i: int, values: Map<Seq<char>, Seq<char>>|
            0 <= i < table.len() && table[i].method == method ==> !#[trigger] satisfies(
                table[i].segments,
                values,
                path,
            ),
    ensures
        table_match(table, method, path) is NotFound,
{
    if table_match(table, method, path) is Matched {
        let i = lemma_matched_by_route(table, method, path);
        lemma_valid_entry(table, i);
        let values = lemma_single_route_matched(table[i], method, path);
        assert(satisfies(table[i].segments, values, path));
    }
}

/// A request that is matched is matched by a route: in a valid table whose
/// routes keep their captures apart, the request is matched, to the same
/// handler and with the same parameters, by a route of the request's method
/// taken alone. So a request that no route of its method matches is not found.
pub proof fn lemma_matched_by_route<H>(table: Seq<Entry<H>>, method: Method, path: Seq<char>) -> (i:
    int)
    requires
        table_valid(table),
        captures_apart(table),
        table_match(table, method, path) is Matched,
    ensures
        0 <= i < table.len(),
        table[i].method == method,
        table_match(seq![table[i]], method, path) == table_match(table, method, path),
        table_match(table, method, path)->handler == table[i].handler,
{
    let i = lemma_match_ends_on_route(table, method, path);
    let single = seq![table[i]];
    let tokens = request_tokens(method, path);
    let last = InputToken::Method(method);
    assert(tokens.drop_last() =~= char_tokens(path));
    assert(tokens.last() == last);
    assert(single.last() == table[i]);
    assert(single.drop_last() =~= Seq::<Entry<H>>::empty());
    let before = table_run(table, walk_start(), char_tokens(path)).unwrap();
    let route = segment_tokens(table[i].segments);
    assert(captures_own(table, i));
    assert(before.path.is_prefix_of(route)) by {
        assert(route.subrange(0, route.len() as int) =~= route);
    }
    lemma_walk_alone(table, i, path);
    let whole = entry_tokens(table[i]);
    assert(whole.is_prefix_of(whole)) by {
        assert(whole.subrange(0, whole.len() as int) =~= whole);
    }
    assert(has_path(single, before.path.push(last)));
    lemma_single_has_path(table, i, before.path.push(last));
    i
}

/// Where a request is matched, the walk has followed the tokens of a route
/// with the request's method, up to the method itself.
proof fn lemma_match_ends_on_route<H>(table: Seq<Entry<H>>, method: Method, path: Seq<char>) -> (i:
    int)
    requires
        table_match(table, method, path) is Matched,
    ensures
        0 <= i < table.len(),
        table[i].method == method,
        table_match(table, method, path)->handler == table[i].handler,
        table_run(table, walk_start(), char_tokens(path)) is Some,
        ({
            let before = table_run(table, walk_start(), char_tokens(path)).unwrap();
            &&& before.path == segment_tokens(table[i].segments)
            &&& table_match(table, method, path)->params == before.params
        }),
{
    let tokens = request_tokens(method, path);
    let last = InputToken::Method(method);
    assert(tokens.drop_last() =~= char_tokens(path));
    assert(tokens.last() == last);
    let before = table_run(table, walk_start(), char_tokens(path)).unwrap();
    let after = table_step(table, before, last).unwrap();
    let i = lemma_handler_at_witness(table, after.path);
    let route = entry_tokens(table[i]);
    assert(route.last() == InputToken::Method(table[i].method));
    if has_path(table, before.path.push(last)) {
        assert(after.path.drop_last() =~= before.path);
        assert(route.drop_last() =~= segment_tokens(table[i].segments));
        assert(after.path.last() == last);
    } else {
        lemma_walk_over_chars(table, path);
        assert(after.path[after.path.len() - 1] is Char);
    }
    i
}

/// What a single route has, a table with the route has.
proof fn lemma_single_has_path<H>(table: Seq<Entry<H>>, i: int, path: Seq<InputToken>)
    requires
        0 <= i < table.len(),
        has_path(seq![table[i]], path),
    ensures
        has_path(table, path),
{
    let single = seq![table[i]];
    assert(single.last() == table[i]);
    assert(single.drop_last() =~= Seq::<Entry<H>>::empty());
    assert(!has_path(Seq::<Entry<H>>::empty(), path));
    lemma_has_path_of_entry(table, i, path);
}

/// On the way of a route that the table leaves to itself, the table walks as
/// the route alone does.
proof fn lemma_walk_alone<H>(table: Seq<Entry<H>>, i: int, text: Seq<char>)
    requires
        table_valid(table),
        0 <= i < table.len(),
        captures_own(table, i),
        table_run(table, walk_start(), char_tokens(text)) is Some,
        table_run(table, walk_start(), char_tokens(text)).unwrap().path.is_prefix_of(
            segment_tokens(table[i].segments),
        ),
    ensures
        table_run(seq![table[i]], walk_start(), char_tokens(text)) == table_run(
            table,
            walk_start(),
            char_tokens(text),
        ),
    decreases text.len(),
{
    let single = seq![table[i]];
    let tokens = char_tokens(text);
    let route = segment_tokens(table[i].segments);
    assert(single.last() == table[i]);
    assert(single.drop_last() =~= Seq::<Entry<H>>::empty());
    if text.len() > 0 {
        let token = char_token(text.last());
        assert(tokens.drop_last() =~= char_tokens(text.drop_last()));
        assert(tokens.last() == token);
        let before = table_run(table, walk_start(), char_tokens(text.drop_last())).unwrap();
        let after = table_step(table, before, token).unwrap();
        if has_path(table, before.path.push(token)) {
            lemma_prefix_shorter(before.path, token, route);
            lemma_walk_alone(table, i, text.drop_last());
            lemma_prefix_of_push(after.path, route, InputToken::Method(table[i].method));
        } else {
            lemma_walk_alone(table, i, text.drop_last());
            if has_path(single, before.path.push(token)) {
                lemma_single_has_path(table, i, before.path.push(token));
            }
            let k = before.path.len() as int;
            assert(route.take(k) =~= before.path) by {
                assert(before.path =~= route.subrange(0, k));
            }
            assert(capture_at(table, route.take(k)) is Some);
            assert(k < table[i].segments.len() && table[i].segments[k] is Parameter);
            lemma_capture_of_entry(table, i, k);
        }
    }
}

} // verus!
