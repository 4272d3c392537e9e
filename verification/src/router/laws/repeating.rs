//! Registering the same routes once more changes no match.

use crate::router::laws::facts::{lemma_capture_of_entry, lemma_valid_entry};
use crate::router::method::Method;
use crate::router::table::{
    capture_at, compiled, conflicts_at, handler_at, has_path, lemma_compiled_is_valid,
    segment_tokens, table_match, table_run, walk_start, Entry, RouteView, WalkView,
};
use crate::router::token::{request_tokens, InputToken};
use vstd::prelude::*;

verus! {

/// Registering is idempotent: a table whose routes are all registered once
/// more, in the same order, matches every request as the table does.
pub proof fn lemma_registered_twice<H>(table: Seq<Entry<H>>, method: Method, path: Seq<char>)
    ensures
        table_match(table + table, method, path) == table_match(table, method, path),
{
    assert(same_content(table + table, table)) by {
        assert forall|at: Seq<InputToken>| #[trigger]
            has_path(table + table, at) == has_path(table, at) by {
            lemma_content_of_both(table, table, at);
        }
        assert forall|at: Seq<InputToken>| #[trigger]
            capture_at(table + table, at) == capture_at(table, at) by {
            lemma_content_of_both(table, table, at);
        }
        assert forall|at: Seq<InputToken>| #[trigger]
            handler_at(table + table, at) == handler_at(table, at) by {
            lemma_content_of_both(table, table, at);
        }
    }
    lemma_same_content_same_match(table + table, table, method, path);
}

/// Registering is idempotent: routes that compile, registered once more in
/// the same order behind themselves, compile to a table that matches every
/// request as the table of the routes does.
pub proof fn lemma_compiled_twice<H>(routes: Seq<(RouteView, H)>, method: Method, path: Seq<char>)
    requires
        compiled(routes) is Ok,
    ensures
        compiled(routes + routes) is Ok,
        table_match(compiled(routes + routes).unwrap(), method, path) == table_match(
            compiled(routes).unwrap(),
            method,
            path,
        ),
{
    let table = compiled(routes).unwrap();
    lemma_compiled_again(routes, routes.len() as int);
    assert(routes.take(routes.len() as int) =~= routes);
    lemma_compiled_is_valid(routes);
    assert(table.take(routes.len() as int) =~= table);
    lemma_registered_twice(table, method, path);
}

/// Whether two tables have the same sequences of tokens, with the same
/// captures and the same handlers.
pub open spec fn same_content<H>(first: Seq<Entry<H>>, second: Seq<Entry<H>>) -> bool {
    &&& forall|path: Seq<InputToken>| #[trigger] has_path(first, path) == has_path(second, path)
    &&& forall|path: Seq<InputToken>| #[trigger]
        capture_at(first, path) == capture_at(second, path)
    &&& forall|path: Seq<InputToken>| #[trigger]
        handler_at(first, path) == handler_at(second, path)
}

/// Tables of the same content walk alike.
pub proof fn lemma_same_content_same_run<H>(
    first: Seq<Entry<H>>,
    second: Seq<Entry<H>>,
    start: WalkView,
    tokens: Seq<InputToken>,
)
    requires
        same_content(first, second),
    ensures
        table_run(first, start, tokens) == table_run(second, start, tokens),
    decreases tokens.len(),
{
    if tokens.len() > 0 {
        lemma_same_content_same_run(first, second, start, tokens.drop_last());
        match table_run(first, start, tokens.drop_last()) {
            Some(walk) => {
                assert(has_path(first, walk.path.push(tokens.last())) == has_path(
                    second,
                    walk.path.push(tokens.last()),
                ));
                assert(capture_at(first, walk.path) == capture_at(second, walk.path));
            },
            None => {},
        }
    }
}

/// Tables of the same content match every request alike.
pub proof fn lemma_same_content_same_match<H>(
    first: Seq<Entry<H>>,
    second: Seq<Entry<H>>,
    method: Method,
    path: Seq<char>,
)
    requires
        same_content(first, second),
    ensures
        table_match(first, method, path) == table_match(second, method, path),
{
    let tokens = request_tokens(method, path);
    lemma_same_content_same_run(first, second, walk_start(), tokens);
    match table_run(first, walk_start(), tokens) {
        Some(walk) => {
            assert(handler_at(first, walk.path) == handler_at(second, walk.path));
        },
        None => {},
    }
}

/// What two tables, one after the other, have at a sequence of tokens: what
/// either has, the second before the first.
pub proof fn lemma_content_of_both<H>(
    first: Seq<Entry<H>>,
    second: Seq<Entry<H>>,
    path: Seq<InputToken>,
)
    ensures
        has_path(first + second, path) == (has_path(first, path) || has_path(second, path)),
        capture_at(first + second, path) == match capture_at(second, path) {
            Some(name) => Some(name),
            None => capture_at(first, path),
        },
        handler_at(first + second, path) == match handler_at(second, path) {
            Some(handler) => Some(handler),
            None => handler_at(first, path),
        },
    decreases second.len(),
{
    if second.len() == 0 {
        assert(first + second =~= first);
    } else {
        lemma_content_of_both(first, second.drop_last(), path);
        assert((first + second).drop_last() =~= first + second.drop_last());
        assert((first + second).last() == second.last());
    }
}

/// Routes that compile once compile when they are registered twice: the
/// routes, followed by the first `n` of them once more.
proof fn lemma_compiled_again<H>(routes: Seq<(RouteView, H)>, n: int)
    requires
        compiled(routes) is Ok,
        0 <= n <= routes.len(),
    ensures
        compiled(routes + routes.take(n)) matches Ok(table) && table == compiled(routes).unwrap()
            + compiled(routes).unwrap().take(n),
    decreases n,
{
    let table = compiled(routes).unwrap();
    lemma_compiled_is_valid(routes);
    if n == 0 {
        assert(routes + routes.take(0) =~= routes);
        assert(table + table.take(0) =~= table);
    } else {
        let j = n - 1;
        lemma_compiled_again(routes, j);
        let longer = routes + routes.take(n);
        let before = table + table.take(j);
        assert(longer.drop_last() =~= routes + routes.take(j));
        assert(longer.last() == routes[j]);
        let segments = table[j].segments;
        lemma_valid_entry(table, j);
        assert forall|k: int| 0 <= k < segments.len() implies !conflicts_at(
            before,
            segments,
            k,
        ) by {
            if segments[k] is Parameter {
                let at = segment_tokens(segments).take(k);
                lemma_content_of_both(table, table.take(j), at);
                lemma_capture_of_entry(table, j, k);
                assert(!conflicts_at(table.take(j), segments, k));
            }
        }
        assert(before.push(table[j]) =~= table + table.take(n));
    }
}

} // verus!
