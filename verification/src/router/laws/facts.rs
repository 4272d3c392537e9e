//! What a table has: facts on its sequences of tokens, its captures, its
//! handlers and its walks, from which the laws are proved.

use crate::router::laws::matching::declares;
use crate::router::table::{
    capture_at, conflicts, conflicts_at, entry_tokens, handler_at, has_path, segment_tokens,
    segments_capture, table_run, table_step, table_valid, walk_start, Entry, WalkView,
};
use crate::router::template::has_duplicate_names;
use crate::router::token::{char_token, char_tokens, InputToken};
use vstd::prelude::*;

verus! {

/// A walk over two sequences of tokens, one after the other, is the walk over
/// the first, and from where it ends the walk over the second.
pub proof fn lemma_run_concat<H>(
    table: Seq<Entry<H>>,
    start: WalkView,
    first: Seq<InputToken>,
    second: Seq<InputToken>,
)
    ensures
        table_run(table, start, first + second) == match table_run(table, start, first) {
            Some(walk) => table_run(table, walk, second),
            None => None,
        },
    decreases second.len(),
{
    if second.len() == 0 {
        assert(first + second =~= first);
    } else {
        lemma_run_concat(table, start, first, second.drop_last());
        assert((first + second).drop_last() =~= first + second.drop_last());
        assert((first + second).last() == second.last());
    }
}

/// A walk over one token is one step.
pub proof fn lemma_run_one<H>(table: Seq<Entry<H>>, start: WalkView, token: InputToken)
    ensures
        table_run(table, start, seq![token]) == table_step(table, start, token),
{
    let tokens = seq![token];
    assert(tokens.drop_last() =~= Seq::<InputToken>::empty());
    assert(table_run(table, start, tokens.drop_last()) == Some(start));
}

/// The tokens of two texts, one after the other.
pub proof fn lemma_char_tokens_concat(first: Seq<char>, second: Seq<char>)
    ensures
        char_tokens(first + second) == char_tokens(first) + char_tokens(second),
{
    assert(char_tokens(first + second) =~= char_tokens(first) + char_tokens(second));
}

/// A table has every start of each of its routes.
pub proof fn lemma_has_path_of_entry<H>(table: Seq<Entry<H>>, i: int, path: Seq<InputToken>)
    requires
        0 <= i < table.len(),
        path.is_prefix_of(entry_tokens(table[i])),
    ensures
        has_path(table, path),
    decreases table.len(),
{
    if i < table.len() - 1 {
        lemma_has_path_of_entry(table.drop_last(), i, path);
    }
}

/// What a table has is the start of one of its routes.
pub proof fn lemma_has_path_witness<H>(table: Seq<Entry<H>>, path: Seq<InputToken>) -> (i: int)
    requires
        has_path(table, path),
    ensures
        0 <= i < table.len(),
        path.is_prefix_of(entry_tokens(table[i])),
    decreases table.len(),
{
    if path.is_prefix_of(entry_tokens(table.last())) {
        table.len() - 1
    } else {
        lemma_has_path_witness(table.drop_last(), path)
    }
}

/// The handler at a sequence of tokens is that of a route with these tokens.
pub proof fn lemma_handler_at_witness<H>(table: Seq<Entry<H>>, path: Seq<InputToken>) -> (i: int)
    requires
        handler_at(table, path) is Some,
    ensures
        0 <= i < table.len(),
        entry_tokens(table[i]) == path,
        handler_at(table, path) == Some(table[i].handler),
    decreases table.len(),
{
    if entry_tokens(table.last()) == path {
        table.len() - 1
    } else {
        lemma_handler_at_witness(table.drop_last(), path)
    }
}

/// The handler of a route is the one that its tokens lead to, unless a route
/// registered later has the same tokens.
pub proof fn lemma_last_route_gives_handler<H>(table: Seq<Entry<H>>, i: int)
    requires
        0 <= i < table.len(),
        forall|j: int|
            i < j < table.len() ==> entry_tokens(#[trigger] table[j]) != entry_tokens(table[i]),
    ensures
        handler_at(table, entry_tokens(table[i])) == Some(table[i].handler),
    decreases table.len(),
{
    if i < table.len() - 1 {
        assert(entry_tokens(table[table.len() - 1]) != entry_tokens(table[i]));
        lemma_last_route_gives_handler(table.drop_last(), i);
    }
}

/// In a valid table no route declares a name twice, and none captures under
/// another name than the routes before it.
pub proof fn lemma_valid_entry<H>(table: Seq<Entry<H>>, i: int)
    requires
        table_valid(table),
        0 <= i < table.len(),
    ensures
        !has_duplicate_names(table[i].segments),
        !conflicts(table.take(i), table[i].segments),
    decreases table.len(),
{
    if i < table.len() - 1 {
        lemma_valid_entry(table.drop_last(), i);
        assert(table.drop_last().take(i) =~= table.take(i));
    } else {
        assert(table.drop_last() =~= table.take(i));
    }
}

/// In a valid table, at the place of a route's parameter the table captures
/// under the parameter's name.
pub proof fn lemma_capture_of_entry<H>(table: Seq<Entry<H>>, i: int, k: int)
    requires
        table_valid(table),
        0 <= i < table.len(),
        0 <= k < table[i].segments.len(),
        table[i].segments[k] is Parameter,
    ensures
        capture_at(table, segment_tokens(table[i].segments).take(k)) == Some(
            table[i].segments[k]->Parameter_0,
        ),
    decreases table.len(),
{
    let at = segment_tokens(table[i].segments).take(k);
    let last = table.last();
    if i < table.len() - 1 {
        lemma_capture_of_entry(table.drop_last(), i, k);
        if segments_capture(last.segments, at) is Some {
            assert(segment_tokens(last.segments).take(k) == at);
            assert(conflicts_at(table.drop_last(), last.segments, k) ==> conflicts(
                table.drop_last(),
                last.segments,
            ));
        }
    }
}

/// A walk over characters follows characters only.
pub proof fn lemma_walk_over_chars<H>(table: Seq<Entry<H>>, text: Seq<char>)
    requires
        table_run(table, walk_start(), char_tokens(text)) is Some,
    ensures
        ({
            let walk = table_run(table, walk_start(), char_tokens(text)).unwrap();
            forall|j: int| 0 <= j < walk.path.len() ==> (#[trigger] walk.path[j]) is Char
        }),
    decreases text.len(),
{
    let tokens = char_tokens(text);
    if text.len() > 0 {
        assert(tokens.drop_last() =~= char_tokens(text.drop_last()));
        assert(tokens.last() == char_token(text.last()));
        lemma_walk_over_chars(table, text.drop_last());
    }
}

/// What a table of one route has: the starts of the route's tokens, the
/// route's captures and, at the route's tokens, the route's handler.
pub proof fn lemma_single_content<H>(entry: Entry<H>, path: Seq<InputToken>)
    ensures
        has_path(seq![entry], path) == path.is_prefix_of(entry_tokens(entry)),
        capture_at(seq![entry], path) == segments_capture(entry.segments, path),
        handler_at(seq![entry], path) == if entry_tokens(entry) == path {
            Some(entry.handler)
        } else {
            None
        },
{
    let single = seq![entry];
    let none = Seq::<Entry<H>>::empty();
    assert(single.last() == entry);
    assert(single.drop_last() =~= none);
    assert(!has_path(none, path));
    assert(capture_at(none, path) is None);
    assert(handler_at(none, path) is None);
}

} // verus!
