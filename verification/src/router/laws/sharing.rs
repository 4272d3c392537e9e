//! Routes that start alike share nodes.

use crate::router::laws::facts::lemma_has_path_of_entry;
use crate::router::table::{entry_tokens, known_depth, table_nodes, table_tokens, Entry};
use crate::router::token::InputToken;
use crate::router::trie::lemma_known_depth;
use vstd::prelude::*;

verus! {

/// The automaton has at most one node for each token of the table, and the
/// start node.
pub proof fn lemma_nodes_at_most_tokens<H>(table: Seq<Entry<H>>)
    ensures
        table_nodes(table) <= 1 + table_tokens(table),
    decreases table.len(),
{
    if table.len() > 0 {
        lemma_nodes_at_most_tokens(table.drop_last());
        lemma_known_depth_bound(table.drop_last(), entry_tokens(table.last()));
    }
}

/// Routes that start alike share nodes: where two routes of the table have
/// the same first `k` tokens, the automaton has at least `k` nodes fewer than
/// one for each token of the table, and the start node.
pub proof fn lemma_shared_start_shares_nodes<H>(table: Seq<Entry<H>>, i: int, j: int, k: int)
    requires
        0 <= i < j < table.len(),
        0 <= k <= entry_tokens(table[i]).len(),
        k <= entry_tokens(table[j]).len(),
        entry_tokens(table[i]).take(k) == entry_tokens(table[j]).take(k),
    ensures
        table_nodes(table) + k <= 1 + table_tokens(table),
    decreases table.len(),
{
    let front = table.drop_last();
    let tokens = entry_tokens(table.last());
    lemma_known_depth_bound(front, tokens);
    if j < table.len() - 1 {
        lemma_shared_start_shares_nodes(front, i, j, k);
    } else {
        lemma_nodes_at_most_tokens(front);
        if k >= 1 {
            let start = tokens.take(k);
            assert(start.is_prefix_of(entry_tokens(front[i]))) by {
                assert(entry_tokens(front[i]).take(k) =~= entry_tokens(front[i]).subrange(0, k));
            }
            lemma_has_path_of_entry(front, i, start);
            lemma_known_depth(front, tokens, k);
        }
    }
}

/// The known depth of a route's tokens is at most their number.
pub proof fn lemma_known_depth_bound<H>(table: Seq<Entry<H>>, tokens: Seq<InputToken>)
    ensures
        known_depth(table, tokens) <= tokens.len(),
{
    if tokens.len() > 0 {
        lemma_known_depth(table, tokens, 1);
    }
}

} // verus!
