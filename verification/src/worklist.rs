//! The size of a search, by which a search over a list of pending
//! configurations is seen to end.

use vstd::prelude::*;
use crate::trace::{count_eof, lemma_apply_decreases, ConfigView};

verus! {

/// The number of configurations that a search from `c` visits when it follows
/// every transition: `c` itself and what is visited from each of its successors.
pub open spec fn tree_size(c: ConfigView) -> nat
    decreases c.bound, c.input.len(), count_eof(c.pda.stack), 2nat, 0int,
{
    if c.pda.wf() {
        1 + table_size(c, c.pda.table.len() as int)
    } else {
        0
    }
}

/// What is visited from the successors of `c` by the first `i` table entries.
pub open spec fn table_size(c: ConfigView, i: int) -> nat
    decreases c.bound, c.input.len(), count_eof(c.pda.stack), 1nat, i,
{
    if c.pda.wf() && 0 < i <= c.pda.table.len() {
        table_size(c, i - 1) + row_size(c, i - 1, c.pda.table[i - 1].targets.len() as int)
    } else {
        0
    }
}

/// What is visited from the successors of `c` by the first `j` alternatives of
/// table entry `i`.
pub open spec fn row_size(c: ConfigView, i: int, j: int) -> nat
    decreases c.bound, c.input.len(), count_eof(c.pda.stack), 0nat, j,
    via row_size_decreases
{
    if c.pda.wf() && 0 <= i < c.pda.table.len() && 0 < j <= c.pda.table[i].targets.len() {
        row_size(c, i, j - 1) + match c.successor(i, j - 1) {
            Some(next) => tree_size(next),
            None => 0,
        }
    } else {
        0
    }
}

#[via_fn]
proof fn row_size_decreases(c: ConfigView, i: int, j: int) {
    if c.pda.wf() && 0 <= i < c.pda.table.len() && 0 < j <= c.pda.table[i].targets.len() {
        if c.successor(i, j - 1) is Some {
            lemma_apply_decreases(
                c,
                c.pda.table[i].read,
                c.pda.table[i].pop,
                c.pda.table[i].targets[j - 1].0,
                c.pda.table[i].targets[j - 1].1,
            );
        }
    }
}

/// What a search visits from the configurations of `pending`, taken together.
pub open spec fn total_size(pending: Seq<ConfigView>) -> nat
    decreases pending.len(),
{
    if pending.len() == 0 {
        0
    } else {
        total_size(pending.drop_last()) + tree_size(pending.last())
    }
}

/// Whether one of the configurations of `pending` leads to acceptance.
pub open spec fn any_accepts(pending: Seq<ConfigView>) -> bool {
    exists|k: int| 0 <= k < pending.len() && (#[trigger] pending[k]).accepts()
}

/// A configuration more to search from adds its own search to the total.
pub proof fn lemma_push(pending: Seq<ConfigView>, c: ConfigView)
    ensures
        total_size(pending.push(c)) == total_size(pending) + tree_size(c),
        any_accepts(pending.push(c)) <==> any_accepts(pending) || c.accepts(),
{
    let more = pending.push(c);
    assert(more.drop_last() =~= pending);
    if c.accepts() {
        assert(more[pending.len() as int].accepts());
    }
}

/// No transition of an entry applies in a state that the entry does not leave.
pub proof fn lemma_row_of_other_state(c: ConfigView, i: int, j: int)
    requires
        0 <= i < c.pda.table.len(),
        c.pda.table[i].state != c.state,
    ensures
        row_size(c, i, j) == 0,
    decreases j,
{
    if c.pda.wf() && 0 < j <= c.pda.table[i].targets.len() {
        lemma_row_of_other_state(c, i, j - 1);
    }
}

} // verus!
