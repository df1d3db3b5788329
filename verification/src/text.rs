//! Window statistics of a training text.
//!
//! A text of `n` characters contains `n - order` windows of `order + 1`
//! consecutive characters (none when `n <= order`). Each window splits into a
//! context (its first `order` characters) and the symbol that follows it.
//! These functions count how often a given context, or a given
//! (context, symbol) pair, occurs among the windows of a text; the training
//! contract is stated over them.

use vstd::prelude::*;

verus! {

/// How many windows of `order + 1` consecutive characters the text `t` has.
pub open spec fn num_windows(t: Seq<char>, order: nat) -> nat {
    if t.len() >= order + 1 {
        (t.len() - order) as nat
    } else {
        0
    }
}

/// The context of the window that starts at position `j`: the `order`
/// characters `t[j .. j + order]`.
pub open spec fn window_context(t: Seq<char>, order: nat, j: int) -> Seq<char> {
    t.subrange(j, j + order)
}

/// Whether the window starting at `j` has context `c` and next symbol `s`.
pub open spec fn window_matches(t: Seq<char>, order: nat, j: int, c: Seq<char>, s: char) -> bool {
    window_context(t, order, j) == c && t[j + order] == s
}

/// Whether the window starting at `j` has context `c` (any next symbol).
pub open spec fn window_has_context(t: Seq<char>, order: nat, j: int, c: Seq<char>) -> bool {
    window_context(t, order, j) == c
}

/// How many of the first `n` windows of `t` match `(c, s)`.
pub open spec fn occurrences_upto(t: Seq<char>, order: nat, n: int, c: Seq<char>, s: char) -> nat
    decreases n,
{
    if n <= 0 {
        0
    } else {
        occurrences_upto(t, order, n - 1, c, s) + if window_matches(t, order, n - 1, c, s) {
            1nat
        } else {
            0nat
        }
    }
}

/// How many windows of `t` have context `c` followed by symbol `s`.
pub open spec fn occurrences(t: Seq<char>, order: nat, c: Seq<char>, s: char) -> nat {
    occurrences_upto(t, order, num_windows(t, order) as int, c, s)
}

/// How many of the first `n` windows of `t` have context `c`.
pub open spec fn context_occurrences_upto(t: Seq<char>, order: nat, n: int, c: Seq<char>) -> nat
    decreases n,
{
    if n <= 0 {
        0
    } else {
        context_occurrences_upto(t, order, n - 1, c) + if window_has_context(t, order, n - 1, c) {
            1nat
        } else {
            0nat
        }
    }
}

/// How many windows of `t` have context `c` (any next symbol).
pub open spec fn context_occurrences(t: Seq<char>, order: nat, c: Seq<char>) -> nat {
    context_occurrences_upto(t, order, num_windows(t, order) as int, c)
}

} // verus!
