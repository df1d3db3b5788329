//! The Markov model: training and text generation.
//!
//! A model of order `k` maps each context of exactly `k` characters to the
//! counts of the symbols seen after it. Training slides a window of `k + 1`
//! characters across a text and bumps one count per window; generation
//! repeatedly draws a next symbol with probability proportional to its count
//! and slides the context forward, stopping early at a context that was
//! never trained (a dead end).
//!
//! A seed shorter than the order leaves the initial context shorter than
//! every trained context, so generation from such a seed dead-ends at once
//! and returns the seed unchanged; this is the one policy choice the model
//! makes for under-length seeds.

use vstd::prelude::*;
use vstd::string::*;

use crate::table::{
    context_at, count_of, find_context, find_symbol_position, has_context, lemma_context_at,
    lemma_count_le_row_sum, lemma_row_empty, lemma_row_insert_counts, lemma_row_singleton,
    lemma_row_sum_insert, lemma_row_sum_pos, lemma_row_sum_update, lemma_row_update_counts,
    lemma_select_present, lemma_symbol_at, lemma_table_push, lemma_table_update, row_count,
    row_sum, row_total, row_wf, rows_of, select_symbol, spec_select, sums_bounded, symbol_at,
    table_wf, total_of, ContextRow, SymbolCount,
};
use crate::text::{
    context_occurrences, context_occurrences_upto, num_windows, occurrences, occurrences_upto,
    window_context,
};

verus! {

/// An order-k character-level Markov chain model.
pub struct MarkovModel {
    /// The context length, fixed at construction.
    pub order: usize,
    /// The learned transition table.
    pub transitions: Vec<ContextRow>,
    /// How many windows all training calls together have recorded.
    pub trained: usize,
}

impl MarkovModel {
    /// The invariant every model keeps: a positive order, a well-shaped
    /// table, and every row sum bounded by the number of windows trained
    /// (which is what lets the counts be bumped and summed in `usize`).
    pub open spec fn wf(&self) -> bool {
        &&& self.order >= 1
        &&& table_wf(self.transitions@, self.order as nat)
        &&& sums_bounded(self.transitions@, self.trained as nat)
    }
}

/// How one training call changes a model: every (context, symbol) count
/// grows by the number of windows of `t` that show that pair, a context is
/// present afterwards exactly when it was present before or occurs in `t`,
/// and every context's count total grows by the number of windows of `t`
/// that show the context.
pub open spec fn trains_to(pre: MarkovModel, t: Seq<char>, post: MarkovModel) -> bool {
    &&& post.order == pre.order
    &&& post.trained == pre.trained + num_windows(t, pre.order as nat)
    &&& forall|c: Seq<char>, s: char|
        #[trigger] count_of(post.transitions@, c, s) == count_of(pre.transitions@, c, s)
            + occurrences(t, pre.order as nat, c, s)
    &&& forall|c: Seq<char>|
        #[trigger] has_context(post.transitions@, c) <==> (has_context(pre.transitions@, c)
            || context_occurrences(t, pre.order as nat, c) > 0)
    &&& forall|c: Seq<char>|
        #[trigger] total_of(post.transitions@, c) == total_of(pre.transitions@, c)
            + context_occurrences(t, pre.order as nat, c)
}

/// The characters of a string, in order, as a vector.
pub fn chars_of(s: &str) -> (v: Vec<char>)
    ensures
        v@ == s@,
{
    let n = s.unicode_len();
    let mut v: Vec<char> = Vec::new();
    proof {
        assert(v@ =~= s@.subrange(0, 0));
    }
    let mut i: usize = 0;
    while i < n
        invariant
            n == s@.len(),
            i <= n,
            v@ == s@.subrange(0, i as int),
        decreases n - i,
    {
        v.push(s.get_char(i));
        i = i + 1;
        proof {
            assert(v@ =~= s@.subrange(0, i as int));
        }
    }
    proof {
        assert(s@.subrange(0, n as int) =~= s@);
    }
    v
}

/// A copy of the characters `cs[start .. end]`.
pub fn copy_slice(cs: &Vec<char>, start: usize, end: usize) -> (v: Vec<char>)
    requires
        start <= end <= cs@.len(),
    ensures
        v@ == cs@.subrange(start as int, end as int),
{
    let mut v: Vec<char> = Vec::new();
    proof {
        assert(v@ =~= cs@.subrange(start as int, start as int));
    }
    let mut i: usize = start;
    while i < end
        invariant
            start <= i <= end <= cs@.len(),
            v@ == cs@.subrange(start as int, i as int),
        decreases end - i,
    {
        v.push(cs[i]);
        i = i + 1;
        proof {
            assert(v@ =~= cs@.subrange(start as int, i as int));
        }
    }
    v
}

impl MarkovModel {
    /// Creates an empty model of the given order: no context has been seen,
    /// every count is zero. The order must be positive: the degenerate
    /// order-zero mode (one global frequency table) is not supported, and
    /// callers validate the order before constructing.
    pub fn new(order: usize) -> (m: MarkovModel)
        requires
            1 <= order,
        ensures
            m.wf(),
            m.order == order,
            m.trained == 0,
            m.transitions@.len() == 0,
            forall|c: Seq<char>| !(#[trigger] has_context(m.transitions@, c)),
            forall|c: Seq<char>, s: char| #[trigger] count_of(m.transitions@, c, s) == 0,
            forall|c: Seq<char>| #[trigger] total_of(m.transitions@, c) == 0,
    {
        let m = MarkovModel { order, transitions: Vec::new(), trained: 0 };
        proof {
            assert forall|c: Seq<char>| !(#[trigger] has_context(m.transitions@, c)) by {
                if has_context(m.transitions@, c) {
                    let k = context_at(m.transitions@, c);
                    assert(0 <= k < m.transitions@.len());
                    assert(false);
                }
            }
            assert forall|c: Seq<char>, s: char| #[trigger] count_of(m.transitions@, c, s)
                == 0 by {
                lemma_row_empty(s);
            }
            assert forall|c: Seq<char>| #[trigger] total_of(m.transitions@, c) == 0 by {
                lemma_row_empty('\0');
            }
        }
        m
    }

    /// Records one observed window: context `ctx` was followed by `symbol`.
    /// Exactly that pair's count grows by one; a row or entry is created
    /// with count one when the pair is new.
    fn record(&mut self, ctx: Vec<char>, symbol: char)
        requires
            old(self).wf(),
            ctx@.len() == old(self).order,
            old(self).trained < usize::MAX,
        ensures
            final(self).wf(),
            final(self).order == old(self).order,
            final(self).trained == old(self).trained + 1,
            forall|c: Seq<char>, s: char|
                #[trigger] count_of(final(self).transitions@, c, s) == count_of(
                    old(self).transitions@,
                    c,
                    s,
                ) + (if c == ctx@ && s == symbol {
                    1nat
                } else {
                    0nat
                }),
            forall|c: Seq<char>|
                #[trigger] has_context(final(self).transitions@, c) <==> (has_context(
                    old(self).transitions@,
                    c,
                ) || c == ctx@),
            forall|c: Seq<char>|
                #[trigger] total_of(final(self).transitions@, c) == total_of(old(self).transitions@, c)
                    + (if c == ctx@ {
                    1nat
                } else {
                    0nat
                }),
    {
        let ghost ts0 = self.transitions@;
        let ghost octx = ctx@;
        match find_context(&self.transitions, &ctx) {
            Some(i) => {
                let mut row = self.transitions.remove(i);
                let ghost rs0 = row.rows@;
                proof {
                    assert(row == ts0[i as int]);
                    assert(row_wf(rs0));
                    assert(row_sum(rs0) <= old(self).trained);
                }
                let (found, p) = find_symbol_position(&row.rows, symbol);
                if found {
                    let c0 = row.rows[p].count;
                    proof {
                        lemma_count_le_row_sum(rs0, p as int);
                    }
                    let e2 = SymbolCount { symbol, count: c0 + 1 };
                    let ghost ge2 = e2;
                    let _replaced = row.rows.remove(p);
                    row.rows.insert(p, e2);
                    proof {
                        rs0.remove_ensures(p as int);
                        rs0.remove(p as int).insert_ensures(p as int, ge2);
                        assert(row.rows@ =~= rs0.update(p as int, ge2));
                        lemma_row_update_counts(rs0, p as int, ge2);
                        lemma_row_sum_update(rs0, p as int, ge2);
                        lemma_symbol_at(rs0, symbol, p as int);
                    }
                } else {
                    let e2 = SymbolCount { symbol, count: 1 };
                    let ghost ge2 = e2;
                    row.rows.insert(p, e2);
                    proof {
                        assert(row.rows@ == rs0.insert(p as int, ge2));
                        lemma_row_insert_counts(rs0, p as int, ge2);
                        lemma_row_sum_insert(rs0, p as int, ge2);
                    }
                }
                let ghost row2 = row;
                self.transitions.insert(i, row);
                proof {
                    ts0.remove_ensures(i as int);
                    ts0.remove(i as int).insert_ensures(i as int, row2);
                    assert(self.transitions@ =~= ts0.update(i as int, row2));
                    let ts2 = self.transitions@;
                    lemma_table_update(ts0, i as int, row2);
                    lemma_context_at(ts0, octx, i as int);
                    assert(rows_of(ts0, octx) == rs0);
                    assert(rows_of(ts2, octx) == row2.rows@);
                    // the new row is well formed and its sum grew by one
                    assert(row2.rows@.len() > 0);
                    assert(row_sum(row2.rows@) == row_sum(rs0) + 1);
                    assert forall|k: int| 0 <= k < row2.rows@.len() implies (#[trigger] row2.rows@[k]).count
                        >= 1 by {
                        if found {
                            if k != p {
                                assert(row2.rows@[k] == rs0[k]);
                            }
                        } else {
                            rs0.insert_ensures(p as int, SymbolCount { symbol, count: 1 });
                            if k < p {
                                assert(row2.rows@[k] == rs0[k]);
                            } else if k > p {
                                assert(row2.rows@[k] == rs0[k - 1]);
                            }
                        }
                    }
                    assert(row_wf(row2.rows@));
                    // shape of the whole table
                    assert forall|k: int| 0 <= k < ts2.len() implies (#[trigger] ts2[k]).context@
                        .len() == old(self).order by {
                        if k != i {
                            assert(ts2[k] == ts0[k]);
                        }
                    }
                    assert forall|k: int| 0 <= k < ts2.len() implies row_wf(
                        (#[trigger] ts2[k]).rows@,
                    ) by {
                        if k != i {
                            assert(ts2[k] == ts0[k]);
                        }
                    }
                    assert forall|k: int| 0 <= k < ts2.len() implies row_sum(
                        (#[trigger] ts2[k]).rows@,
                    ) <= old(self).trained + 1 by {
                        if k != i {
                            assert(ts2[k] == ts0[k]);
                            assert(row_sum(ts0[k].rows@) <= old(self).trained);
                        }
                    }
                    // the three map-level deltas
                    assert forall|c: Seq<char>, s: char| #[trigger] count_of(ts2, c, s) == count_of(
                        ts0,
                        c,
                        s,
                    ) + (if c == octx && s == symbol {
                        1nat
                    } else {
                        0nat
                    }) by {
                        if c == octx {
                            assert(rows_of(ts2, c) == row2.rows@);
                            assert(row_count(row2.rows@, s) == if s == symbol {
                                (if found {
                                    rs0[p as int].count + 1
                                } else {
                                    1
                                }) as nat
                            } else {
                                row_count(rs0, s)
                            });
                        } else {
                            assert(rows_of(ts2, c) == rows_of(ts0, c));
                        }
                    }
                    assert forall|c: Seq<char>| #[trigger] has_context(ts2, c) <==> (has_context(
                        ts0,
                        c,
                    ) || c == octx) by {
                        assert(has_context(ts0, octx));
                    }
                    assert forall|c: Seq<char>| #[trigger] total_of(ts2, c) == total_of(ts0, c) + (
                    if c == octx {
                        1nat
                    } else {
                        0nat
                    }) by {
                        if c == octx {
                            assert(rows_of(ts2, c) == row2.rows@);
                        } else {
                            assert(rows_of(ts2, c) == rows_of(ts0, c));
                        }
                    }
                }
            },
            None => {
                let mut rows_new: Vec<SymbolCount> = Vec::new();
                rows_new.push(SymbolCount { symbol, count: 1 });
                let row = ContextRow { context: ctx, rows: rows_new };
                let ghost row2 = row;
                self.transitions.push(row);
                proof {
                    let ts2 = self.transitions@;
                    assert(row2.rows@ =~= seq![SymbolCount { symbol, count: 1 }]);
                    lemma_row_singleton(SymbolCount { symbol, count: 1 });
                    lemma_table_push(ts0, row2);
                    assert(row_wf(row2.rows@));
                    assert forall|k: int| 0 <= k < ts2.len() implies (#[trigger] ts2[k]).context@
                        .len() == old(self).order by {
                        if k < ts0.len() {
                            assert(ts2[k] == ts0[k]);
                        } else {
                            assert(ts2[k] == row2);
                        }
                    }
                    assert forall|k: int| 0 <= k < ts2.len() implies row_wf(
                        (#[trigger] ts2[k]).rows@,
                    ) by {
                        if k < ts0.len() {
                            assert(ts2[k] == ts0[k]);
                        } else {
                            assert(ts2[k] == row2);
                        }
                    }
                    assert forall|k: int| 0 <= k < ts2.len() implies row_sum(
                        (#[trigger] ts2[k]).rows@,
                    ) <= old(self).trained + 1 by {
                        if k < ts0.len() {
                            assert(ts2[k] == ts0[k]);
                            assert(row_sum(ts0[k].rows@) <= old(self).trained);
                        } else {
                            assert(ts2[k] == row2);
                        }
                    }
                    assert forall|c: Seq<char>, s: char| #[trigger] count_of(ts2, c, s) == count_of(
                        ts0,
                        c,
                        s,
                    ) + (if c == octx && s == symbol {
                        1nat
                    } else {
                        0nat
                    }) by {
                        if c == octx {
                            assert(rows_of(ts2, c) == row2.rows@);
                            assert(rows_of(ts0, c) == Seq::<SymbolCount>::empty());
                            lemma_row_empty(s);
                        } else {
                            assert(rows_of(ts2, c) == rows_of(ts0, c));
                        }
                    }
                    assert forall|c: Seq<char>| #[trigger] total_of(ts2, c) == total_of(ts0, c) + (
                    if c == octx {
                        1nat
                    } else {
                        0nat
                    }) by {
                        if c == octx {
                            assert(rows_of(ts2, c) == row2.rows@);
                            assert(rows_of(ts0, c) == Seq::<SymbolCount>::empty());
                            lemma_row_empty(symbol);
                        } else {
                            assert(rows_of(ts2, c) == rows_of(ts0, c));
                        }
                    }
                }
            },
        }
        self.trained = self.trained + 1;
    }

    /// Trains the model on a text: every window of `order + 1` consecutive
    /// characters bumps the count of its (context, symbol) pair by one. A
    /// text shorter than `order + 1` characters has no window and the call
    /// is a no-op. Counts only accumulate: training never removes an entry
    /// and never lowers a count.
    pub fn train(&mut self, text: &str)
        requires
            old(self).wf(),
            old(self).trained + text@.len() <= usize::MAX,
        ensures
            final(self).wf(),
            trains_to(*old(self), text@, *final(self)),
    {
        let order = self.order;
        let cs = chars_of(text);
        let n = cs.len();
        if n <= order {
            proof {
                assert(num_windows(text@, order as nat) == 0);
            }
            return;
        }
        let windows = n - order;
        let mut j: usize = 0;
        while j < windows
            invariant
                self.wf(),
                self.order == old(self).order,
                order == self.order,
                cs@ == text@,
                n == cs@.len(),
                order < n,
                windows == n - order,
                j <= windows,
                self.trained == old(self).trained + j,
                old(self).trained + text@.len() <= usize::MAX,
                forall|c: Seq<char>, s: char|
                    #[trigger] count_of(self.transitions@, c, s) == count_of(
                        old(self).transitions@,
                        c,
                        s,
                    ) + occurrences_upto(text@, order as nat, j as int, c, s),
                forall|c: Seq<char>|
                    #[trigger] has_context(self.transitions@, c) <==> (has_context(
                        old(self).transitions@,
                        c,
                    ) || context_occurrences_upto(text@, order as nat, j as int, c) > 0),
                forall|c: Seq<char>|
                    #[trigger] total_of(self.transitions@, c) == total_of(
                        old(self).transitions@,
                        c,
                    ) + context_occurrences_upto(text@, order as nat, j as int, c),
            decreases windows - j,
        {
            let ctx = copy_slice(&cs, j, j + order);
            let sym = cs[j + order];
            let ghost mid = *self;
            self.record(ctx, sym);
            proof {
                assert(window_context(text@, order as nat, j as int) == text@.subrange(
                    j as int,
                    j as int + order,
                ));
                assert forall|c: Seq<char>, s: char|
                    #[trigger] count_of(self.transitions@, c, s) == count_of(
                        old(self).transitions@,
                        c,
                        s,
                    ) + occurrences_upto(text@, order as nat, j as int + 1, c, s) by {
                    assert(count_of(self.transitions@, c, s) == count_of(mid.transitions@, c, s) + (
                    if c == text@.subrange(j as int, j as int + order) && s == text@[j as int
                        + order] {
                        1nat
                    } else {
                        0nat
                    }));
                }
                assert forall|c: Seq<char>|
                    #[trigger] has_context(self.transitions@, c) <==> (has_context(
                        old(self).transitions@,
                        c,
                    ) || context_occurrences_upto(text@, order as nat, j as int + 1, c) > 0) by {
                    assert(has_context(self.transitions@, c) <==> (has_context(
                        mid.transitions@,
                        c,
                    ) || c == text@.subrange(j as int, j as int + order)));
                }
                assert forall|c: Seq<char>|
                    #[trigger] total_of(self.transitions@, c) == total_of(
                        old(self).transitions@,
                        c,
                    ) + context_occurrences_upto(text@, order as nat, j as int + 1, c) by {
                    assert(total_of(self.transitions@, c) == total_of(mid.transitions@, c) + (
                    if c == text@.subrange(j as int, j as int + order) {
                        1nat
                    } else {
                        0nat
                    }));
                }
            }
            j = j + 1;
        }
        proof {
            assert(num_windows(text@, order as nat) == windows);
        }
    }
}

/// The context the generator reads at the end of `s`: its trailing `order`
/// characters, or all of `s` when it is shorter than `order` (in which case
/// no trained context can match and generation dead-ends).
pub open spec fn tail_context(s: Seq<char>, order: nat) -> Seq<char> {
    if s.len() <= order {
        s
    } else {
        s.subrange(s.len() - order, s.len() as int)
    }
}

/// Whether generation can extend `acc`: its current context has a row with
/// a positive total.
pub open spec fn can_step(ts: Seq<ContextRow>, order: nat, acc: Seq<char>) -> bool {
    &&& has_context(ts, tail_context(acc, order))
    &&& total_of(ts, tail_context(acc, order)) > 0
}

/// The symbol one generation step appends to `acc` when the draw is `d`:
/// the weighted selection over the current context's row, with the draw
/// reduced into `[0, total)`.
pub open spec fn step_symbol(ts: Seq<ContextRow>, order: nat, acc: Seq<char>, d: nat) -> char {
    spec_select(
        rows_of(ts, tail_context(acc, order)),
        d % total_of(ts, tail_context(acc, order)),
    )
}

/// One generation step: appends the selected symbol, or leaves `acc` alone
/// at a dead end.
pub open spec fn spec_step(ts: Seq<ContextRow>, order: nat, acc: Seq<char>, d: nat) -> Seq<char> {
    if can_step(ts, order, acc) {
        acc.push(step_symbol(ts, order, acc, d))
    } else {
        acc
    }
}

/// The full generation walk: up to `fuel` steps from `acc`, consuming one
/// draw per step, stopping early at a dead end.
pub open spec fn spec_walk(
    ts: Seq<ContextRow>,
    order: nat,
    acc: Seq<char>,
    fuel: nat,
    draws: Seq<nat>,
) -> Seq<char>
    decreases fuel,
{
    if fuel == 0 || !can_step(ts, order, acc) {
        acc
    } else {
        spec_walk(
            ts,
            order,
            spec_step(ts, order, acc, draws[0]),
            (fuel - 1) as nat,
            draws.drop_first(),
        )
    }
}

/// What generation guarantees of its output, whatever was drawn: the seed
/// is kept as a prefix, and every appended character was recorded in the
/// table after the context that precedes it.
pub open spec fn valid_extension(
    ts: Seq<ContextRow>,
    order: nat,
    seed: Seq<char>,
    out: Seq<char>,
) -> bool {
    &&& out.len() >= seed.len()
    &&& out.subrange(0, seed.len() as int) == seed
    &&& forall|i: int|
        seed.len() <= i < out.len() ==> count_of(
            ts,
            tail_context(out.subrange(0, i), order),
            #[trigger] out[i],
        ) > 0
}

proof fn lemma_skip_step<A>(s: Seq<A>, k: int)
    requires
        0 <= k < s.len(),
    ensures
        s.skip(k)[0] == s[k],
        s.skip(k).drop_first() == s.skip(k + 1),
{
    assert(s.skip(k).drop_first() =~= s.skip(k + 1));
}

/// In a well-formed table an in-range draw on a present context selects a
/// symbol whose recorded count is positive.
proof fn lemma_selected_count(ts: Seq<ContextRow>, order: nat, c: Seq<char>, d: nat)
    requires
        table_wf(ts, order),
        has_context(ts, c),
        d < row_sum(rows_of(ts, c)),
    ensures
        count_of(ts, c, spec_select(rows_of(ts, c), d)) > 0,
{
    let rs = rows_of(ts, c);
    let i = context_at(ts, c);
    assert(0 <= i < ts.len() && ts[i].context@ == c);
    assert(row_wf(ts[i].rows@));
    lemma_select_present(rs, d);
    let s = spec_select(rs, d);
    let j = symbol_at(rs, s);
    assert(0 <= j < rs.len() && rs[j].symbol == s);
    lemma_symbol_at(rs, s, j);
    assert(rs[j].count >= 1);
}

/// Appending a recorded symbol keeps an extension valid.
proof fn lemma_extension_push(
    ts: Seq<ContextRow>,
    order: nat,
    seed: Seq<char>,
    acc: Seq<char>,
    s: char,
)
    requires
        valid_extension(ts, order, seed, acc),
        count_of(ts, tail_context(acc, order), s) > 0,
    ensures
        valid_extension(ts, order, seed, acc.push(s)),
{
    let out = acc.push(s);
    assert(out.subrange(0, seed.len() as int) =~= seed);
    assert forall|i: int| seed.len() <= i < out.len() implies count_of(
        ts,
        tail_context(out.subrange(0, i), order),
        #[trigger] out[i],
    ) > 0 by {
        if i < acc.len() {
            assert(out.subrange(0, i) =~= acc.subrange(0, i));
            assert(out[i] == acc[i]);
        } else {
            assert(i == acc.len());
            assert(out.subrange(0, i) =~= acc);
            assert(out[i] == s);
        }
    }
}

/// Relies on rand's thread-local generator: `Rng::gen_range(0..n)` returns
/// a uniformly distributed integer in `[0, n)`; it panics only on an empty
/// range, which `n >= 1` rules out. Nothing more is assumed of the value.
#[verifier::external_body]
fn random_below(n: usize) -> (r: usize)
    requires
        1 <= n,
    ensures
        r < n,
{
    rand::Rng::gen_range(&mut rand::thread_rng(), 0..n)
}

/// Relies on String's FromIterator impl: collecting characters yields the
/// string of exactly those characters, in order.
#[verifier::external_body]
fn string_of_chars(v: Vec<char>) -> (s: String)
    ensures
        s@ == v@,
{
    v.into_iter().collect()
}

impl MarkovModel {
    /// The current context at the end of `result`, as the generator reads it.
    fn current_context(&self, result: &Vec<char>) -> (ctx: Vec<char>)
        ensures
            ctx@ == tail_context(result@, self.order as nat),
    {
        let len = result.len();
        let start = if len <= self.order {
            0
        } else {
            len - self.order
        };
        let ctx = copy_slice(result, start, len);
        proof {
            if result@.len() <= self.order as nat {
                assert(result@.subrange(0, len as int) =~= result@);
            }
        }
        ctx
    }

    /// Generates text: the seed followed by up to `length` characters drawn
    /// by weighted random walk over the table. The walk stops early only at
    /// a dead end (a context with no row), so the result is always the seed
    /// followed by recorded transitions, and a zero-length request returns
    /// the seed unchanged.
    pub fn generate(&self, seed: &str, length: usize) -> (out: String)
        requires
            self.wf(),
            seed@.len() + length <= usize::MAX,
        ensures
            out@.len() <= seed@.len() + length,
            valid_extension(self.transitions@, self.order as nat, seed@, out@),
            out@.len() < seed@.len() + length ==> !can_step(
                self.transitions@,
                self.order as nat,
                out@,
            ),
            length == 0 ==> out@ == seed@,
    {
        let mut result = chars_of(seed);
        proof {
            assert(result@.subrange(0, seed@.len() as int) =~= seed@);
        }
        let mut k: usize = 0;
        let mut dead = false;
        while k < length && !dead
            invariant
                self.wf(),
                seed@.len() + length <= usize::MAX,
                k <= length,
                result@.len() == seed@.len() + k,
                valid_extension(self.transitions@, self.order as nat, seed@, result@),
                dead ==> !can_step(self.transitions@, self.order as nat, result@),
            decreases length - k + (if dead {
                0int
            } else {
                1int
            }),
        {
            let ctx = self.current_context(&result);
            match find_context(&self.transitions, &ctx) {
                None => {
                    dead = true;
                },
                Some(i) => {
                    proof {
                        assert(row_wf(self.transitions@[i as int].rows@));
                        assert(row_sum(self.transitions@[i as int].rows@) <= self.trained);
                        lemma_row_sum_pos(self.transitions@[i as int].rows@);
                    }
                    let total = row_total(&self.transitions[i].rows);
                    let draw = random_below(total);
                    let s = select_symbol(&self.transitions[i].rows, draw);
                    proof {
                        lemma_selected_count(
                            self.transitions@,
                            self.order as nat,
                            ctx@,
                            draw as nat,
                        );
                        lemma_extension_push(
                            self.transitions@,
                            self.order as nat,
                            seed@,
                            result@,
                            s,
                        );
                    }
                    result.push(s);
                    k = k + 1;
                },
            }
        }
        proof {
            if result@.len() == seed@.len() {
                assert(result@ =~= seed@);
            }
        }
        string_of_chars(result)
    }

    /// Generates text exactly as `generate` does, but takes the draws from
    /// a fixed sequence (`draws[k]`, reduced into range, decides step `k`),
    /// so the result is a function of the model and the arguments alone:
    /// the walk `spec_walk` names in the contract.
    pub fn generate_with_draws(&self, seed: &str, length: usize, draws: &Vec<usize>) -> (out:
        String)
        requires
            self.wf(),
            draws@.len() >= length,
            seed@.len() + length <= usize::MAX,
        ensures
            out@ == spec_walk(
                self.transitions@,
                self.order as nat,
                seed@,
                length as nat,
                draws@.map_values(|d: usize| d as nat),
            ),
            out@.len() <= seed@.len() + length,
            valid_extension(self.transitions@, self.order as nat, seed@, out@),
            length == 0 ==> out@ == seed@,
    {
        let ghost dr = draws@.map_values(|d: usize| d as nat);
        let mut result = chars_of(seed);
        proof {
            assert(result@.subrange(0, seed@.len() as int) =~= seed@);
            assert(dr.skip(0) =~= dr);
        }
        let mut k: usize = 0;
        let mut dead = false;
        while k < length && !dead
            invariant
                self.wf(),
                dr == draws@.map_values(|d: usize| d as nat),
                draws@.len() >= length,
                seed@.len() + length <= usize::MAX,
                k <= length,
                result@.len() == seed@.len() + k,
                valid_extension(self.transitions@, self.order as nat, seed@, result@),
                dead ==> !can_step(self.transitions@, self.order as nat, result@),
                spec_walk(self.transitions@, self.order as nat, seed@, length as nat, dr)
                    == spec_walk(
                    self.transitions@,
                    self.order as nat,
                    result@,
                    (length - k) as nat,
                    dr.skip(k as int),
                ),
            decreases length - k + (if dead {
                0int
            } else {
                1int
            }),
        {
            let ctx = self.current_context(&result);
            match find_context(&self.transitions, &ctx) {
                None => {
                    dead = true;
                },
                Some(i) => {
                    proof {
                        assert(row_wf(self.transitions@[i as int].rows@));
                        assert(row_sum(self.transitions@[i as int].rows@) <= self.trained);
                        lemma_row_sum_pos(self.transitions@[i as int].rows@);
                    }
                    let total = row_total(&self.transitions[i].rows);
                    let d = draws[k] % total;
                    let s = select_symbol(&self.transitions[i].rows, d);
                    proof {
                        lemma_selected_count(self.transitions@, self.order as nat, ctx@, d as nat);
                        lemma_extension_push(
                            self.transitions@,
                            self.order as nat,
                            seed@,
                            result@,
                            s,
                        );
                        lemma_skip_step(dr, k as int);
                        assert(dr[k as int] == draws@[k as int] as nat);
                        assert(can_step(self.transitions@, self.order as nat, result@));
                        assert(s == step_symbol(
                            self.transitions@,
                            self.order as nat,
                            result@,
                            dr[k as int],
                        ));
                        assert(spec_step(self.transitions@, self.order as nat, result@, dr[k as int])
                            == result@.push(s));
                    }
                    result.push(s);
                    k = k + 1;
                },
            }
        }
        proof {
            if result@.len() == seed@.len() {
                assert(result@ =~= seed@);
            }
        }
        string_of_chars(result)
    }

    /// How many training windows the model has recorded over all calls
    /// (callers use it to keep the training totals within `usize`).
    pub fn windows_trained(&self) -> (r: usize)
        ensures
            r == self.trained,
    {
        self.trained
    }

    /// The count recorded for `context` followed by `symbol`; zero when the
    /// pair was never seen in training.
    pub fn transition_count(&self, context: &str, symbol: char) -> (r: usize)
        requires
            self.wf(),
        ensures
            r as nat == count_of(self.transitions@, context@, symbol),
    {
        let ctx = chars_of(context);
        match find_context(&self.transitions, &ctx) {
            None => {
                proof {
                    lemma_row_empty(symbol);
                }
                0
            },
            Some(i) => {
                proof {
                    assert(row_wf(self.transitions@[i as int].rows@));
                }
                let (found, p) = find_symbol_position(&self.transitions[i].rows, symbol);
                if found {
                    self.transitions[i].rows[p].count
                } else {
                    0
                }
            },
        }
    }

    /// The sum of all next-symbol counts recorded for `context`; zero when
    /// the context was never seen in training.
    pub fn context_total(&self, context: &str) -> (r: usize)
        requires
            self.wf(),
        ensures
            r as nat == total_of(self.transitions@, context@),
    {
        let ctx = chars_of(context);
        match find_context(&self.transitions, &ctx) {
            None => {
                proof {
                    lemma_row_empty('\0');
                }
                0
            },
            Some(i) => {
                proof {
                    assert(row_sum(self.transitions@[i as int].rows@) <= self.trained);
                }
                row_total(&self.transitions[i].rows)
            },
        }
    }
}

} // verus!
