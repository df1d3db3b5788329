//! The transition table: learned symbol-transition counts.
//!
//! The table is a sequence of rows, one per context (a string of exactly
//! `order` characters, unique across rows). Each row holds the next-symbol
//! counts for its context, kept strictly sorted by symbol so that the order
//! in which generation visits the entries is explicit and deterministic.
//!
//! The spec functions here read the sequence as a finite map: `count_of`
//! gives the count recorded for a (context, symbol) pair (zero when absent)
//! and `total_of` the sum of all counts recorded for a context.

use vstd::prelude::*;

verus! {

/// One next-symbol entry of a context row: `symbol` was seen `count` times.
pub struct SymbolCount {
    pub symbol: char,
    pub count: usize,
}

/// All next-symbol counts recorded for one context.
pub struct ContextRow {
    pub context: Vec<char>,
    pub rows: Vec<SymbolCount>,
}

/// The entries are strictly ascending by symbol (hence symbols are unique).
pub open spec fn sorted_symbols(rs: Seq<SymbolCount>) -> bool {
    forall|j: int, k: int| 0 <= j < k < rs.len() ==> rs[j].symbol < rs[k].symbol
}

/// A well-formed row: non-empty, sorted, every count at least one.
pub open spec fn row_wf(rs: Seq<SymbolCount>) -> bool {
    &&& rs.len() > 0
    &&& sorted_symbols(rs)
    &&& forall|j: int| 0 <= j < rs.len() ==> (#[trigger] rs[j]).count >= 1
}

/// Whether some entry of the row is for symbol `s`.
pub open spec fn has_symbol(rs: Seq<SymbolCount>, s: char) -> bool {
    exists|j: int| 0 <= j < rs.len() && rs[j].symbol == s
}

/// The index of the entry for symbol `s` (meaningful only when present).
pub open spec fn symbol_at(rs: Seq<SymbolCount>, s: char) -> int {
    choose|j: int| 0 <= j < rs.len() && rs[j].symbol == s
}

/// The count the row records for symbol `s`; zero when `s` has no entry.
pub open spec fn row_count(rs: Seq<SymbolCount>, s: char) -> nat {
    if has_symbol(rs, s) {
        rs[symbol_at(rs, s)].count as nat
    } else {
        0
    }
}

/// The sum of all counts of the row.
pub open spec fn row_sum(rs: Seq<SymbolCount>) -> nat
    decreases rs.len(),
{
    if rs.len() == 0 {
        0
    } else {
        rs[0].count as nat + row_sum(rs.drop_first())
    }
}

/// No two rows of the table are for the same context.
pub open spec fn contexts_unique(ts: Seq<ContextRow>) -> bool {
    forall|i: int, j: int| 0 <= i < j < ts.len() ==> ts[i].context@ != ts[j].context@
}

/// Whether the table has a row for context `c`.
pub open spec fn has_context(ts: Seq<ContextRow>, c: Seq<char>) -> bool {
    exists|i: int| 0 <= i < ts.len() && ts[i].context@ == c
}

/// The index of the row for context `c` (meaningful only when present).
pub open spec fn context_at(ts: Seq<ContextRow>, c: Seq<char>) -> int {
    choose|i: int| 0 <= i < ts.len() && ts[i].context@ == c
}

/// The entries recorded for context `c`; empty when `c` has no row.
pub open spec fn rows_of(ts: Seq<ContextRow>, c: Seq<char>) -> Seq<SymbolCount> {
    if has_context(ts, c) {
        ts[context_at(ts, c)].rows@
    } else {
        Seq::empty()
    }
}

/// The count recorded for context `c` followed by symbol `s`; zero when the
/// pair was never seen.
pub open spec fn count_of(ts: Seq<ContextRow>, c: Seq<char>, s: char) -> nat {
    row_count(rows_of(ts, c), s)
}

/// The sum of all next-symbol counts recorded for context `c`.
pub open spec fn total_of(ts: Seq<ContextRow>, c: Seq<char>) -> nat {
    row_sum(rows_of(ts, c))
}

/// The shape every table keeps: unique context keys of length `order`,
/// each row well-formed.
pub open spec fn table_wf(ts: Seq<ContextRow>, order: nat) -> bool {
    &&& contexts_unique(ts)
    &&& forall|i: int| 0 <= i < ts.len() ==> (#[trigger] ts[i]).context@.len() == order
    &&& forall|i: int| 0 <= i < ts.len() ==> row_wf((#[trigger] ts[i]).rows@)
}

/// Every row's sum of counts is at most `bound` (each training window adds
/// one to exactly one row, so the number of windows trained so far bounds
/// every row sum; this is what keeps the exec arithmetic from overflowing).
pub open spec fn sums_bounded(ts: Seq<ContextRow>, bound: nat) -> bool {
    forall|i: int| 0 <= i < ts.len() ==> row_sum((#[trigger] ts[i]).rows@) <= bound
}

/// In a sorted row the entry for a symbol is unique, so `symbol_at` returns
/// the index of any entry known to carry it.
pub proof fn lemma_symbol_at(rs: Seq<SymbolCount>, s: char, j: int)
    requires
        sorted_symbols(rs),
        0 <= j < rs.len(),
        rs[j].symbol == s,
    ensures
        has_symbol(rs, s),
        symbol_at(rs, s) == j,
        row_count(rs, s) == rs[j].count,
{
    assert(has_symbol(rs, s));
    let k = symbol_at(rs, s);
    assert(0 <= k < rs.len() && rs[k].symbol == s);
    if k < j {
        assert(rs[k].symbol < rs[j].symbol);
        assert(false);
    } else if j < k {
        assert(rs[j].symbol < rs[k].symbol);
        assert(false);
    }
}

/// With unique contexts, `context_at` returns the index of any row known to
/// carry the context.
pub proof fn lemma_context_at(ts: Seq<ContextRow>, c: Seq<char>, i: int)
    requires
        contexts_unique(ts),
        0 <= i < ts.len(),
        ts[i].context@ == c,
    ensures
        has_context(ts, c),
        context_at(ts, c) == i,
        rows_of(ts, c) == ts[i].rows@,
{
    assert(has_context(ts, c));
    let k = context_at(ts, c);
    assert(0 <= k < ts.len() && ts[k].context@ == c);
    if k < i {
        assert(ts[k].context@ != ts[i].context@);
        assert(false);
    } else if i < k {
        assert(ts[i].context@ != ts[k].context@);
        assert(false);
    }
}

/// A well-formed row has a positive sum of counts.
pub proof fn lemma_row_sum_pos(rs: Seq<SymbolCount>)
    requires
        row_wf(rs),
    ensures
        row_sum(rs) >= 1,
{
    assert(rs[0].count >= 1);
    assert(row_sum(rs) == rs[0].count + row_sum(rs.drop_first()));
}

/// Peeling one entry off the front of a suffix of a row.
pub proof fn lemma_row_sum_skip(rs: Seq<SymbolCount>, i: int)
    requires
        0 <= i < rs.len(),
    ensures
        row_sum(rs.skip(i)) == rs[i].count + row_sum(rs.skip(i + 1)),
{
    assert(rs.skip(i)[0] == rs[i]);
    assert(rs.skip(i).drop_first() =~= rs.skip(i + 1));
}

/// The empty row records nothing.
pub proof fn lemma_row_empty(s: char)
    ensures
        row_count(Seq::<SymbolCount>::empty(), s) == 0,
        row_sum(Seq::<SymbolCount>::empty()) == 0,
{
    if has_symbol(Seq::<SymbolCount>::empty(), s) {
        let j = symbol_at(Seq::<SymbolCount>::empty(), s);
        assert(0 <= j < 0);
        assert(false);
    }
}

/// Each entry's count is at most the sum of the row's counts.
pub proof fn lemma_count_le_row_sum(rs: Seq<SymbolCount>, j: int)
    requires
        0 <= j < rs.len(),
    ensures
        rs[j].count <= row_sum(rs),
    decreases j,
{
    if j == 0 {
    } else {
        lemma_count_le_row_sum(rs.drop_first(), j - 1);
        assert(rs.drop_first()[j - 1] == rs[j]);
    }
}

/// Replacing one entry changes the sum by the difference of the counts.
pub proof fn lemma_row_sum_update(rs: Seq<SymbolCount>, p: int, e: SymbolCount)
    requires
        0 <= p < rs.len(),
    ensures
        row_sum(rs.update(p, e)) + rs[p].count == row_sum(rs) + e.count,
    decreases p,
{
    let rs2 = rs.update(p, e);
    if p == 0 {
        assert(rs2[0] == e);
        assert(rs2.drop_first() =~= rs.drop_first());
    } else {
        assert(rs2[0] == rs[0]);
        assert(rs2.drop_first() =~= rs.drop_first().update(p - 1, e));
        lemma_row_sum_update(rs.drop_first(), p - 1, e);
        assert(rs.drop_first()[p - 1] == rs[p]);
    }
}

/// Inserting an entry adds its count to the sum.
pub proof fn lemma_row_sum_insert(rs: Seq<SymbolCount>, p: int, e: SymbolCount)
    requires
        0 <= p <= rs.len(),
    ensures
        row_sum(rs.insert(p, e)) == row_sum(rs) + e.count,
    decreases p,
{
    let rs2 = rs.insert(p, e);
    rs.insert_ensures(p, e);
    if p == 0 {
        assert(rs2[0] == e);
        assert(rs2.drop_first() =~= rs);
    } else {
        assert(rs2[0] == rs[0]);
        assert(rs2.drop_first() =~= rs.drop_first().insert(p - 1, e));
        lemma_row_sum_insert(rs.drop_first(), p - 1, e);
    }
}

/// Replacing the entry of one symbol (keeping the symbol) changes only that
/// symbol's count.
pub proof fn lemma_row_update_counts(rs: Seq<SymbolCount>, p: int, e: SymbolCount)
    requires
        sorted_symbols(rs),
        0 <= p < rs.len(),
        e.symbol == rs[p].symbol,
    ensures
        sorted_symbols(rs.update(p, e)),
        forall|s: char| #[trigger] row_count(rs.update(p, e), s) == if s == e.symbol {
            e.count as nat
        } else {
            row_count(rs, s)
        },
{
    let rs2 = rs.update(p, e);
    assert(forall|k: int| 0 <= k < rs2.len() ==> (#[trigger] rs2[k]).symbol == rs[k].symbol);
    assert forall|s: char| #[trigger] row_count(rs2, s) == if s == e.symbol {
        e.count as nat
    } else {
        row_count(rs, s)
    } by {
        if s == e.symbol {
            lemma_symbol_at(rs2, s, p);
        } else {
            if has_symbol(rs, s) {
                let j = symbol_at(rs, s);
                assert(0 <= j < rs.len() && rs[j].symbol == s);
                assert(j != p);
                lemma_symbol_at(rs, s, j);
                lemma_symbol_at(rs2, s, j);
            } else {
                if has_symbol(rs2, s) {
                    let k = symbol_at(rs2, s);
                    assert(0 <= k < rs2.len() && rs2[k].symbol == s);
                    assert(rs[k].symbol == s);
                    assert(false);
                }
            }
        }
    }
}

/// Inserting an entry for a fresh symbol at its sorted position keeps the
/// row sorted and gives that symbol its count, leaving the others unchanged.
pub proof fn lemma_row_insert_counts(rs: Seq<SymbolCount>, p: int, e: SymbolCount)
    requires
        sorted_symbols(rs),
        0 <= p <= rs.len(),
        forall|k: int| 0 <= k < p ==> (#[trigger] rs[k]).symbol < e.symbol,
        forall|k: int| p <= k < rs.len() ==> e.symbol < (#[trigger] rs[k]).symbol,
    ensures
        sorted_symbols(rs.insert(p, e)),
        forall|s: char| #[trigger] row_count(rs.insert(p, e), s) == if s == e.symbol {
            e.count as nat
        } else {
            row_count(rs, s)
        },
{
    rs.insert_ensures(p, e);
    let rs2 = rs.insert(p, e);
    assert forall|j: int, k: int| 0 <= j < k < rs2.len() implies rs2[j].symbol < rs2[k].symbol by {
        if j < p {
            assert(rs2[j] == rs[j]);
        } else if j == p {
            assert(rs2[j] == e);
        } else {
            assert(rs2[j] == rs[j - 1]);
        }
        if k < p {
            assert(rs2[k] == rs[k]);
        } else if k == p {
            assert(rs2[k] == e);
        } else {
            assert(rs2[k] == rs[k - 1]);
        }
    }
    assert forall|s: char| #[trigger] row_count(rs2, s) == if s == e.symbol {
        e.count as nat
    } else {
        row_count(rs, s)
    } by {
        if s == e.symbol {
            assert(rs2[p] == e);
            lemma_symbol_at(rs2, s, p);
        } else {
            if has_symbol(rs, s) {
                let j = symbol_at(rs, s);
                assert(0 <= j < rs.len() && rs[j].symbol == s);
                lemma_symbol_at(rs, s, j);
                if j < p {
                    assert(rs2[j] == rs[j]);
                    lemma_symbol_at(rs2, s, j);
                } else {
                    assert(rs2[j + 1] == rs[j]);
                    lemma_symbol_at(rs2, s, j + 1);
                }
            } else {
                if has_symbol(rs2, s) {
                    let k = symbol_at(rs2, s);
                    assert(0 <= k < rs2.len() && rs2[k].symbol == s);
                    if k < p {
                        assert(rs[k].symbol == s);
                    } else if k > p {
                        assert(rs[k - 1].symbol == s);
                    }
                    assert(false);
                }
            }
        }
    }
}

/// The count map of a one-entry row.
pub proof fn lemma_row_singleton(e: SymbolCount)
    ensures
        sorted_symbols(seq![e]),
        row_sum(seq![e]) == e.count,
        forall|s: char| #[trigger] row_count(seq![e], s) == if s == e.symbol {
            e.count as nat
        } else {
            0nat
        },
{
    let rs = seq![e];
    assert(rs.drop_first() =~= Seq::<SymbolCount>::empty());
    assert(row_sum(rs) == e.count + row_sum(rs.drop_first()));
    assert forall|s: char| #[trigger] row_count(rs, s) == if s == e.symbol {
        e.count as nat
    } else {
        0nat
    } by {
        if s == e.symbol {
            lemma_symbol_at(rs, s, 0);
        } else {
            if has_symbol(rs, s) {
                let k = symbol_at(rs, s);
                assert(0 <= k < rs.len() && rs[k].symbol == s);
                assert(false);
            }
        }
    }
}

/// Replacing one row of the table (keeping its context key) rebinds that
/// context to the new entries and leaves every other context untouched.
pub proof fn lemma_table_update(ts: Seq<ContextRow>, i: int, row2: ContextRow)
    requires
        contexts_unique(ts),
        0 <= i < ts.len(),
        row2.context@ == ts[i].context@,
    ensures
        contexts_unique(ts.update(i, row2)),
        forall|c: Seq<char>|
            #[trigger] has_context(ts.update(i, row2), c) <==> has_context(ts, c),
        rows_of(ts.update(i, row2), ts[i].context@) == row2.rows@,
        forall|c: Seq<char>| c != ts[i].context@ ==> #[trigger] rows_of(ts.update(i, row2), c)
            == rows_of(ts, c),
{
    let ts2 = ts.update(i, row2);
    assert(forall|k: int| 0 <= k < ts2.len() ==> (#[trigger] ts2[k]).context@ == ts[k].context@);
    assert forall|c: Seq<char>| #[trigger] has_context(ts2, c) <==> has_context(ts, c) by {
        if has_context(ts, c) {
            let k = context_at(ts, c);
            assert(0 <= k < ts.len() && ts[k].context@ == c);
            assert(ts2[k].context@ == c);
            assert(has_context(ts2, c));
        }
        if has_context(ts2, c) {
            let k = context_at(ts2, c);
            assert(0 <= k < ts2.len() && ts2[k].context@ == c);
            assert(ts[k].context@ == c);
            assert(has_context(ts, c));
        }
    }
    lemma_context_at(ts2, ts[i].context@, i);
    assert forall|c: Seq<char>| c != ts[i].context@ implies #[trigger] rows_of(ts2, c) == rows_of(
        ts,
        c,
    ) by {
        if has_context(ts, c) {
            let k = context_at(ts, c);
            assert(0 <= k < ts.len() && ts[k].context@ == c);
            lemma_context_at(ts, c, k);
            assert(k != i);
            lemma_context_at(ts2, c, k);
        }
    }
}

/// Appending a row for a fresh context adds that one key and leaves every
/// other context untouched.
pub proof fn lemma_table_push(ts: Seq<ContextRow>, row: ContextRow)
    requires
        contexts_unique(ts),
        !has_context(ts, row.context@),
    ensures
        contexts_unique(ts.push(row)),
        forall|c: Seq<char>|
            #[trigger] has_context(ts.push(row), c) <==> (has_context(ts, c) || c
                == row.context@),
        rows_of(ts.push(row), row.context@) == row.rows@,
        forall|c: Seq<char>| c != row.context@ ==> #[trigger] rows_of(ts.push(row), c) == rows_of(
            ts,
            c,
        ),
{
    let ts2 = ts.push(row);
    assert(forall|k: int| 0 <= k < ts.len() ==> (#[trigger] ts2[k]) == ts[k]);
    assert(ts2[ts.len() as int] == row);
    assert forall|i: int, j: int| 0 <= i < j < ts2.len() implies ts2[i].context@
        != ts2[j].context@ by {
        if j < ts.len() {
        } else {
            assert(ts2[j] == row);
            if ts2[i].context@ == row.context@ {
                assert(has_context(ts, row.context@));
            }
        }
    }
    assert forall|c: Seq<char>| #[trigger] has_context(ts2, c) <==> (has_context(ts, c) || c
        == row.context@) by {
        if has_context(ts, c) {
            let k = context_at(ts, c);
            assert(0 <= k < ts.len() && ts[k].context@ == c);
            assert(ts2[k].context@ == c);
        }
        if c == row.context@ {
            assert(ts2[ts.len() as int].context@ == c);
        }
        if has_context(ts2, c) {
            let k = context_at(ts2, c);
            assert(0 <= k < ts2.len() && ts2[k].context@ == c);
            if k < ts.len() {
                assert(has_context(ts, c));
            } else {
                assert(c == row.context@);
            }
        }
    }
    lemma_context_at(ts2, row.context@, ts.len() as int);
    assert forall|c: Seq<char>| c != row.context@ implies #[trigger] rows_of(ts2, c) == rows_of(
        ts,
        c,
    ) by {
        if has_context(ts, c) {
            let k = context_at(ts, c);
            assert(0 <= k < ts.len() && ts[k].context@ == c);
            lemma_context_at(ts, c, k);
            lemma_context_at(ts2, c, k);
        }
    }
}

/// The symbol the weighted draw `d` selects: entries are visited in row
/// order, counts are accumulated, and the first entry whose cumulative count
/// exceeds `d` wins. Meaningful only for `d < row_sum(rs)`.
pub open spec fn spec_select(rs: Seq<SymbolCount>, d: nat) -> char
    decreases rs.len(),
{
    if rs.len() == 0 {
        '\0'
    } else if d < rs[0].count {
        rs[0].symbol
    } else {
        spec_select(rs.drop_first(), (d - rs[0].count) as nat)
    }
}

/// An in-range draw always selects a symbol that has an entry in the row.
pub proof fn lemma_select_present(rs: Seq<SymbolCount>, d: nat)
    requires
        d < row_sum(rs),
    ensures
        has_symbol(rs, spec_select(rs, d)),
    decreases rs.len(),
{
    assert(rs.len() > 0);
    if d < rs[0].count {
        assert(rs[0].symbol == spec_select(rs, d));
    } else {
        lemma_select_present(rs.drop_first(), (d - rs[0].count) as nat);
        let s = spec_select(rs.drop_first(), (d - rs[0].count) as nat);
        let k = choose|j: int| 0 <= j < rs.drop_first().len() && rs.drop_first()[j].symbol == s;
        assert(rs[k + 1].symbol == s);
    }
}

/// Whether two character vectors hold the same characters.
pub fn chars_eq(a: &Vec<char>, b: &Vec<char>) -> (r: bool)
    ensures
        r <==> a@ == b@,
{
    if a.len() != b.len() {
        return false;
    }
    let mut i: usize = 0;
    while i < a.len()
        invariant
            i <= a@.len(),
            a@.len() == b@.len(),
            forall|k: int| 0 <= k < i ==> a@[k] == b@[k],
        decreases a@.len() - i,
    {
        if a[i] != b[i] {
            return false;
        }
        i = i + 1;
    }
    proof {
        assert(a@ =~= b@);
    }
    true
}

/// Finds the row for context `c`, scanning the table in order.
pub fn find_context(ts: &Vec<ContextRow>, c: &Vec<char>) -> (r: Option<usize>)
    requires
        contexts_unique(ts@),
    ensures
        match r {
            Some(i) => i < ts@.len() && ts@[i as int].context@ == c@ && has_context(ts@, c@)
                && context_at(ts@, c@) == i as int,
            None => !has_context(ts@, c@),
        },
{
    let mut i: usize = 0;
    while i < ts.len()
        invariant
            contexts_unique(ts@),
            i <= ts@.len(),
            forall|k: int| 0 <= k < i ==> (#[trigger] ts@[k]).context@ != c@,
        decreases ts@.len() - i,
    {
        if chars_eq(&ts[i].context, c) {
            proof {
                lemma_context_at(ts@, c@, i as int);
            }
            return Some(i);
        }
        i = i + 1;
    }
    proof {
        if has_context(ts@, c@) {
            let k = context_at(ts@, c@);
            assert(0 <= k < ts@.len() && ts@[k].context@ == c@);
            assert(false);
        }
    }
    None
}

/// Finds where symbol `s` stands, or belongs, in a sorted row: returns
/// `(found, p)` with `p` the index of the entry for `s` when `found`, and
/// otherwise the position at which an entry for `s` would be inserted.
pub fn find_symbol_position(rs: &Vec<SymbolCount>, s: char) -> (r: (bool, usize))
    requires
        sorted_symbols(rs@),
    ensures
        r.1 <= rs@.len(),
        forall|k: int| 0 <= k < r.1 ==> (#[trigger] rs@[k]).symbol < s,
        r.0 ==> r.1 < rs@.len() && rs@[r.1 as int].symbol == s && has_symbol(rs@, s) && symbol_at(
            rs@,
            s,
        ) == r.1 as int,
        !r.0 ==> !has_symbol(rs@, s) && forall|k: int|
            r.1 <= k < rs@.len() ==> s < (#[trigger] rs@[k]).symbol,
{
    let mut i: usize = 0;
    while i < rs.len()
        invariant
            sorted_symbols(rs@),
            i <= rs@.len(),
            forall|k: int| 0 <= k < i ==> (#[trigger] rs@[k]).symbol < s,
        decreases rs@.len() - i,
    {
        if rs[i].symbol == s {
            proof {
                lemma_symbol_at(rs@, s, i as int);
            }
            return (true, i);
        }
        if s < rs[i].symbol {
            proof {
                assert forall|k: int| i <= k < rs@.len() implies s < (#[trigger] rs@[k]).symbol by {
                    if k > i {
                        assert(rs@[i as int].symbol < rs@[k].symbol);
                    }
                }
                if has_symbol(rs@, s) {
                    let k = symbol_at(rs@, s);
                    assert(0 <= k < rs@.len() && rs@[k].symbol == s);
                    assert(false);
                }
            }
            return (false, i);
        }
        i = i + 1;
    }
    proof {
        if has_symbol(rs@, s) {
            let k = symbol_at(rs@, s);
            assert(0 <= k < rs@.len() && rs@[k].symbol == s);
            assert(false);
        }
    }
    (false, i)
}

/// The sum of all counts of a row, as the generator's draw bound.
pub fn row_total(rs: &Vec<SymbolCount>) -> (t: usize)
    requires
        row_sum(rs@) <= usize::MAX,
    ensures
        t == row_sum(rs@),
{
    let mut t: usize = 0;
    let mut i: usize = 0;
    proof {
        assert(rs@.skip(0) =~= rs@);
    }
    while i < rs.len()
        invariant
            i <= rs@.len(),
            row_sum(rs@) <= usize::MAX,
            t + row_sum(rs@.skip(i as int)) == row_sum(rs@),
        decreases rs@.len() - i,
    {
        proof {
            lemma_row_sum_skip(rs@, i as int);
        }
        t = t + rs[i].count;
        i = i + 1;
    }
    proof {
        assert(rs@.skip(i as int) =~= Seq::<SymbolCount>::empty());
    }
    t
}

/// Walks the row in order accumulating counts and returns the first symbol
/// whose cumulative count exceeds the draw.
pub fn select_symbol(rs: &Vec<SymbolCount>, draw: usize) -> (c: char)
    requires
        draw < row_sum(rs@),
    ensures
        c == spec_select(rs@, draw as nat),
{
    let mut i: usize = 0;
    let mut d: usize = draw;
    proof {
        assert(rs@.skip(0) =~= rs@);
    }
    while i < rs.len()
        invariant
            i <= rs@.len(),
            d <= draw,
            d < row_sum(rs@.skip(i as int)),
            spec_select(rs@, draw as nat) == spec_select(rs@.skip(i as int), d as nat),
        decreases rs@.len() - i,
    {
        proof {
            lemma_row_sum_skip(rs@, i as int);
            assert(rs@.skip(i as int)[0] == rs@[i as int]);
            assert(rs@.skip(i as int).drop_first() =~= rs@.skip(i as int + 1));
        }
        if d < rs[i].count {
            return rs[i].symbol;
        }
        d = d - rs[i].count;
        i = i + 1;
    }
    proof {
        assert(rs@.skip(i as int) =~= Seq::<SymbolCount>::empty());
        assert(false);
    }
    '\0'
}

} // verus!
