//! Laws the model obeys, proved once and for all from the training and
//! generation contracts.

use vstd::prelude::*;

use crate::markov::{spec_walk, tail_context, trains_to, valid_extension, MarkovModel};
use crate::table::{count_of, has_context, lemma_row_empty, total_of, ContextRow};
use crate::text::context_occurrences;

verus! {

/// Conservation: starting from an untrained model, after training on `a`
/// and then on `b` the sum of every context's next-symbol counts equals the
/// number of windows with that context observed across the two calls.
pub proof fn lemma_conservation(
    m0: MarkovModel,
    m1: MarkovModel,
    m2: MarkovModel,
    a: Seq<char>,
    b: Seq<char>,
)
    requires
        forall|c: Seq<char>| #[trigger] total_of(m0.transitions@, c) == 0,
        trains_to(m0, a, m1),
        trains_to(m1, b, m2),
    ensures
        forall|c: Seq<char>|
            #[trigger] total_of(m2.transitions@, c) == context_occurrences(a, m0.order as nat, c)
                + context_occurrences(b, m0.order as nat, c),
{
}

/// Commutativity: training corpus `a` then corpus `b` yields a table
/// identical — the same contexts, the same counts, the same totals — to
/// training `b` then `a`.
pub proof fn lemma_train_commutes(
    m0: MarkovModel,
    ma: MarkovModel,
    mab: MarkovModel,
    mb: MarkovModel,
    mba: MarkovModel,
    a: Seq<char>,
    b: Seq<char>,
)
    requires
        trains_to(m0, a, ma),
        trains_to(ma, b, mab),
        trains_to(m0, b, mb),
        trains_to(mb, a, mba),
    ensures
        forall|c: Seq<char>, s: char|
            #[trigger] count_of(mab.transitions@, c, s) == count_of(mba.transitions@, c, s),
        forall|c: Seq<char>|
            #[trigger] has_context(mab.transitions@, c) <==> has_context(mba.transitions@, c),
        forall|c: Seq<char>|
            #[trigger] total_of(mab.transitions@, c) == total_of(mba.transitions@, c),
        mab.order == mba.order,
        mab.trained == mba.trained,
{
}

/// Additive accumulation: training the same text twice adds the same
/// contribution both times, so relative to the starting table the counts
/// after the second call are exactly double those after the first. From an
/// untrained model this reads: twice-trained counts are double
/// once-trained counts.
pub proof fn lemma_train_twice_doubles(
    m0: MarkovModel,
    m1: MarkovModel,
    m2: MarkovModel,
    t: Seq<char>,
)
    requires
        trains_to(m0, t, m1),
        trains_to(m1, t, m2),
    ensures
        forall|c: Seq<char>, s: char|
            #[trigger] count_of(m2.transitions@, c, s) + count_of(m0.transitions@, c, s) == 2
                * count_of(m1.transitions@, c, s),
        forall|c: Seq<char>|
            #[trigger] total_of(m2.transitions@, c) + total_of(m0.transitions@, c) == 2 * total_of(
                m1.transitions@,
                c,
            ),
{
}

/// Accumulation only: training never removes a context and never lowers a
/// count.
pub proof fn lemma_train_monotone(m0: MarkovModel, m1: MarkovModel, t: Seq<char>)
    requires
        trains_to(m0, t, m1),
    ensures
        forall|c: Seq<char>, s: char|
            #[trigger] count_of(m1.transitions@, c, s) >= count_of(m0.transitions@, c, s),
        forall|c: Seq<char>|
            #[trigger] has_context(m0.transitions@, c) ==> has_context(m1.transitions@, c),
        forall|c: Seq<char>|
            #[trigger] total_of(m1.transitions@, c) >= total_of(m0.transitions@, c),
{
}

/// Determinism under fixed draws: the walk is a function of the table and
/// the arguments alone, so two generations from the same model, seed,
/// length and draw sequence produce identical output.
pub proof fn lemma_walk_deterministic(
    m: MarkovModel,
    seed: Seq<char>,
    length: nat,
    draws: Seq<nat>,
    out1: Seq<char>,
    out2: Seq<char>,
)
    requires
        out1 == spec_walk(m.transitions@, m.order as nat, seed, length, draws),
        out2 == spec_walk(m.transitions@, m.order as nat, seed, length, draws),
    ensures
        out1 == out2,
{
}

/// Untrained context: a table with no contexts at all cannot extend any
/// seed, so generation returns the seed unchanged.
pub proof fn lemma_untrained_extends_nothing(
    ts: Seq<ContextRow>,
    order: nat,
    seed: Seq<char>,
    out: Seq<char>,
)
    requires
        forall|c: Seq<char>| !(#[trigger] has_context(ts, c)),
        valid_extension(ts, order, seed, out),
    ensures
        out == seed,
{
    if out.len() > seed.len() {
        let i = seed.len() as int;
        assert(count_of(ts, tail_context(out.subrange(0, i), order), out[i]) > 0);
        lemma_row_empty(out[i]);
        assert(false);
    }
    assert(out.subrange(0, seed.len() as int) =~= out);
}

} // verus!
