use llm_host::markov::MarkovModel;

// Training on "abcabcabc" with order 2 yields exactly the contexts
// "ab" -> {c: 3}, "bc" -> {a: 2}, "ca" -> {b: 2}.
#[test]
fn train_counts_exact() {
    let mut m = MarkovModel::new(2);
    m.train("abcabcabc");
    assert_eq!(m.transition_count("ab", 'c'), 3);
    assert_eq!(m.transition_count("bc", 'a'), 2);
    assert_eq!(m.transition_count("ca", 'b'), 2);
    assert_eq!(m.transition_count("ab", 'a'), 0);
    assert_eq!(m.transition_count("xy", 'z'), 0);
    assert_eq!(m.windows_trained(), 7);
}

// Conservation: each context's total equals the number of windows that
// showed it, across training calls.
#[test]
fn conservation_totals() {
    let mut m = MarkovModel::new(2);
    m.train("abcabcabc");
    assert_eq!(m.context_total("ab"), 3);
    assert_eq!(m.context_total("bc"), 2);
    assert_eq!(m.context_total("ca"), 2);
    assert_eq!(m.context_total("zz"), 0);
    m.train("abx");
    assert_eq!(m.context_total("ab"), 4);
    assert_eq!(m.transition_count("ab", 'x'), 1);
    assert_eq!(m.transition_count("ab", 'c'), 3);
}

// Commutativity: corpus a then b gives the same table as b then a.
#[test]
fn train_order_commutes() {
    let a = "abcab";
    let b = "bcbca";
    let mut m1 = MarkovModel::new(2);
    m1.train(a);
    m1.train(b);
    let mut m2 = MarkovModel::new(2);
    m2.train(b);
    m2.train(a);
    let contexts = ["ab", "bc", "ca", "cb", "ba", "ac"];
    let symbols = ['a', 'b', 'c'];
    for c in contexts.iter() {
        assert_eq!(m1.context_total(c), m2.context_total(c));
        for s in symbols.iter() {
            assert_eq!(m1.transition_count(c, *s), m2.transition_count(c, *s));
        }
    }
}

// Additive accumulation: training the same text twice doubles every count.
#[test]
fn train_twice_doubles() {
    let text = "abcabcabc";
    let mut once = MarkovModel::new(2);
    once.train(text);
    let mut twice = MarkovModel::new(2);
    twice.train(text);
    twice.train(text);
    let contexts = ["ab", "bc", "ca"];
    let symbols = ['a', 'b', 'c'];
    for c in contexts.iter() {
        assert_eq!(2 * once.context_total(c), twice.context_total(c));
        for s in symbols.iter() {
            assert_eq!(2 * once.transition_count(c, *s), twice.transition_count(c, *s));
        }
    }
}

// A text shorter than order + 1 has no window: training on it is a no-op.
#[test]
fn short_text_is_noop() {
    let mut m = MarkovModel::new(2);
    m.train("ab");
    m.train("");
    assert_eq!(m.windows_trained(), 0);
    assert_eq!(m.context_total("ab"), 0);
    assert_eq!(m.generate("ab", 5), "ab");
}

// Dead-end scenario: after training on "abcabcabc" with order 2 every
// context maps to exactly one symbol, so every draw is forced and
// generate("ab", 5) must produce "abcabca".
#[test]
fn dead_end_walk_is_forced() {
    let mut m = MarkovModel::new(2);
    m.train("abcabcabc");
    assert_eq!(m.generate("ab", 5), "abcabca");
}

// Untrained context: with an empty table generation dead-ends at once.
#[test]
fn untrained_returns_seed() {
    let m = MarkovModel::new(2);
    assert_eq!(m.generate("xy", 10), "xy");
    assert_eq!(m.generate("", 10), "");
}

// Zero-length request: the seed comes back unchanged, trained or not.
#[test]
fn zero_length_returns_seed() {
    let mut m = MarkovModel::new(2);
    assert_eq!(m.generate("seed", 0), "seed");
    m.train("abcabcabc");
    assert_eq!(m.generate("ab", 0), "ab");
}

// Termination bound: the result never exceeds the seed plus the requested
// length, whatever the table holds.
#[test]
fn generated_length_bounded() {
    let mut m = MarkovModel::new(1);
    m.train("the quick brown fox jumps over the lazy dog");
    for len in [0usize, 1, 5, 50] {
        let out = m.generate("th", len);
        assert!(out.chars().count() <= 2 + len);
        assert!(out.starts_with("th"));
    }
}

// Determinism under fixed draws: the same draw sequence gives byte-equal
// output, and the selection is exactly the cumulative-count rule over the
// entries in symbol order.
#[test]
fn fixed_draws_deterministic() {
    let mut m = MarkovModel::new(1);
    m.train("aab");
    // context "a" -> {a: 1, b: 1}; context "b" has no row.
    let draws = vec![0usize, 1, 0, 1];
    let out1 = m.generate_with_draws("a", 4, &draws);
    let out2 = m.generate_with_draws("a", 4, &draws);
    assert_eq!(out1, out2);
    // draw 0 selects 'a', draw 1 selects 'b', then "b" dead-ends.
    assert_eq!(out1, "aab");
    // all-zero draws keep selecting 'a'.
    let zeros = vec![0usize; 4];
    assert_eq!(m.generate_with_draws("a", 4, &zeros), "aaaaa");
    // draws are reduced into range, so 5 acts as 5 % 2 == 1 and selects 'b',
    // which dead-ends at once.
    let big = vec![5usize, 5, 5, 5];
    assert_eq!(m.generate_with_draws("a", 4, &big), "ab");
}

// A seed shorter than the order cannot match any trained context, so
// generation returns it unchanged.
#[test]
fn seed_shorter_than_order_dead_ends() {
    let mut m = MarkovModel::new(3);
    m.train("abcdabcd");
    assert_eq!(m.generate("ab", 5), "ab");
}

// Multi-byte characters count as single symbols.
#[test]
fn multibyte_symbols() {
    let mut m = MarkovModel::new(1);
    m.train("ééé");
    assert_eq!(m.transition_count("é", 'é'), 2);
    assert_eq!(m.context_total("é"), 2);
    assert_eq!(m.generate("é", 2), "ééé");
}
