use typing_bias::bias::BiasTable;

#[test]
fn empty_table_generates_nothing() {
    let table = BiasTable::new();
    let mut rng = rand::thread_rng();
    assert!(table.is_empty());
    assert_eq!(table.total_weight(), 0);
    let out = table.generate(&mut rng, 7);
    assert_eq!(out.len(), 0);
    let out = table.generate(&mut rng, 100);
    assert_eq!(out.len(), 0);
}

#[test]
fn single_symbol_is_deterministic() {
    let mut table = BiasTable::new();
    table.accumulate(b'x', 3).unwrap();
    let mut rng = rand::thread_rng();
    let out = table.generate(&mut rng, 10);
    assert_eq!(out, vec![b'x'; 10]);
}

#[test]
fn total_weight_is_sum_of_amounts() {
    let mut table = BiasTable::new();
    table.accumulate(b'a', 4).unwrap();
    table.accumulate(b'b', 0).unwrap();
    table.accumulate(b'c', 11).unwrap();
    table.accumulate(b'a', 5).unwrap();
    assert_eq!(table.total_weight(), 4 + 0 + 11 + 5);
    assert_eq!(table.weight_of(b'a'), 9);
    assert_eq!(table.weight_of(b'b'), 0);
    assert_eq!(table.weight_of(b'c'), 11);
}

#[test]
fn accumulate_overflow_is_reported() {
    let mut table = BiasTable::new();
    table.accumulate(b'a', usize::MAX).unwrap();
    assert!(table.accumulate(b'b', 1).is_err());
    // the failed call left the table as it was
    assert_eq!(table.total_weight(), usize::MAX);
    assert_eq!(table.weight_of(b'b'), 0);
}

#[test]
fn distribution_converges_to_weights() {
    let mut table = BiasTable::new();
    table.accumulate(b'a', 1).unwrap();
    table.accumulate(b'b', 3).unwrap();
    let mut rng = rand::thread_rng();
    let n: usize = 100_000;
    let out = table.generate(&mut rng, n);
    assert_eq!(out.len(), n);
    let count_a = out.iter().filter(|&&b| b == b'a').count();
    let count_b = out.iter().filter(|&&b| b == b'b').count();
    assert_eq!(count_a + count_b, n);
    let frac_a = count_a as f64 / n as f64;
    let frac_b = count_b as f64 / n as f64;
    assert!((frac_a - 0.25).abs() < 0.01, "fraction of a was {}", frac_a);
    assert!((frac_b - 0.75).abs() < 0.01, "fraction of b was {}", frac_b);
}

#[test]
fn zero_length_request_is_empty() {
    let mut table = BiasTable::new();
    table.accumulate(b'q', 8).unwrap();
    let mut rng = rand::thread_rng();
    let out = table.generate(&mut rng, 0);
    assert!(out.is_empty());
}

#[test]
fn all_zero_weights_generate_nothing() {
    // an accumulation of amount 0 marks the table as holding data without
    // giving any symbol a nonzero weight; sampling still yields nothing
    let mut table = BiasTable::new();
    table.accumulate(b'a', 0).unwrap();
    assert!(!table.is_empty());
    assert_eq!(table.total_weight(), 0);
    let mut rng = rand::thread_rng();
    let out = table.generate(&mut rng, 9);
    assert_eq!(out.len(), 0);
}

#[test]
fn select_symbol_inverts_the_partition() {
    // weights: a -> 2, b -> 5; draws 0..1 pick a, draws 2..6 pick b
    let mut table = BiasTable::new();
    table.accumulate(b'a', 2).unwrap();
    table.accumulate(b'b', 5).unwrap();
    for draw in 0..2 {
        assert_eq!(table.select_symbol(draw), b'a');
    }
    for draw in 2..7 {
        assert_eq!(table.select_symbol(draw), b'b');
    }
}

#[test]
fn weighted_symbols_only() {
    let mut table = BiasTable::new();
    table.accumulate(b'a', 1).unwrap();
    table.accumulate(b'z', 1).unwrap();
    let mut rng = rand::thread_rng();
    let out = table.generate(&mut rng, 1000);
    assert_eq!(out.len(), 1000);
    assert!(out.iter().all(|&b| b == b'a' || b == b'z'));
}
