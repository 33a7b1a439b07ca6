use population_scaling::metrics::cluster_count;
use population_scaling::scaling::strategy_counts;

#[test]
fn test_cluster_count_with_uniform() {
    let strategies: Vec<u8> = (0..30).map(|i| (i % 3) as u8).collect();
    let counts = strategy_counts(&strategies);
    assert_eq!(cluster_count(&counts, strategies.len()), 3);
}

#[test]
fn test_cluster_count_with_dominant() {
    let strategies: Vec<u8> = (0..100).map(|_| 0u8).collect();
    let counts = strategy_counts(&strategies);
    assert_eq!(cluster_count(&counts, strategies.len()), 1);
}

#[test]
fn exactly_five_percent_is_not_a_cluster() {
    assert_eq!(cluster_count(&[1, 19, 0], 20), 1);
    assert_eq!(cluster_count(&[2, 18, 0], 20), 2);
    assert_eq!(cluster_count(&[6, 94, 0], 100), 2);
    assert_eq!(cluster_count(&[5, 95, 0], 100), 1);
}

#[test]
fn empty_population_has_no_clusters() {
    assert_eq!(cluster_count(&[0, 0, 0], 0), 0);
    assert_eq!(cluster_count(&[], 10), 0);
}

#[test]
fn cluster_rule_agrees_with_proportions() {
    for total in 1..2000usize {
        for count in [total / 20, total / 20 + 1, total / 10, total] {
            let by_rule = cluster_count(&[count], total) == 1;
            let by_proportion = (count as f64) / (total as f64) > 0.05;
            assert_eq!(by_rule, by_proportion, "count {} of {}", count, total);
        }
    }
}
