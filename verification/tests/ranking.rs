use population_scaling::ranking::rank_by_fitness;
use population_scaling::scaling::evolve_strategies;
use population_scaling::Rng;

#[test]
fn ranking_is_descending_and_stable() {
    assert_eq!(rank_by_fitness(&[5, 9, 5, 1, 9]), vec![1, 4, 0, 2, 3]);
    assert_eq!(rank_by_fitness(&[]), Vec::<usize>::new());
    assert_eq!(rank_by_fitness(&[7]), vec![0]);
    assert_eq!(rank_by_fitness(&[3, 3, 3, 3]), vec![0, 1, 2, 3]);
}

#[test]
fn ranking_matches_a_stable_sort() {
    let mut rng = Rng::new(2024);
    let keys: Vec<u64> = (0..1000).map(|_| rng.next_u64() % 17).collect();
    let mut expected: Vec<usize> = (0..keys.len()).collect();
    expected.sort_by(|a, b| keys[*b].cmp(&keys[*a]));
    assert_eq!(rank_by_fitness(&keys), expected);
}

#[test]
fn evolution_ranks_then_replicates() {
    let mut rng = Rng::new(1);
    let next = evolve_strategies(&[0, 1, 2, 0, 1], &[5, 9, 5, 1, 9], 3, &mut rng);
    assert_eq!(next, vec![1, 1, 2, 1, 0]);
}

#[test]
fn evolution_of_a_lone_agent_changes_nothing() {
    let mut rng = Rng::new(1);
    assert_eq!(evolve_strategies(&[2], &[4], 3, &mut rng), vec![2]);
    assert_eq!(evolve_strategies(&[], &[], 0, &mut rng), Vec::<u8>::new());
    assert_eq!(rng.next_u64(), 1082269761);
}
