use population_scaling::scaling::{
    draw_strategies, game_outcome, replicate_top_half, schedule_games, strategy_counts, GameOutcome,
    ScheduledGame, MUTATION_CUTOFF,
};
use population_scaling::{Rng, ScaleConfig, ScalingExperiment};

#[test]
fn test_rng_deterministic() {
    let mut r1 = Rng::new(42);
    let mut r2 = Rng::new(42);
    for _ in 0..100 {
        assert_eq!(r1.next_u64(), r2.next_u64());
    }
}

#[test]
fn test_rng_range() {
    let mut rng = Rng::new(99);
    for _ in 0..1000 {
        let v = rng.next_usize(10);
        assert!(v < 10);
    }
}

#[test]
fn test_population_creation() {
    let mut rng = Rng::new(42);
    let strategies = draw_strategies(100, 3, &mut rng);
    assert_eq!(strategies.len(), 100);
    for s in &strategies {
        assert!(*s < 3);
    }
}

#[test]
fn test_strategy_counts() {
    let strategies = vec![0u8, 0, 1, 2];
    let counts = strategy_counts(&strategies);
    assert_eq!(counts, vec![2, 1, 1]);
}

#[test]
fn test_evolution_preserves_size() {
    let mut rng = Rng::new(11);
    let strategies = draw_strategies(100, 3, &mut rng);
    let _games = schedule_games(100, 500, &mut rng);
    let next = replicate_top_half(&strategies, 3, &mut rng);
    assert_eq!(next.len(), 100);
}

#[test]
fn xorshift_stream_from_seed_42() {
    let mut rng = Rng::new(42);
    let expected: [u64; 5] = [
        45454805674,
        11532217803599905471,
        10021416941527320954,
        2899061411254629736,
        5661411637479084162,
    ];
    for e in expected.iter() {
        assert_eq!(rng.next_u64(), *e);
    }
}

#[test]
fn seed_zero_behaves_like_seed_one() {
    let mut a = Rng::new(0);
    let mut b = Rng::new(1);
    assert_eq!(a.next_u64(), 1082269761);
    assert_eq!(b.next_u64(), 1082269761);
    for _ in 0..50 {
        assert_eq!(a.next_u64(), b.next_u64());
    }
}

#[test]
fn next_usize_reduces_the_draw() {
    let mut rng = Rng::new(99);
    let got: Vec<usize> = (0..5).map(|_| rng.next_usize(10)).collect();
    assert_eq!(got, vec![7, 0, 9, 9, 1]);
}

#[test]
fn draws_are_never_zero() {
    let mut rng = Rng::new(3);
    for _ in 0..10000 {
        assert_ne!(rng.next_u64(), 0);
    }
}

#[test]
fn drawn_strategies_exact() {
    let mut rng = Rng::new(7);
    assert_eq!(draw_strategies(6, 3, &mut rng), vec![0, 0, 0, 1, 1, 1]);
}

#[test]
fn no_agents_need_no_strategies() {
    let mut rng = Rng::new(7);
    let before = rng.clone();
    assert!(draw_strategies(0, 0, &mut rng).is_empty());
    let mut after = rng;
    let mut b = before;
    assert_eq!(after.next_u64(), b.next_u64());
}

#[test]
fn schedule_skips_self_pairings() {
    let mut rng = Rng::new(5);
    let games = schedule_games(4, 5, &mut rng);
    assert_eq!(
        games,
        vec![
            ScheduledGame { first: 1, second: 3, noise_draw: 17826820291483596301 },
            ScheduledGame { first: 1, second: 0, noise_draw: 17947349233171322950 },
            ScheduledGame { first: 2, second: 0, noise_draw: 17974400264334934919 },
            ScheduledGame { first: 2, second: 0, noise_draw: 16548688184330839808 },
        ]
    );
}

#[test]
fn schedule_pairs_distinct_agents_in_range() {
    let mut rng = Rng::new(123);
    let games = schedule_games(10, 1000, &mut rng);
    assert!(games.len() <= 1000);
    assert!(games.len() > 800);
    for g in &games {
        assert!(g.first < 10 && g.second < 10 && g.first != g.second);
    }
}

#[test]
fn replication_with_a_mutation() {
    let mut rng = Rng::new(1);
    let next = replicate_top_half(&[0, 1, 2, 0, 1], 3, &mut rng);
    assert_eq!(next, vec![0, 1, 2, 1, 1]);
}

#[test]
fn replication_of_a_single_agent_is_a_no_op() {
    let mut rng = Rng::new(1);
    let next = replicate_top_half(&[2], 3, &mut rng);
    assert_eq!(next, vec![2]);
    assert_eq!(rng.next_u64(), 1082269761);
}

#[test]
fn replication_keeps_the_top_half() {
    let mut rng = Rng::new(77);
    let ranked: Vec<u8> = (0..20).map(|i| (i % 3) as u8).collect();
    let next = replicate_top_half(&ranked, 3, &mut rng);
    assert_eq!(&next[..10], &ranked[..10]);
    assert_eq!(next.len(), 20);
}

#[test]
fn mutation_probe_does_not_advance() {
    let rng = Rng::new(1);
    assert!(rng.mutation_within(1));
    assert!(!rng.mutation_within(0));
    let mut copy = rng;
    assert_eq!(copy.next_u64(), 1082269761);
}

#[test]
fn mutation_cutoff_matches_unit_interval_tenth() {
    let unit = |x: u64| (x as f64) / (u64::MAX as f64);
    for d in 0..4096u64 {
        let below = MUTATION_CUTOFF - 1 - d;
        let above = MUTATION_CUTOFF + d;
        assert!(unit(below) < 0.1);
        assert!(!(unit(above) < 0.1));
    }
    assert!(unit(0) < 0.1);
    assert!(!(unit(u64::MAX) < 0.1));
}

#[test]
fn game_outcomes_follow_the_cycle() {
    assert_eq!(game_outcome(1, 0), GameOutcome::FirstWins);
    assert_eq!(game_outcome(2, 1), GameOutcome::FirstWins);
    assert_eq!(game_outcome(0, 2), GameOutcome::FirstWins);
    assert_eq!(game_outcome(0, 1), GameOutcome::SecondWins);
    assert_eq!(game_outcome(2, 2), GameOutcome::Draw);
    assert_eq!(game_outcome(4, 0), GameOutcome::Draw);
}

#[test]
fn game_outcomes_mirror() {
    for a in 0..10u8 {
        for b in 0..10u8 {
            let ab = game_outcome(a, b);
            let ba = game_outcome(b, a);
            let mirrored = match ab {
                GameOutcome::FirstWins => GameOutcome::SecondWins,
                GameOutcome::SecondWins => GameOutcome::FirstWins,
                GameOutcome::Draw => GameOutcome::Draw,
            };
            assert_eq!(ba, mirrored);
        }
    }
}

#[test]
fn counts_sum_to_population() {
    let mut rng = Rng::new(7);
    let strategies = draw_strategies(500, 3, &mut rng);
    let counts = strategy_counts(&strategies);
    assert_eq!(counts.iter().sum::<usize>(), 500);
}

#[test]
fn config_fields() {
    let c = ScaleConfig::new(240, 1000, 3, 42);
    assert_eq!(c.population_size, 240);
    assert_eq!(c.num_games, 1000);
    assert_eq!(c.num_strategies, 3);
    assert_eq!(c.seed, 42);
}

#[test]
fn default_configs_follow_the_study() {
    let cfgs = ScalingExperiment::default_configs();
    let got: Vec<(usize, usize, usize, u64)> =
        cfgs.iter().map(|c| (c.population_size, c.num_games, c.num_strategies, c.seed)).collect();
    assert_eq!(
        got,
        vec![(24, 100, 3, 42), (240, 1000, 3, 42), (2400, 10000, 3, 42), (24000, 100000, 3, 42)]
    );
    let e = ScalingExperiment::new(cfgs, 7);
    assert_eq!(e.configs.len(), 4);
    assert_eq!(e.generations, 7);
}
