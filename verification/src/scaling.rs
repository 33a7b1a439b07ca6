use vstd::prelude::*;

use crate::ranking::{is_ranking, lemma_ranking_unique, rank_by_fitness};

verus! {

/// Configuration for a single scale level.
#[derive(Debug, Clone, Copy)]
pub struct ScaleConfig {
    pub population_size: usize,
    pub num_games: usize,
    pub num_strategies: usize,
    pub seed: u64,
}

impl ScaleConfig {
    pub fn new(population_size: usize, num_games: usize, num_strategies: usize, seed: u64) -> (cfg: Self)
        ensures
            cfg.population_size == population_size,
            cfg.num_games == num_games,
            cfg.num_strategies == num_strategies,
            cfg.seed == seed,
    {
        ScaleConfig { population_size, num_games, num_strategies, seed }
    }
}

/// One step of the xorshift64 generator (shifts 13, 7, 17).
pub open spec fn xorshift(x: u64) -> u64 {
    let a = x ^ (x << 13u64);
    let b = a ^ (a >> 7u64);
    b ^ (b << 17u64)
}

/// The generator state after `k` steps from state `s`.
pub open spec fn nth_state(s: u64, k: nat) -> u64
    decreases k,
{
    if k == 0 {
        s
    } else {
        xorshift(nth_state(s, (k - 1) as nat))
    }
}

/// The generator moves one xorshift step per draw: the state after `k + 1` draws is one
/// step on from the state after `k`, and `k + j` draws are `j` draws after the first `k`.
pub proof fn lemma_nth_state_step(s: u64, k: nat, j: nat)
    ensures
        nth_state(s, 0) == s,
        nth_state(s, k + 1) == xorshift(nth_state(s, k)),
        nth_state(s, k + j) == nth_state(nth_state(s, k), j),
    decreases j,
{
    if j > 0 {
        lemma_nth_state_step(s, k, (j - 1) as nat);
        assert(nth_state(s, k + j) == xorshift(nth_state(s, (k + j - 1) as nat)));
    }
}

/// The state a generator seeded with `seed` starts from: zero is replaced by one,
/// since zero is a fixed point of xorshift.
pub open spec fn seed_state(seed: u64) -> u64 {
    if seed == 0 {
        1
    } else {
        seed
    }
}

/// A step of xorshift never reaches zero from a nonzero state.
pub proof fn lemma_xorshift_nonzero(x: u64)
    requires
        x != 0,
    ensures
        xorshift(x) != 0,
{
    let a = x ^ (x << 13u64);
    let b = a ^ (a >> 7u64);
    assert(x != 0 ==> x ^ (x << 13u64) != 0) by (bit_vector);
    assert(a != 0 ==> a ^ (a >> 7u64) != 0) by (bit_vector);
    assert(b != 0 ==> b ^ (b << 17u64) != 0) by (bit_vector);
}

/// Simple deterministic RNG (xorshift64) with no external dependencies.
#[derive(Debug, Clone, Copy)]
pub struct Rng {
    state: u64,
}

impl View for Rng {
    type V = u64;

    /// The current generator state.
    closed spec fn view(&self) -> u64 {
        self.state
    }
}

impl Rng {
    /// The generator state is never zero.
    #[verifier::type_invariant]
    closed spec fn nonzero_state(self) -> bool {
        self.state != 0
    }

    /// A generator seeded with `seed`; a zero seed is replaced by one.
    pub fn new(seed: u64) -> (rng: Self)
        ensures
            rng@ == seed_state(seed),
            seed == 0 ==> rng@ == 1,
            seed != 0 ==> rng@ == seed,
    {
        Rng { state: if seed == 0 { 1 } else { seed } }
    }

    /// Advance the generator one step and return the new state.
    pub fn next_u64(&mut self) -> (x: u64)
        ensures
            x == xorshift(old(self)@),
            final(self)@ == x,
            x != 0,
    {
        proof {
            use_type_invariant(&*self);
            lemma_xorshift_nonzero(self.state);
        }
        let mut x = self.state;
        x ^= x << 13;
        x ^= x >> 7;
        x ^= x << 17;
        self.state = x;
        x
    }

    /// A draw reduced modulo `bound`.
    pub fn next_usize(&mut self, bound: usize) -> (r: usize)
        requires
            bound > 0,
        ensures
            final(self)@ == xorshift(old(self)@),
            r == final(self)@ % (bound as u64),
            r < bound,
    {
        (self.next_u64() % bound as u64) as usize
    }
}

/// Run a scaling experiment across multiple population sizes.
#[derive(Debug, Clone)]
pub struct ScalingExperiment {
    pub configs: Vec<ScaleConfig>,
    pub generations: usize,
}

/// The configuration with the given fields.
pub open spec fn config(population_size: usize, num_games: usize, num_strategies: usize, seed: u64) -> ScaleConfig {
    ScaleConfig { population_size, num_games, num_strategies, seed }
}

impl ScalingExperiment {
    pub fn new(configs: Vec<ScaleConfig>, generations: usize) -> (e: Self)
        ensures
            e.configs@ == configs@,
            e.generations == generations,
    {
        ScalingExperiment { configs, generations }
    }

    /// Default configs matching the study: 24, 240, 2400, 24000 agents,
    /// with games growing in proportion, three strategies and seed 42.
    pub fn default_configs() -> (cfgs: Vec<ScaleConfig>)
        ensures
            cfgs@ == seq![
                config(24, 100, 3, 42),
                config(240, 1000, 3, 42),
                config(2400, 10000, 3, 42),
                config(24000, 100000, 3, 42),
            ],
    {
        vec![
            ScaleConfig::new(24, 100, 3, 42),
            ScaleConfig::new(240, 1000, 3, 42),
            ScaleConfig::new(2400, 10000, 3, 42),
            ScaleConfig::new(24000, 100000, 3, 42),
        ]
    }
}

/// Result of a game between a first and a second agent.
#[derive(Debug, Clone, Copy, PartialEq, Eq, Structural)]
pub enum GameOutcome {
    FirstWins,
    SecondWins,
    Draw,
}

/// Ternary rock-paper-scissors: strategy `s + 1 (mod 3)` beats strategy `s`;
/// anything else is a draw.
pub open spec fn outcome_of(a: u8, b: u8) -> GameOutcome {
    if a as int == (b as int + 1) % 3 {
        GameOutcome::FirstWins
    } else if b as int == (a as int + 1) % 3 {
        GameOutcome::SecondWins
    } else {
        GameOutcome::Draw
    }
}

/// Which of two agents, playing strategies `a_strategy` and `b_strategy`, wins a game.
pub fn game_outcome(a_strategy: u8, b_strategy: u8) -> (o: GameOutcome)
    requires
        a_strategy < 255,
        b_strategy < 255,
    ensures
        o == outcome_of(a_strategy, b_strategy),
        (o == GameOutcome::FirstWins) == (a_strategy as int == (b_strategy as int + 1) % 3),
        (o == GameOutcome::SecondWins) == (a_strategy as int != (b_strategy as int + 1) % 3
            && b_strategy as int == (a_strategy as int + 1) % 3),
{
    if a_strategy == (b_strategy + 1) % 3 {
        GameOutcome::FirstWins
    } else if b_strategy == (a_strategy + 1) % 3 {
        GameOutcome::SecondWins
    } else {
        GameOutcome::Draw
    }
}

/// Swapping the players swaps the winner and keeps a draw a draw; among the three
/// strategies each one beats exactly the strategy before it.
pub proof fn lemma_outcome_mirror(a: u8, b: u8)
    ensures
        (outcome_of(a, b) == GameOutcome::FirstWins) <==> (outcome_of(b, a) == GameOutcome::SecondWins),
        (outcome_of(a, b) == GameOutcome::SecondWins) <==> (outcome_of(b, a) == GameOutcome::FirstWins),
        (outcome_of(a, b) == GameOutcome::Draw) <==> (outcome_of(b, a) == GameOutcome::Draw),
        a < 3 ==> outcome_of(((a + 1) % 3) as u8, a) == GameOutcome::FirstWins,
        a < 3 ==> outcome_of(a, a) == GameOutcome::Draw,
{
}

/// The strategy drawn for the `i`-th new agent from state `s`: the `i + 1`-th draw reduced modulo `n`.
pub open spec fn drawn_strategy(s: u64, n: usize, i: int) -> u8 {
    ((nth_state(s, (i + 1) as nat) % (n as u64)) as usize) as u8
}

/// Draw a strategy in `0..num_strategies` for each of `size` new agents.
pub fn draw_strategies(size: usize, num_strategies: usize, rng: &mut Rng) -> (v: Vec<u8>)
    requires
        size == 0 || num_strategies > 0,
    ensures
        v@.len() == size,
        forall|i: int| 0 <= i < size ==> v@[i] == drawn_strategy(old(rng)@, num_strategies, i),
        forall|i: int|
            0 <= i < size ==> #[trigger] v@[i] == ((nth_state(old(rng)@, (i + 1) as nat) % (num_strategies as u64)) as usize) as u8,
        num_strategies <= 256 ==> forall|i: int| 0 <= i < size ==> v@[i] < num_strategies,
        final(rng)@ == nth_state(old(rng)@, size as nat),
{
    let ghost s0 = rng@;
    let mut v: Vec<u8> = Vec::new();
    let mut k: usize = 0;
    while k < size
        invariant
            k <= size,
            size > 0 ==> num_strategies > 0,
            v@.len() == k,
            rng@ == nth_state(s0, k as nat),
            forall|i: int| 0 <= i < k ==> v@[i] == drawn_strategy(s0, num_strategies, i),
            num_strategies <= 256 ==> forall|i: int| 0 <= i < k ==> v@[i] < num_strategies,
        decreases size - k,
    {
        let r = rng.next_usize(num_strategies);
        v.push(r as u8);
        k = k + 1;
    }
    v
}

/// A game that takes place: the indices of the two agents and the draw that
/// fixes the game's noise.
#[derive(Debug, Clone, Copy, PartialEq, Eq, Structural)]
pub struct ScheduledGame {
    pub first: usize,
    pub second: usize,
    pub noise_draw: u64,
}

/// One game attempt from state `s` among `n` agents: two index draws, and, when the
/// indices differ, a third draw for the noise. Gives the game (if any) and the new state.
pub open spec fn game_attempt(s: u64, n: usize) -> (Option<ScheduledGame>, u64) {
    let s1 = xorshift(s);
    let s2 = xorshift(s1);
    let i = (s1 % (n as u64)) as usize;
    let j = (s2 % (n as u64)) as usize;
    if i == j {
        (None, s2)
    } else {
        let s3 = xorshift(s2);
        (Some(ScheduledGame { first: i, second: j, noise_draw: s3 }), s3)
    }
}

/// The games that `k` attempts from state `s` among `n` agents play, in order, and the
/// state after them.
pub open spec fn schedule(s: u64, n: usize, k: nat) -> (Seq<ScheduledGame>, u64)
    decreases k,
{
    if k == 0 {
        (Seq::empty(), s)
    } else {
        let prev = schedule(s, n, (k - 1) as nat);
        let step = game_attempt(prev.1, n);
        (
            match step.0 {
                Some(g) => prev.0.push(g),
                None => prev.0,
            },
            step.1,
        )
    }
}

/// Each game attempt takes a fresh draw for each of its two agents and reduces it
/// modulo the population size, so any agent below `n` can be picked. When both draws
/// pick the same agent the attempt is skipped; otherwise one further draw fixes the
/// game's noise and the game is appended to those already scheduled.
pub proof fn lemma_schedule_attempt(s: u64, n: usize, k: nat)
    ensures
        ({
            let before = schedule(s, n, k);
            let after = schedule(s, n, k + 1);
            let d1 = xorshift(before.1);
            let d2 = xorshift(d1);
            let i = (d1 % (n as u64)) as usize;
            let j = (d2 % (n as u64)) as usize;
            if i == j {
                after.0 == before.0 && after.1 == d2
            } else {
                &&& after.0 == before.0.push(
                    ScheduledGame { first: i, second: j, noise_draw: xorshift(d2) },
                )
                &&& after.1 == xorshift(d2)
            }
        }),
{
}

/// Later attempts only append games: the games of the first `j` attempts begin the
/// games of the first `k`.
pub proof fn lemma_schedule_prefix(s: u64, n: usize, j: nat, k: nat)
    requires
        j <= k,
    ensures
        schedule(s, n, j).0.len() <= schedule(s, n, k).0.len(),
        forall|i: int| 0 <= i < schedule(s, n, j).0.len() ==> #[trigger] schedule(s, n, k).0[i] == schedule(s, n, j).0[i],
    decreases k - j,
{
    if j < k {
        lemma_schedule_prefix(s, n, j, (k - 1) as nat);
        lemma_schedule_attempt(s, n, (k - 1) as nat);
        let mid = schedule(s, n, (k - 1) as nat).0;
        assert forall|i: int| 0 <= i < schedule(s, n, j).0.len() implies #[trigger] schedule(s, n, k).0[i] == schedule(s, n, j).0[i] by {
            assert(schedule(s, n, k).0[i] == mid[i]);
        }
    }
}

/// Draw the pairings of `num_games` game attempts among `population_size` agents.
/// An attempt that draws the same agent twice is skipped.
pub fn schedule_games(population_size: usize, num_games: usize, rng: &mut Rng) -> (games: Vec<ScheduledGame>)
    requires
        num_games == 0 || population_size > 0,
    ensures
        games@ == schedule(old(rng)@, population_size, num_games as nat).0,
        final(rng)@ == schedule(old(rng)@, population_size, num_games as nat).1,
        games@.len() <= num_games,
        forall|k: int|
            0 <= k < games@.len() ==> {
                &&& #[trigger] games@[k].first < population_size
                &&& games@[k].second < population_size
                &&& games@[k].first != games@[k].second
            },
        ({
            let d1 = xorshift(old(rng)@);
            let d2 = xorshift(d1);
            num_games > 0 && d1 % (population_size as u64) != d2 % (population_size as u64) ==> {
                &&& games@.len() >= 1
                &&& games@[0] == ScheduledGame {
                    first: (d1 % (population_size as u64)) as usize,
                    second: (d2 % (population_size as u64)) as usize,
                    noise_draw: xorshift(d2),
                }
            }
        }),
{
    let ghost s0 = rng@;
    let n = population_size;
    let mut games: Vec<ScheduledGame> = Vec::new();
    let mut t: usize = 0;
    while t < num_games
        invariant
            t <= num_games,
            num_games > 0 ==> n > 0,
            n == population_size,
            games@ == schedule(s0, n, t as nat).0,
            rng@ == schedule(s0, n, t as nat).1,
            games@.len() <= t,
            forall|k: int|
                0 <= k < games@.len() ==> {
                    &&& #[trigger] games@[k].first < n
                    &&& games@[k].second < n
                    &&& games@[k].first != games@[k].second
                },
        decreases num_games - t,
    {
        let i = rng.next_usize(n);
        let j = rng.next_usize(n);
        if i != j {
            let w = rng.next_u64();
            let ghost prev = games@;
            games.push(ScheduledGame { first: i, second: j, noise_draw: w });
            assert forall|k: int| 0 <= k < games@.len() implies {
                &&& #[trigger] games@[k].first < n
                &&& games@[k].second < n
                &&& games@[k].first != games@[k].second
            } by {
                if k < prev.len() {
                    assert(games@[k] == prev[k]);
                }
            }
        }
        t = t + 1;
    }
    proof {
        if num_games > 0 {
            lemma_schedule_attempt(s0, n, 0);
            lemma_schedule_prefix(s0, n, 1, num_games as nat);
        }
    }
    games
}

/// A draw strictly below this value mutates an offspring. These are exactly the draws
/// `x` for which `x as f64 / u64::MAX as f64 < 0.1` in IEEE double precision, so the
/// mutation chance is one tenth.
pub const MUTATION_CUTOFF: u64 = 0x1999_9999_9999_9980u64;

/// One offspring from state `s` of a parent with strategy `parent`: a draw decides on
/// mutation; a mutant takes a fresh strategy from a second draw reduced modulo `n`.
/// Gives the strategy, the new state and whether it mutated.
pub open spec fn offspring_step(s: u64, parent: u8, n: usize) -> (u8, u64, bool) {
    let s1 = xorshift(s);
    if s1 < MUTATION_CUTOFF {
        let s2 = xorshift(s1);
        (((s2 % (n as u64)) as usize) as u8, s2, true)
    } else {
        (parent, s1, false)
    }
}

/// The offspring of the first `k` parents, the state after them, and whether any mutated.
pub open spec fn offspring(s: u64, parents: Seq<u8>, n: usize, k: nat) -> (Seq<u8>, u64, bool)
    decreases k,
{
    if k == 0 {
        (Seq::empty(), s, false)
    } else {
        let prev = offspring(s, parents, n, (k - 1) as nat);
        let step = offspring_step(prev.1, parents[k - 1], n);
        (prev.0.push(step.0), step.1, prev.2 || step.2)
    }
}

/// One of the first `k` draws from state `s` is below the mutation cutoff. Since each
/// offspring before the first mutant takes a single draw, this says that one of the
/// first `k` offspring drawn from `s` mutates.
pub open spec fn mutation_within(s: u64, k: nat) -> bool {
    exists|i: int| 0 <= i < k && #[trigger] mutates_at(s, i)
}

/// Whether a mutation comes up within `k + 1` offspring is whether it comes up within
/// `k`, or else the `k + 1`-th draw is below the mutation cutoff.
pub proof fn lemma_mutation_within_step(s: u64, k: nat)
    ensures
        !mutation_within(s, 0),
        mutation_within(s, k + 1) == (mutation_within(s, k) || nth_state(s, k + 1) < MUTATION_CUTOFF),
{
    if mutation_within(s, k + 1) && !mutation_within(s, k) {
        let i = choose|i: int| 0 <= i < k + 1 && #[trigger] mutates_at(s, i);
        if i < k {
            assert(mutation_within(s, k));
        }
    }
    if nth_state(s, k + 1) < MUTATION_CUTOFF {
        assert(mutates_at(s, k as int));
    }
    if mutation_within(s, k) {
        let i = choose|i: int| 0 <= i < k && #[trigger] mutates_at(s, i);
        assert(0 <= i < k + 1 && mutates_at(s, i));
    }
}

/// The `i + 1`-th draw from state `s` is a mutation draw.
pub open spec fn mutates_at(s: u64, i: int) -> bool {
    nth_state(s, (i + 1) as nat) < MUTATION_CUTOFF
}

/// Without mutations each offspring copies its parent and takes one draw.
proof fn lemma_offspring_without_mutation(s: u64, parents: Seq<u8>, n: usize, k: nat)
    requires
        !mutation_within(s, k),
    ensures
        offspring(s, parents, n, k).1 == nth_state(s, k),
        !offspring(s, parents, n, k).2,
    decreases k,
{
    if k > 0 {
        assert(!mutation_within(s, (k - 1) as nat)) by {
            if mutation_within(s, (k - 1) as nat) {
                let i = choose|i: int| 0 <= i < k - 1 && #[trigger] mutates_at(s, i);
                assert(0 <= i < k && mutates_at(s, i));
            }
        }
        lemma_offspring_without_mutation(s, parents, n, (k - 1) as nat);
        assert(!mutates_at(s, k - 1));
    }
}

impl Rng {
    /// Whether one of the next `count` offspring drawn from this generator would mutate.
    /// The generator itself is not advanced.
    pub fn mutation_within(&self, count: usize) -> (b: bool)
        ensures
            b == mutation_within(self@, count as nat),
    {
        let mut probe = *self;
        let mut i: usize = 0;
        while i < count
            invariant
                i <= count,
                probe@ == nth_state(self@, i as nat),
                !mutation_within(self@, i as nat),
            decreases count - i,
        {
            let x = probe.next_u64();
            if x < MUTATION_CUTOFF {
                assert(mutates_at(self@, i as int));
                return true;
            }
            assert(!mutation_within(self@, (i + 1) as nat)) by {
                if mutation_within(self@, (i + 1) as nat) {
                    let j = choose|j: int| 0 <= j < i + 1 && #[trigger] mutates_at(self@, j);
                    if j < i {
                        assert(mutation_within(self@, i as nat));
                    }
                }
            }
            i = i + 1;
        }
        false
    }
}

/// A population ranked by fitness after replication from state `s`: the upper half,
/// then its offspring, then the odd agent out if there is one; and the state after.
pub open spec fn replicated(s: u64, ranked: Seq<u8>, n: usize) -> (Seq<u8>, u64) {
    let half = ranked.len() / 2;
    let kids = offspring(s, ranked, n, half as nat);
    (ranked.take(half as int) + kids.0 + ranked.skip((2 * half) as int), kids.1)
}

/// Replace the lower half of a population ranked by fitness (best first) with offspring
/// of the upper half: the `i`-th of the lower half descends from the `i`-th best agent,
/// with a one-in-ten chance of mutating to a fresh strategy in `0..num_strategies`.
/// An odd agent out at the very end stays. A population with fewer than two agents is
/// left alone and the generator is not used.
pub fn replicate_top_half(ranked: &[u8], num_strategies: usize, rng: &mut Rng) -> (next: Vec<u8>)
    requires
        num_strategies > 0 || !mutation_within(old(rng)@, (ranked@.len() / 2) as nat),
    ensures
        next@ == replicated(old(rng)@, ranked@, num_strategies).0,
        final(rng)@ == replicated(old(rng)@, ranked@, num_strategies).1,
        next@.len() == ranked@.len(),
        ({
            let half = ranked@.len() / 2;
            let d = xorshift(old(rng)@);
            &&& next@.take(half as int) == ranked@.take(half as int)
            &&& forall|k: int| 0 <= k < half ==> #[trigger] next@[half + k] == offspring(old(rng)@, ranked@, num_strategies, half as nat).0[k]
            &&& ranked@.len() % 2 == 1 ==> next@[ranked@.len() - 1] == ranked@[ranked@.len() - 1]
            &&& half > 0 ==> next@[half as int] == if d < MUTATION_CUTOFF {
                ((xorshift(d) % (num_strategies as u64)) as usize) as u8
            } else {
                ranked@[0]
            }
        }),
{
    let ghost s0 = rng@;
    let len = ranked.len();
    let half = len / 2;
    proof {
        if num_strategies == 0 {
            lemma_offspring_without_mutation(s0, ranked@, num_strategies, half as nat);
        }
    }
    let mut next: Vec<u8> = Vec::new();
    let mut i: usize = 0;
    while i < half
        invariant
            i <= half,
            half == ranked@.len() / 2,
            len == ranked@.len(),
            next@ == ranked@.take(i as int),
        decreases half - i,
    {
        next.push(ranked[i]);
        i = i + 1;
    }
    let mut k: usize = 0;
    while k < half
        invariant
            k <= half,
            half == ranked@.len() / 2,
            len == ranked@.len(),
            num_strategies > 0 || !offspring(s0, ranked@, num_strategies, half as nat).2,
            next@ == ranked@.take(half as int) + offspring(s0, ranked@, num_strategies, k as nat).0,
            rng@ == offspring(s0, ranked@, num_strategies, k as nat).1,
            num_strategies > 0 || !offspring(s0, ranked@, num_strategies, k as nat).2,
        decreases half - k,
    {
        proof {
            lemma_offspring_monotone(s0, ranked@, num_strategies, (k + 1) as nat, half as nat);
        }
        let mut strat = ranked[k];
        let x = rng.next_u64();
        if x < MUTATION_CUTOFF {
            strat = rng.next_usize(num_strategies) as u8;
        }
        next.push(strat);
        k = k + 1;
    }
    if 2 * half < len {
        next.push(ranked[len - 1]);
    }
    proof {
        lemma_offspring_len(s0, ranked@, num_strategies, half as nat);
        if half > 0 {
            lemma_offspring_draw(s0, ranked@, num_strategies, 0);
            lemma_offspring_prefix(s0, ranked@, num_strategies, 1, half as nat);
            assert(next@[half as int] == offspring(s0, ranked@, num_strategies, half as nat).0[0]);
        }
        assert(next@.take(half as int) =~= ranked@.take(half as int));
        assert forall|k: int| 0 <= k < half implies #[trigger] next@[half + k] == offspring(s0, ranked@, num_strategies, half as nat).0[k] by {
            assert(next@[half + k] == (ranked@.take(half as int) + offspring(s0, ranked@, num_strategies, half as nat).0)[half + k]);
        }
        assert(ranked@.skip((2 * half) as int) =~= if 2 * half < len { seq![ranked@[len - 1]] } else { Seq::empty() });
    }
    next
}

/// Offspring of parents whose strategies lie in `0..n` have strategies in `0..n`.
proof fn lemma_offspring_in_range(s: u64, parents: Seq<u8>, n: usize, k: nat)
    requires
        n <= 256,
        k <= parents.len(),
        forall|i: int| 0 <= i < k ==> #[trigger] parents[i] < n,
    ensures
        forall|i: int| 0 <= i < k ==> #[trigger] offspring(s, parents, n, k).0[i] < n,
    decreases k,
{
    lemma_offspring_len(s, parents, n, k);
    if k > 0 {
        lemma_offspring_in_range(s, parents, n, (k - 1) as nat);
        lemma_offspring_len(s, parents, n, (k - 1) as nat);
        let prev = offspring(s, parents, n, (k - 1) as nat);
        assert(parents[k - 1] < n);
        assert(offspring_step(prev.1, parents[k - 1], n).0 < n);
        assert forall|i: int| 0 <= i < k implies #[trigger] offspring(s, parents, n, k).0[i] < n by {
            if i < k - 1 {
                assert(offspring(s, parents, n, k).0[i] == prev.0[i]);
            }
        }
    }
}

/// Selection keeps strategies in range: replicating a ranked population whose
/// strategies lie in `0..n` gives strategies in `0..n`, and keeps the upper half.
pub proof fn lemma_replication_keeps_range(s: u64, ranked: Seq<u8>, n: usize)
    requires
        n <= 256,
        forall|i: int| 0 <= i < ranked.len() ==> #[trigger] ranked[i] < n,
    ensures
        replicated(s, ranked, n).0.len() == ranked.len(),
        replicated(s, ranked, n).0.take((ranked.len() / 2) as int) == ranked.take((ranked.len() / 2) as int),
        forall|i: int| 0 <= i < ranked.len() ==> #[trigger] replicated(s, ranked, n).0[i] < n,
{
    let half = ranked.len() / 2;
    lemma_offspring_len(s, ranked, n, half as nat);
    lemma_offspring_in_range(s, ranked, n, half as nat);
    let kids = offspring(s, ranked, n, half as nat).0;
    let next = replicated(s, ranked, n).0;
    assert(next.take(half as int) =~= ranked.take(half as int));
    assert forall|i: int| 0 <= i < ranked.len() implies #[trigger] next[i] < n by {
        if i < half {
            assert(next[i] == ranked[i]);
        } else if i < 2 * half {
            assert(next[i] == kids[i - half]);
        } else {
            assert(next[i] == ranked[i]);
        }
    }
}

/// The mutation cutoff splits the draws one in ten: ten times the cutoff falls short
/// of the number of possible draws, 2^64, by 256, so the cutoff is within 26 of a tenth.
pub proof fn lemma_mutation_cutoff_is_a_tenth()
    ensures
        0x1_0000_0000_0000_0000int - 260 < 10 * (MUTATION_CUTOFF as int) <= 0x1_0000_0000_0000_0000int,
{
}

/// Each offspring, in turn, decides on mutation with one fresh draw: a draw below the
/// mutation cutoff makes it a mutant whose strategy is the next draw reduced modulo
/// `n`; any other draw makes it a copy of its parent. Earlier offspring are unchanged.
pub proof fn lemma_offspring_draw(s: u64, parents: Seq<u8>, n: usize, k: nat)
    ensures
        ({
            let before = offspring(s, parents, n, k);
            let after = offspring(s, parents, n, k + 1);
            let d = xorshift(before.1);
            &&& after.0.len() == k + 1
            &&& forall|i: int| 0 <= i < k ==> #[trigger] after.0[i] == before.0[i]
            &&& if d < MUTATION_CUTOFF {
                &&& after.0[k as int] == ((xorshift(d) % (n as u64)) as usize) as u8
                &&& after.1 == xorshift(d)
            } else {
                &&& after.0[k as int] == parents[k as int]
                &&& after.1 == d
            }
        }),
{
    lemma_offspring_len(s, parents, n, k);
    lemma_offspring_len(s, parents, n, k + 1);
}

/// Later offspring leave earlier ones as they are.
proof fn lemma_offspring_prefix(s: u64, parents: Seq<u8>, n: usize, j: nat, k: nat)
    requires
        j <= k,
    ensures
        forall|i: int| 0 <= i < j ==> #[trigger] offspring(s, parents, n, k).0[i] == offspring(s, parents, n, j).0[i],
    decreases k - j,
{
    if j < k {
        lemma_offspring_prefix(s, parents, n, j, (k - 1) as nat);
        lemma_offspring_draw(s, parents, n, (k - 1) as nat);
        assert forall|i: int| 0 <= i < j implies #[trigger] offspring(s, parents, n, k).0[i] == offspring(s, parents, n, j).0[i] by {
            assert(offspring(s, parents, n, k).0[i] == offspring(s, parents, n, (k - 1) as nat).0[i]);
        }
    }
}

/// `k` parents have `k` offspring.
proof fn lemma_offspring_len(s: u64, parents: Seq<u8>, n: usize, k: nat)
    ensures
        offspring(s, parents, n, k).0.len() == k,
    decreases k,
{
    if k > 0 {
        lemma_offspring_len(s, parents, n, (k - 1) as nat);
    }
}

/// Once an offspring has mutated, every longer run of offspring has too.
proof fn lemma_offspring_monotone(s: u64, parents: Seq<u8>, n: usize, j: nat, k: nat)
    requires
        j <= k,
    ensures
        offspring(s, parents, n, j).2 ==> offspring(s, parents, n, k).2,
    decreases k - j,
{
    if j < k {
        lemma_offspring_monotone(s, parents, n, j, (k - 1) as nat);
    }
}

/// How many entries of `s` equal `v`.
pub open spec fn count_of(s: Seq<u8>, v: u8) -> nat
    decreases s.len(),
{
    if s.len() == 0 {
        0
    } else {
        count_of(s.drop_last(), v) + if s.last() == v {
            1nat
        } else {
            0nat
        }
    }
}

/// The count of `v` in `s` is the number of positions of `s` that hold `v`: the length
/// of `s` with every other entry filtered out.
pub proof fn lemma_count_is_frequency(s: Seq<u8>, v: u8)
    ensures
        count_of(s, v) == s.filter(|x: u8| x == v).len(),
    decreases s.len(),
{
    if s.len() > 0 {
        lemma_count_is_frequency(s.drop_last(), v);
        assert(s =~= s.drop_last().push(s.last()));
        s.drop_last().lemma_filter_len_push(|x: u8| x == v, s.last());
    }
}

/// Every strategy is one of the three ternary actions.
pub open spec fn all_ternary(s: Seq<u8>) -> bool {
    forall|i: int| 0 <= i < s.len() ==> #[trigger] s[i] < 3
}

/// Count agents per strategy: entry `k` is the number of agents playing strategy `k`.
pub fn strategy_counts(strategies: &[u8]) -> (counts: Vec<usize>)
    requires
        all_ternary(strategies@),
    ensures
        counts@.len() == 3,
        forall|k: int| 0 <= k < 3 ==> #[trigger] counts@[k] == count_of(strategies@, k as u8),
        forall|k: int| 0 <= k < 3 ==> #[trigger] counts@[k] == strategies@.filter(|x: u8| x == k as u8).len(),
        counts@[0] + counts@[1] + counts@[2] == strategies@.len(),
{
    let mut counts: Vec<usize> = vec![0usize, 0usize, 0usize];
    let mut i: usize = 0;
    while i < strategies.len()
        invariant
            i <= strategies@.len(),
            all_ternary(strategies@),
            counts@.len() == 3,
            forall|k: int| 0 <= k < 3 ==> #[trigger] counts@[k] == count_of(strategies@.take(i as int), k as u8),
            forall|k: int| 0 <= k < 3 ==> #[trigger] counts@[k] <= i,
        decreases strategies@.len() - i,
    {
        let a = strategies[i] as usize;
        assert(strategies@.take(i + 1).drop_last() =~= strategies@.take(i as int));
        let c = counts[a];
        counts.set(a, c + 1);
        i = i + 1;
    }
    assert(strategies@.take(strategies@.len() as int) =~= strategies@);
    proof {
        lemma_counts_sum_to_size(strategies@);
        assert(counts@[0] == count_of(strategies@, 0u8));
        assert(counts@[1] == count_of(strategies@, 1u8));
        assert(counts@[2] == count_of(strategies@, 2u8));
        assert forall|k: int| 0 <= k < 3 implies #[trigger] counts@[k] == strategies@.filter(|x: u8| x == k as u8).len() by {
            lemma_count_is_frequency(strategies@, k as u8);
        }
    }
    counts
}

/// In a ternary population the three counts add up to the population size.
pub proof fn lemma_counts_sum_to_size(s: Seq<u8>)
    requires
        all_ternary(s),
    ensures
        count_of(s, 0) + count_of(s, 1) + count_of(s, 2) == s.len(),
    decreases s.len(),
{
    if s.len() > 0 {
        assert(all_ternary(s.drop_last())) by {
            assert forall|i: int| 0 <= i < s.drop_last().len() implies #[trigger] s.drop_last()[i] < 3 by {
                assert(s[i] < 3);
            }
        }
        assert(s[s.len() - 1] < 3);
        lemma_counts_sum_to_size(s.drop_last());
    }
}

/// The strategies of the agents, listed in the given order of agent indices.
pub open spec fn in_order(strategies: Seq<u8>, order: Seq<usize>) -> Seq<u8> {
    order.map_values(|i: usize| strategies[i as int])
}

/// The ranking of the agents by fitness key (there is exactly one, see
/// `lemma_ranking_unique`).
pub open spec fn ranking_of(keys: Seq<u64>) -> Seq<usize> {
    choose|order: Seq<usize>| is_ranking(keys, order)
}

/// One round of selection: rank the agents by fitness, best first and ties in their
/// current order, keep the upper half and replace the lower half with its offspring
/// (see `replicate_top_half`). `fitness_keys[i]` orders agent `i` as its fitness does.
/// A population with fewer than two agents is returned as it is.
pub fn evolve_strategies(strategies: &[u8], fitness_keys: &[u64], num_strategies: usize, rng: &mut Rng) -> (next: Vec<u8>)
    requires
        fitness_keys@.len() == strategies@.len(),
        num_strategies > 0 || !mutation_within(old(rng)@, (strategies@.len() / 2) as nat),
    ensures
        next@ == replicated(old(rng)@, in_order(strategies@, ranking_of(fitness_keys@)), num_strategies).0,
        final(rng)@ == replicated(old(rng)@, in_order(strategies@, ranking_of(fitness_keys@)), num_strategies).1,
        next@.len() == strategies@.len(),
        num_strategies <= 256 && (forall|i: int| 0 <= i < strategies@.len() ==> #[trigger] strategies@[i] < num_strategies)
            ==> (forall|i: int| 0 <= i < next@.len() ==> #[trigger] next@[i] < num_strategies),
        is_ranking(fitness_keys@, ranking_of(fitness_keys@)),
        forall|p: int|
            0 <= p < strategies@.len() / 2 ==> #[trigger] next@[p] == strategies@[ranking_of(fitness_keys@)[p] as int],
{
    let ghost s0 = rng@;
    let len = strategies.len();
    if len / 2 == 0 {
        let mut same: Vec<u8> = Vec::new();
        let mut i: usize = 0;
        while i < len
            invariant
                i <= len,
                len == strategies@.len(),
                same@ == strategies@.take(i as int),
            decreases len - i,
        {
            same.push(strategies[i]);
            i = i + 1;
        }
        proof {
            assert(strategies@.take(len as int) =~= strategies@);
            let order = ranking_of(fitness_keys@);
            let single: Seq<usize> = if len == 0 { Seq::empty() } else { seq![0usize] };
            assert(is_ranking(fitness_keys@, single)) by {
                if len == 1 {
                    assert(single.contains(0usize)) by {
                        assert(single[0] == 0usize);
                    }
                }
            }
            lemma_ranking_unique(fitness_keys@, order, single);
            assert(in_order(strategies@, order) =~= strategies@);
            assert(strategies@.skip(0) =~= strategies@);
            assert(strategies@.take(0) =~= Seq::<u8>::empty());
        }
        return same;
    }
    let order = rank_by_fitness(fitness_keys);
    let mut ranked: Vec<u8> = Vec::new();
    let mut i: usize = 0;
    while i < len
        invariant
            i <= len,
            len == strategies@.len(),
            len == fitness_keys@.len(),
            is_ranking(fitness_keys@, order@),
            ranked@ =~= in_order(strategies@, order@).take(i as int),
        decreases len - i,
    {
        let a = order[i];
        assert(0 <= order@[i as int] < len);
        ranked.push(strategies[a]);
        i = i + 1;
    }
    proof {
        assert(ranked@ =~= in_order(strategies@, order@));
        lemma_ranking_unique(fitness_keys@, order@, ranking_of(fitness_keys@));
        if num_strategies <= 256 && (forall|i: int| 0 <= i < strategies@.len() ==> #[trigger] strategies@[i] < num_strategies) {
            assert forall|i: int| 0 <= i < ranked@.len() implies #[trigger] ranked@[i] < num_strategies by {
                assert(0 <= order@[i] < len);
                assert(ranked@[i] == strategies@[order@[i] as int]);
            }
            lemma_replication_keeps_range(s0, ranked@, num_strategies);
        }
    }
    replicate_top_half(ranked.as_slice(), num_strategies, rng)
}

} // verus!
