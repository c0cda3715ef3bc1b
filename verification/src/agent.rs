//! The learning agent: epsilon-greedy action selection, whole-episode
//! self-play, and the Monte-Carlo update of the per-state-action value
//! table with a visit-count-adaptive step size.
//!
//! Rates and values are fixed-point integers counted in millionths of a
//! unit, [`SCALE`] per whole unit, so every update step is exact integer
//! arithmetic with truncating division.

use std::collections::HashMap;

use vstd::prelude::*;

use vstd::arithmetic::div_mod::lemma_div_is_ordered;
use vstd::arithmetic::div_mod::lemma_div_is_ordered_by_denominator;
use vstd::arithmetic::div_mod::lemma_div_multiples_vanish;
use vstd::arithmetic::div_mod::lemma_div_nonincreasing;
use vstd::arithmetic::div_mod::lemma_div_pos_is_pos;
use vstd::arithmetic::div_mod::lemma_fundamental_div_mod;
use vstd::arithmetic::mul::lemma_mul_inequality;
use vstd::arithmetic::mul::lemma_mul_nonnegative;

use crate::environment::reward_spec;
use crate::environment::transition_spec;
use crate::environment::TicTacToeEnvironment;
use crate::environment::LOSE_REWARD;
use crate::environment::PENALTY;
use crate::environment::WIN_REWARD;
use crate::game_state::board_code;
use crate::game_state::board_full;
use crate::game_state::empty_board;
use crate::game_state::lemma_board_code_bound;
use crate::game_state::lemma_mark_count_all_empty;
use crate::game_state::lemma_turn_flips;
use crate::game_state::pow3;
use crate::game_state::turn_of;
use crate::game_state::winner_of;
use crate::game_state::GameState;
use crate::grid_state::random_grid_state;
use crate::grid_state::GridState;
use crate::next_step::NextStep;
use crate::rng::random_below;

verus! {

broadcast use vstd::array::group_array_axioms, vstd::std_specs::hash::group_hash_axioms;

/// One whole unit of reward or probability in fixed-point form: rates such
/// as an exploration probability of one tenth are written `SCALE / 10`.
pub const SCALE: i64 = 1_000_000;

/// Every value-table entry stays within ten units in magnitude: a discounted
/// return is a geometric sum of unit-bounded rewards, which the discount of
/// nine tenths keeps below ten units, and each update moves a value towards
/// such a return.
pub const VALUE_BOUND: i64 = 10 * SCALE;

/// The most environment steps one episode is driven through. A game fills
/// at most 9 cells, but moves aimed at occupied cells are absorbed as
/// penalised no-ops, so the step budget makes termination of an episode a
/// proved fact rather than a bet on the random draws.
pub const STEP_LIMIT: usize = 10_000;

/// Truncating division, the rounding-towards-zero rule of machine integer
/// division, for a positive divisor.
pub open spec fn div_trunc(x: int, d: int) -> int
    recommends
        d > 0,
{
    if x >= 0 {
        x / d
    } else {
        -((-x) / d)
    }
}

/// The effective learning rate after `n` visits: one `n`-th of a unit, but
/// never below the configured floor `alpha`.
pub open spec fn rate_spec(alpha: int, n: int) -> int
    recommends
        n >= 1,
{
    let base = (SCALE as int) / n;
    if alpha >= base {
        alpha
    } else {
        base
    }
}

/// The discounted Monte-Carlo return of a reward sequence, with the running
/// discount weight `factor` (starting at one unit and multiplied by nine
/// tenths, truncating, per step).
pub open spec fn mc_return(rs: Seq<i64>, factor: int) -> int
    recommends
        factor >= 0,
    decreases rs.len(),
{
    if rs.len() == 0 {
        0
    } else {
        div_trunc(rs[0] * factor, SCALE as int) + mc_return(rs.drop_first(), (9 * factor) / 10)
    }
}

/// One value-table update: move `q` towards the return `g` by the fraction
/// `rate` of a unit, truncating.
pub open spec fn q_step(q: int, g: int, rate: int) -> int {
    q + div_trunc(rate * (g - q), SCALE as int)
}

/// A visit count one higher, held at the top of the counter's range.
pub open spec fn bump(c: u64) -> u64 {
    if c < u64::MAX {
        (c + 1) as u64
    } else {
        c
    }
}

/// The visit count stored for cell `i` of the row at `k`, zero when the
/// state was never seen.
pub open spec fn count_at(n: Map<u64, [u64; 9]>, k: u64, i: int) -> u64 {
    if n.contains_key(k) {
        n[k]@[i]
    } else {
        0
    }
}

/// The value stored for cell `i` of the row at `k`, zero when the state was
/// never seen.
pub open spec fn value_at(q: Map<u64, [i64; 9]>, k: u64, i: int) -> i64 {
    if q.contains_key(k) {
        q[k]@[i]
    } else {
        0
    }
}

/// Every entry of the row lies within [`VALUE_BOUND`] in magnitude.
pub open spec fn row_bounded(r: [i64; 9]) -> bool {
    forall|i: int| 0 <= i < 9 ==> -VALUE_BOUND <= #[trigger] r@[i] <= VALUE_BOUND
}

/// Every stored value-table row is bounded.
pub open spec fn values_bounded(q: Map<u64, [i64; 9]>) -> bool {
    forall|k: u64| #[trigger] q.contains_key(k) ==> row_bounded(q[k])
}

/// `i` is the greedy choice in `t`: no entry is greater, and every earlier
/// entry is strictly smaller, so the lowest index wins among ties.
pub open spec fn is_greedy_index(t: Seq<i64>, i: int) -> bool {
    &&& 0 <= i < t.len()
    &&& forall|j: int| 0 <= j < t.len() ==> #[trigger] t[j] <= t[i]
    &&& forall|j: int| 0 <= j < i ==> #[trigger] t[j] < t[i]
}

/// A (winner, reward) pair the shaping rule can emit: a reported `O` always
/// comes with the win reward, a reported `X` with the lose reward, and no
/// winner with the penalty or zero.
pub open spec fn shaped_outcome(w: Option<GridState>, r: i64) -> bool {
    match w {
        Some(GridState::O) => r == WIN_REWARD,
        Some(GridState::X) => r == LOSE_REWARD,
        None => r == PENALTY || r == 0,
    }
}

/// A (winner, reward) pair of a step on which the episode went on: no
/// winner yet, and either the no-op penalty or zero. Every log entry but
/// the last one is of this shape.
pub open spec fn continue_outcome(w: Option<GridState>, r: i64) -> bool {
    w is None && (r == PENALTY || r == 0)
}

/// The key `k` codes one of the boards at which the trajectory `e` records
/// a decision; only such keys are touched by the episode update.
pub open spec fn key_in_trajectory(e: Seq<(GameState, usize, i64)>, k: u64) -> bool {
    exists|j: int| 0 <= j < e.len() && board_code((#[trigger] e[j]).0@) == k as int
}

/// One Monte-Carlo table update for a decision at board `s` with action
/// `a` and discounted return `g`, relating the tables before (`n0`, `q0`)
/// and after (`n1`, `q1`): the pair's visit count bumps by one, its value
/// moves towards `g` by the decayed learning rate at the new count, the
/// board's key joins both domains, and nothing else changes.
pub open spec fn one_pair_update(
    n0: Map<u64, [u64; 9]>,
    q0: Map<u64, [i64; 9]>,
    alpha: i64,
    s: GameState,
    a: int,
    g: int,
    n1: Map<u64, [u64; 9]>,
    q1: Map<u64, [i64; 9]>,
) -> bool {
    let key = board_code(s@) as u64;
    let c1 = bump(count_at(n0, key, a));
    &&& n1.dom() == n0.dom().insert(key)
    &&& q1.dom() == q0.dom().insert(key)
    &&& forall|i: int|
        0 <= i < 9 ==> count_at(n1, key, i) == (if i == a {
            c1
        } else {
            count_at(n0, key, i)
        })
    &&& forall|k2: u64, i: int|
        k2 != key && 0 <= i < 9 ==> #[trigger] count_at(n1, k2, i) == count_at(n0, k2, i)
    &&& forall|i: int|
        0 <= i < 9 ==> value_at(q1, key, i) as int == (if i == a {
            q_step(value_at(q0, key, i) as int, g, rate_spec(alpha as int, c1 as int))
        } else {
            value_at(q0, key, i) as int
        })
    &&& forall|k2: u64, i: int|
        k2 != key && 0 <= i < 9 ==> #[trigger] value_at(q1, k2, i) == value_at(q0, k2, i)
}

/// The tables (`n1`, `q1`) are what the first `i` decisions of the
/// trajectory `e` make of (`n0`, `q0`), applied in order, each paid the
/// discounted return of the rewards from its own position to the end.
pub open spec fn tables_updated_upto(
    n0: Map<u64, [u64; 9]>,
    q0: Map<u64, [i64; 9]>,
    alpha: i64,
    e: Seq<(GameState, usize, i64)>,
    i: int,
    n1: Map<u64, [u64; 9]>,
    q1: Map<u64, [i64; 9]>,
) -> bool
    decreases i,
{
    if i <= 0 {
        n1 == n0 && q1 == q0
    } else {
        exists|nm: Map<u64, [u64; 9]>, qm: Map<u64, [i64; 9]>|
            #![trigger one_pair_update(
                nm,
                qm,
                alpha,
                e[i - 1].0,
                e[i - 1].1 as int,
                mc_return(rewards_of(e).skip(i - 1), SCALE as int),
                n1,
                q1,
            )]
            tables_updated_upto(n0, q0, alpha, e, i - 1, nm, qm) && one_pair_update(
                nm,
                qm,
                alpha,
                e[i - 1].0,
                e[i - 1].1 as int,
                mc_return(rewards_of(e).skip(i - 1), SCALE as int),
                n1,
                q1,
            )
    }
}

/// Truncating division of a signed dividend by a positive divisor.
fn div_trunc_i64(x: i64, d: i64) -> (r: i64)
    requires
        d > 0,
        x > i64::MIN,
    ensures
        r as int == div_trunc(x as int, d as int),
{
    if x >= 0 {
        let quot: u64 = (x as u64) / (d as u64);
        proof {
            lemma_div_pos_is_pos(x as int, d as int);
            lemma_div_nonincreasing(x as int, d as int);
        }
        quot as i64
    } else {
        let quot: u64 = ((-x) as u64) / (d as u64);
        proof {
            lemma_div_pos_is_pos(-(x as int), d as int);
            lemma_div_nonincreasing(-(x as int), d as int);
        }
        -(quot as i64)
    }
}

/// The learning rate used for the `n`-th visit of a state-action pair.
pub fn effective_rate(alpha: i64, n: u64) -> (rate: i64)
    requires
        0 < alpha <= SCALE,
        n >= 1,
    ensures
        rate as int == rate_spec(alpha as int, n as int),
        alpha <= rate <= SCALE,
{
    let base_u: u64 = (SCALE as u64) / n;
    proof {
        lemma_div_pos_is_pos(SCALE as int, n as int);
        lemma_div_nonincreasing(SCALE as int, n as int);
    }
    let base: i64 = base_u as i64;
    if alpha >= base {
        alpha
    } else {
        base
    }
}

/// A single discounted term stays within the discount weight: scaling a
/// unit-bounded reward by `f` millionths has magnitude at most `f`.
proof fn lemma_term_bound(r: int, f: int)
    requires
        -(SCALE as int) <= r <= SCALE as int,
        0 <= f,
    ensures
        -f <= div_trunc(r * f, SCALE as int) <= f,
{
    let s = SCALE as int;
    if r * f >= 0 {
        lemma_div_pos_is_pos(r * f, s);
        lemma_mul_inequality(r, s, f);
        lemma_div_is_ordered(r * f, s * f, s);
        lemma_div_multiples_vanish(f, s);
    } else {
        assert(-(r * f) == (-r) * f) by (nonlinear_arith);
        lemma_div_pos_is_pos((-r) * f, s);
        lemma_mul_inequality(-r, s, f);
        lemma_div_is_ordered((-r) * f, s * f, s);
        lemma_div_multiples_vanish(f, s);
    }
}

/// The discounted return of a unit-bounded reward sequence is no larger
/// than ten times the current discount weight.
pub proof fn lemma_mc_return_bound(rs: Seq<i64>, f: int)
    requires
        0 <= f,
        forall|i: int| 0 <= i < rs.len() ==> -SCALE <= #[trigger] rs[i] <= SCALE,
    ensures
        -10 * f <= mc_return(rs, f) <= 10 * f,
    decreases rs.len(),
{
    if rs.len() > 0 {
        let f2 = (9 * f) / 10;
        lemma_div_pos_is_pos(9 * f, 10);
        lemma_fundamental_div_mod(9 * f, 10);
        lemma_term_bound(rs[0] as int, f);
        assert forall|i: int| 0 <= i < rs.drop_first().len() implies -SCALE <= #[trigger] rs.drop_first()[i] <= SCALE by {
            assert(rs.drop_first()[i] == rs[i + 1]);
        }
        lemma_mc_return_bound(rs.drop_first(), f2);
    }
}

/// One update step lands between the old value and the return it moves
/// towards, whatever fraction of a unit the rate is.
pub proof fn lemma_q_step_between(q: int, g: int, rate: int)
    requires
        0 < rate <= SCALE as int,
    ensures
        q <= g ==> q <= q_step(q, g, rate) <= g,
        g <= q ==> g <= q_step(q, g, rate) <= q,
{
    let s = SCALE as int;
    let delta = g - q;
    if delta >= 0 {
        lemma_mul_nonnegative(rate, delta);
        lemma_mul_inequality(rate, s, delta);
        lemma_div_pos_is_pos(rate * delta, s);
        lemma_div_is_ordered(rate * delta, s * delta, s);
        lemma_div_multiples_vanish(delta, s);
    } else {
        assert(-(rate * delta) == rate * (-delta)) by (nonlinear_arith);
        lemma_mul_nonnegative(rate, -delta);
        lemma_mul_inequality(rate, s, -delta);
        lemma_div_pos_is_pos(rate * (-delta), s);
        lemma_div_is_ordered(rate * (-delta), s * (-delta), s);
        lemma_div_multiples_vanish(-delta, s);
    }
}

/// Learning-rate decay: as the visit count grows the effective rate never
/// increases, it never falls below the floor `alpha`, and once the raw
/// one-over-count rate has reached the floor the effective rate stays
/// exactly at `alpha` for every later visit.
pub proof fn lemma_learning_rate_decay(alpha: int, n1: int, n2: int)
    requires
        0 < alpha <= SCALE as int,
        1 <= n1 <= n2,
    ensures
        rate_spec(alpha, n2) <= rate_spec(alpha, n1),
        alpha <= rate_spec(alpha, n2),
        (SCALE as int) / n1 <= alpha ==> rate_spec(alpha, n2) == alpha,
{
    lemma_div_is_ordered_by_denominator(SCALE as int, n1, n2);
    lemma_div_pos_is_pos(SCALE as int, n2);
}

/// Moves `q` towards the return `g` by the fraction `rate` of a unit.
pub fn update_value(q: i64, g: i64, rate: i64) -> (r: i64)
    requires
        -VALUE_BOUND <= q <= VALUE_BOUND,
        -VALUE_BOUND <= g <= VALUE_BOUND,
        0 < rate <= SCALE,
    ensures
        r as int == q_step(q as int, g as int, rate as int),
        -VALUE_BOUND <= r <= VALUE_BOUND,
{
    let delta: i64 = g - q;
    proof {
        lemma_q_step_between(q as int, g as int, rate as int);
        assert((rate as int) * (delta as int) <= 20_000_000_000_000 && (rate as int) * (
        delta as int) >= -20_000_000_000_000) by (nonlinear_arith)
            requires
                0 < rate <= 1_000_000,
                -20_000_000 <= delta <= 20_000_000,
        ;
    }
    let scaled: i64 = rate * delta;
    let adj: i64 = div_trunc_i64(scaled, SCALE);
    q + adj
}

/// The discounted return of the rewards from `start` onward in the episode
/// trajectory, mirroring [`mc_return`] with the weight starting at one unit.
pub fn compute_return(experience: &Vec<(GameState, usize, i64)>, start: usize) -> (g: i64)
    requires
        start <= experience@.len(),
        forall|i: int|
            0 <= i < experience@.len() ==> -SCALE <= (#[trigger] experience@[i]).2 <= SCALE,
    ensures
        g as int == mc_return(rewards_of(experience@).skip(start as int), SCALE as int),
        -VALUE_BOUND <= g <= VALUE_BOUND,
{
    let rs = Ghost(rewards_of(experience@));
    let mut g: i64 = 0;
    let mut factor: i64 = SCALE;
    let mut k: usize = start;
    proof {
        lemma_mc_return_bound(rs@.skip(start as int), SCALE as int);
    }
    while k < experience.len()
        invariant
            start <= k <= experience@.len(),
            rs@ == rewards_of(experience@),
            forall|i: int|
                0 <= i < experience@.len() ==> -SCALE <= (#[trigger] experience@[i]).2 <= SCALE,
            0 <= factor <= SCALE,
            g + mc_return(rs@.skip(k as int), factor as int) == mc_return(
                rs@.skip(start as int),
                SCALE as int,
            ),
            -10 * (SCALE - factor) <= g as int <= 10 * (SCALE - factor),
        decreases experience@.len() - k,
    {
        let reward: i64 = experience[k].2;
        proof {
            assert(rs@.skip(k as int).drop_first() =~= rs@.skip(k + 1));
            assert(rs@.skip(k as int)[0] == experience@[k as int].2);
            lemma_term_bound(reward as int, factor as int);
            lemma_fundamental_div_mod(9 * (factor as int), 10);
            lemma_div_pos_is_pos(9 * (factor as int), 10);
            assert((reward as int) * (factor as int) <= 1_000_000_000_000 && (reward as int) * (
            factor as int) >= -1_000_000_000_000) by (nonlinear_arith)
                requires
                    -1_000_000 <= reward <= 1_000_000,
                    0 <= factor <= 1_000_000,
            ;
        }
        let term: i64 = div_trunc_i64(reward * factor, SCALE);
        g = g + term;
        factor = div_trunc_i64(9 * factor, 10);
        k += 1;
    }
    proof {
        assert(rs@.skip(k as int).len() == 0);
    }
    g
}

/// Picks the index of the greatest entry, scanning left to right and moving
/// only on a strictly greater value, so the lowest index wins among ties.
fn greedy_index(t: &[i64; 9]) -> (best: usize)
    ensures
        is_greedy_index(t@, best as int),
{
    let mut best: usize = 0;
    let mut i: usize = 1;
    while i < 9
        invariant
            1 <= i <= 9,
            best < i,
            forall|j: int| 0 <= j < i ==> #[trigger] t@[j] <= t@[best as int],
            forall|j: int| 0 <= j < best ==> #[trigger] t@[j] < t@[best as int],
        decreases 9 - i,
    {
        if t[i] > t[best] {
            best = i;
        }
        i += 1;
    }
    best
}

/// The rewards of an episode trajectory, in order.
pub open spec fn rewards_of(e: Seq<(GameState, usize, i64)>) -> Seq<i64> {
    e.map_values(|t: (GameState, usize, i64)| t.2)
}

/// The learning agent: exploration rate, learning-rate floor, the value and
/// visit-count tables keyed by board code, the mark the learner holds for
/// the episode in progress, and the last board state it observed.
#[derive(Debug)]
pub struct Agent {
    /// Exploration probability in millionths: `SCALE` explores always.
    pub epsilon: i64,
    /// Learning-rate floor in millionths; must be positive.
    pub alpha: i64,
    /// Visit counts per board code and action.
    pub n: HashMap<u64, [u64; 9]>,
    /// Estimated action values per board code, in millionths of a unit.
    pub q: HashMap<u64, [i64; 9]>,
    /// The mark the learner plays in the current episode.
    pub turn: GridState,
    /// The board state recorded at the learner's last own transition.
    pub last_state: GameState,
}

impl Agent {
    /// The agent's invariant: rates lie within one unit, the floor is
    /// positive, and every stored value is bounded.
    pub open spec fn wf(&self) -> bool {
        &&& 0 <= self.epsilon <= SCALE
        &&& 0 < self.alpha <= SCALE
        &&& values_bounded(self.q@)
    }

    /// A fresh agent with the given exploration rate and learning-rate
    /// floor (both in millionths), empty tables, and the empty board as its
    /// last observed state.
    pub fn new(epsilon: i64, alpha: i64) -> (agent: Agent)
        requires
            0 <= epsilon <= SCALE,
            0 < alpha <= SCALE,
        ensures
            agent.wf(),
            agent.epsilon == epsilon,
            agent.alpha == alpha,
            agent.q@ == Map::<u64, [i64; 9]>::empty(),
            agent.n@ == Map::<u64, [u64; 9]>::empty(),
            agent.turn == GridState::O,
            agent.last_state@ == empty_board(),
    {
        Agent {
            epsilon,
            alpha,
            n: HashMap::new(),
            q: HashMap::new(),
            turn: GridState::O,
            last_state: GameState::new(),
        }
    }

    /// Epsilon-greedy action selection: with probability `epsilon` a
    /// uniformly random cell; otherwise the greedy index of the current
    /// board's value row, or a random cell when the board was never seen.
    /// With exploration off, a seen board always gets its greedy action.
    pub fn policy(&self, env: &TicTacToeEnvironment) -> (action: usize)
        requires
            self.wf(),
        ensures
            action < 9,
            (self.epsilon == 0 && self.q@.contains_key(board_code(env@) as u64))
                ==> is_greedy_index(self.q@[board_code(env@) as u64]@, action as int),
    {
        let draw: u64 = random_below(SCALE as u64);
        if (draw as i64) < self.epsilon {
            random_below(9) as usize
        } else {
            let state = env.get_state();
            let key: u64 = state.encode();
            proof {
                lemma_board_code_bound(env@);
                reveal_with_fuel(pow3, 10);
                assert(pow3(9) == 19683);
            }
            match self.q.get(&key) {
                Some(row) => greedy_index(row),
                None => random_below(9) as usize,
            }
        }
    }

    /// Runs one episode of self-play against a uniformly random opponent
    /// and applies the Monte-Carlo update, returning the (winner, reward)
    /// log of the learner's own steps in order. The episode starts from a
    /// clean slate: the board and the recorded prior state are both reset
    /// to the empty board, so no outcome of an earlier episode can leak in
    /// — the first recorded step always belongs to a continuing game. The
    /// log is never empty: the learner provably acts within the first two
    /// steps. Every entry but the last belongs to a continuing game; the
    /// last carries whatever the shaping rule ended the episode with — or,
    /// if the step budget of [`STEP_LIMIT`] ran out first, the episode's
    /// final continuing step. The exploration and learning rates survive
    /// unchanged, the agent's recorded last state is the environment's
    /// final board, visit counts never decrease, and no table entry is
    /// ever removed.
    pub fn play(&mut self, env: &mut TicTacToeEnvironment) -> (log: Vec<(Option<GridState>, i64)>)
        requires
            old(self).wf(),
        ensures
            final(self).wf(),
            final(self).epsilon == old(self).epsilon,
            final(self).alpha == old(self).alpha,
            final(self).last_state@ == final(env)@,
            1 <= log@.len() <= STEP_LIMIT,
            forall|i: int|
                0 <= i < log@.len() ==> shaped_outcome(
                    (#[trigger] log@[i]).0,
                    log@[i].1,
                ),
            forall|i: int|
                0 <= i < log@.len() - 1 ==> continue_outcome(
                    (#[trigger] log@[i]).0,
                    log@[i].1,
                ),
            continue_outcome(log@[0].0, log@[0].1),
            forall|k: u64| old(self).n@.contains_key(k) ==> final(self).n@.contains_key(k),
            forall|k: u64| old(self).q@.contains_key(k) ==> final(self).q@.contains_key(k),
            forall|k: u64, i: int|
                0 <= i < 9 ==> #[trigger] count_at(final(self).n@, k, i) >= count_at(
                    old(self).n@,
                    k,
                    i,
                ),
            exists|e: Seq<(GameState, usize, i64)>|
                #![trigger tables_updated_upto(
                    old(self).n@,
                    old(self).q@,
                    old(self).alpha,
                    e,
                    e.len() as int,
                    final(self).n@,
                    final(self).q@,
                )]
                {
                    &&& e.len() == log@.len()
                    &&& forall|i: int|
                        0 <= i < e.len() ==> (#[trigger] e[i]).1 < 9 && e[i].2 == log@[i].1
                    &&& tables_updated_upto(
                        old(self).n@,
                        old(self).q@,
                        old(self).alpha,
                        e,
                        e.len() as int,
                        final(self).n@,
                        final(self).q@,
                    )
                },
    {
        env.reset();
        self.last_state = GameState::new();
        self.turn = random_grid_state();

        let mut rewards: Vec<(Option<GridState>, i64)> = Vec::new();
        let mut experience: Vec<(GameState, usize, i64)> = Vec::new();

        let mut steps: usize = 0;
        let mut done: bool = false;

        while !done && steps < STEP_LIMIT
            invariant
                self.wf(),
                self.epsilon == old(self).epsilon,
                self.alpha == old(self).alpha,
                self.n@ == old(self).n@,
                self.q@ == old(self).q@,
                steps <= STEP_LIMIT,
                env@.len() == 9,
                steps >= 1 ==> self.last_state@ == env@,
                steps == 0 ==> env@ == empty_board() && self.last_state@ == empty_board(),
                done ==> rewards@.len() >= 1,
                rewards@.len() == 0 ==> steps <= 1,
                rewards@.len() == 0 && steps >= 1 ==> self.turn == GridState::X && (exists|j: int|
                    #![trigger empty_board().update(j, Some(GridState::O))]
                    0 <= j < 9 && env@ == empty_board().update(j, Some(GridState::O))),
                rewards@.len() >= 1 ==> continue_outcome(rewards@[0].0, rewards@[0].1),
                forall|i: int| 0 <= i < experience@.len() ==> (#[trigger] experience@[i]).1 < 9,
                forall|i: int|
                    0 <= i < experience@.len() ==> -SCALE <= (#[trigger] experience@[i]).2
                        <= SCALE,
                experience@.len() == rewards@.len(),
                forall|i: int|
                    0 <= i < experience@.len() ==> (#[trigger] experience@[i]).2 == rewards@[i].1,
                rewards@.len() <= steps,
                forall|i: int|
                    0 <= i < rewards@.len() ==> shaped_outcome(
                        (#[trigger] rewards@[i]).0,
                        rewards@[i].1,
                    ),
                forall|i: int|
                    0 <= i < rewards@.len() - 1 ==> continue_outcome(
                        (#[trigger] rewards@[i]).0,
                        rewards@[i].1,
                    ),
                !done && rewards@.len() >= 1 ==> continue_outcome(
                    rewards@[rewards@.len() - 1].0,
                    rewards@[rewards@.len() - 1].1,
                ),
            decreases STEP_LIMIT - steps,
        {
            let ghost pre = env@;
            let ghost last_pre = self.last_state@;
            let ghost len0 = rewards@.len();
            let ghost steps0 = steps as int;
            steps += 1;
            if env.check_turn() == self.turn {
                let first_state = env.get_state();
                let action_id = self.policy(env);
                let (game_state, reward, next_step, winner) = env.step(action_id, self.last_state);
                self.last_state = game_state;
                proof {
                    assert(shaped_outcome(winner, reward));
                    assert(-SCALE <= reward <= SCALE);
                    if next_step != NextStep::DoneGame {
                        assert(continue_outcome(winner, reward));
                    }
                    if len0 == 0 {
                        // The learner's first step of an episode cannot end
                        // it: the board holds at most one mark and the
                        // prior state is in sync, so whichever cell is
                        // tried, the rule reports a continuing game.
                        let tr = transition_spec(pre, action_id as int, last_pre);
                        assert(env@ == tr.0 && (reward, next_step, winner) == tr.1);
                        assert(last_pre == pre);
                        if steps0 == 0 {
                            assert(pre == empty_board());
                        }
                        if pre == empty_board() {
                            lemma_mark_count_all_empty(pre, GridState::O);
                            lemma_mark_count_all_empty(pre, GridState::X);
                            assert(turn_of(pre) == GridState::O);
                            assert(pre[0] is None);
                            assert(!board_full(pre));
                            assert(winner_of(pre) is None);
                            let first = reward_spec(last_pre, pre, pre);
                            assert(first.1 == NextStep::ContinueGame);
                            assert(pre[action_id as int] is None);
                            let post = pre.update(action_id as int, Some(turn_of(pre)));
                            assert(tr.0 == post);
                            let w: int = if action_id == 0 {
                                1
                            } else {
                                0
                            };
                            assert(post[w] is None);
                            assert(!board_full(post));
                            assert(post[action_id as int] is Some);
                            assert(post != pre);
                            assert(tr.1 == (0i64, NextStep::ContinueGame, None::<GridState>));
                        } else {
                            assert(steps0 >= 1);
                            let j = choose|j2: int|
                                0 <= j2 < 9 && pre == empty_board().update(
                                    j2,
                                    Some(GridState::O),
                                );
                            assert(pre[j] == Some(GridState::O));
                            let w: int = if j == 0 {
                                1
                            } else {
                                0
                            };
                            assert(pre[w] is None);
                            assert(!board_full(pre));
                            assert(winner_of(pre) is None);
                            let first = reward_spec(last_pre, pre, pre);
                            assert(first == (
                                PENALTY,
                                NextStep::ContinueGame,
                                None::<GridState>,
                            ));
                            if action_id as int == j {
                                assert(tr.0 == pre);
                                assert(tr.1 == (
                                    PENALTY,
                                    NextStep::ContinueGame,
                                    None::<GridState>,
                                ));
                            } else {
                                assert(pre[action_id as int] is None);
                                let post = pre.update(action_id as int, Some(turn_of(pre)));
                                assert(tr.0 == post);
                                let w2: int = if j != 0 && action_id as int != 0 {
                                    0
                                } else if j != 1 && action_id as int != 1 {
                                    1
                                } else {
                                    2
                                };
                                assert(post[w2] is None);
                                assert(!board_full(post));
                                assert(post[action_id as int] is Some);
                                assert(post != pre);
                                assert(tr.1 == (
                                    0i64,
                                    NextStep::ContinueGame,
                                    None::<GridState>,
                                ));
                            }
                        }
                        assert(continue_outcome(winner, reward));
                    }
                }
                experience.push((first_state, action_id, reward));
                rewards.push((winner, reward));
                if next_step == NextStep::DoneGame {
                    done = true;
                }
            } else {
                let action_id = random_below(9) as usize;
                let (game_state, _reward, _next_step, _winner) = env.step(
                    action_id,
                    self.last_state,
                );
                self.last_state = game_state;
                proof {
                    if len0 == 0 {
                        // The opponent only moves before the learner's
                        // first action when the board is still empty: its
                        // mark then lands, and the move passes to the
                        // learner.
                        let tr = transition_spec(pre, action_id as int, last_pre);
                        assert(env@ == tr.0);
                        if steps0 >= 1 {
                            let j = choose|j2: int|
                                0 <= j2 < 9 && pre == empty_board().update(
                                    j2,
                                    Some(GridState::O),
                                );
                            lemma_mark_count_all_empty(empty_board(), GridState::O);
                            lemma_mark_count_all_empty(empty_board(), GridState::X);
                            lemma_turn_flips(empty_board(), j);
                            assert(turn_of(pre) == GridState::X);
                            assert(self.turn == GridState::X);
                            assert(false);
                        }
                        assert(pre == empty_board());
                        assert(last_pre == pre);
                        lemma_mark_count_all_empty(pre, GridState::O);
                        lemma_mark_count_all_empty(pre, GridState::X);
                        assert(turn_of(pre) == GridState::O);
                        assert(self.turn == GridState::X);
                        assert(pre[0] is None);
                        assert(!board_full(pre));
                        assert(winner_of(pre) is None);
                        let first = reward_spec(last_pre, pre, pre);
                        assert(first.1 == NextStep::ContinueGame);
                        assert(pre[action_id as int] is None);
                        assert(tr.0 == pre.update(action_id as int, Some(turn_of(pre))));
                        assert(env@ == empty_board().update(
                            action_id as int,
                            Some(GridState::O),
                        ));
                    }
                }
            }
        }
        proof {
            assert(rewards@.len() >= 1);
        }

        self.update_tables(&experience);
        rewards
    }

    /// The backward credit-assignment pass: for each recorded transition,
    /// bump its visit count, derive the decayed learning rate, and move the
    /// stored value towards the discounted return from that point on. No
    /// visit count ever decreases, no table entry is removed, and every
    /// state outside the trajectory keeps its rows untouched.
    fn update_tables(&mut self, experience: &Vec<(GameState, usize, i64)>)
        requires
            old(self).wf(),
            forall|i: int| 0 <= i < experience@.len() ==> (#[trigger] experience@[i]).1 < 9,
            forall|i: int|
                0 <= i < experience@.len() ==> -SCALE <= (#[trigger] experience@[i]).2 <= SCALE,
        ensures
            final(self).wf(),
            final(self).epsilon == old(self).epsilon,
            final(self).alpha == old(self).alpha,
            final(self).turn == old(self).turn,
            final(self).last_state == old(self).last_state,
            forall|k: u64| old(self).n@.contains_key(k) ==> final(self).n@.contains_key(k),
            forall|k: u64| old(self).q@.contains_key(k) ==> final(self).q@.contains_key(k),
            forall|k: u64, i: int|
                0 <= i < 9 ==> #[trigger] count_at(final(self).n@, k, i) >= count_at(
                    old(self).n@,
                    k,
                    i,
                ),
            forall|k: u64|
                !key_in_trajectory(experience@, k) ==> #[trigger] final(self).n@.contains_key(k)
                    == old(self).n@.contains_key(k),
            forall|k: u64|
                !key_in_trajectory(experience@, k) ==> #[trigger] final(self).q@.contains_key(k)
                    == old(self).q@.contains_key(k),
            forall|k: u64, i: int|
                !key_in_trajectory(experience@, k) && 0 <= i < 9 ==> #[trigger] count_at(
                    final(self).n@,
                    k,
                    i,
                ) == count_at(old(self).n@, k, i),
            forall|k: u64, i: int|
                !key_in_trajectory(experience@, k) && 0 <= i < 9 ==> #[trigger] value_at(
                    final(self).q@,
                    k,
                    i,
                ) == value_at(old(self).q@, k, i),
            tables_updated_upto(
                old(self).n@,
                old(self).q@,
                old(self).alpha,
                experience@,
                experience@.len() as int,
                final(self).n@,
                final(self).q@,
            ),
    {
        let mut i: usize = 0;
        while i < experience.len()
            invariant
                i <= experience@.len(),
                self.wf(),
                self.epsilon == old(self).epsilon,
                self.alpha == old(self).alpha,
                self.turn == old(self).turn,
                self.last_state == old(self).last_state,
                forall|j: int| 0 <= j < experience@.len() ==> (#[trigger] experience@[j]).1 < 9,
                forall|j: int|
                    0 <= j < experience@.len() ==> -SCALE <= (#[trigger] experience@[j]).2
                        <= SCALE,
                forall|k: u64| old(self).n@.contains_key(k) ==> self.n@.contains_key(k),
                forall|k: u64| old(self).q@.contains_key(k) ==> self.q@.contains_key(k),
                forall|k: u64, i2: int|
                    0 <= i2 < 9 ==> #[trigger] count_at(self.n@, k, i2) >= count_at(
                        old(self).n@,
                        k,
                        i2,
                    ),
                forall|k: u64|
                    !key_in_trajectory(experience@, k) ==> #[trigger] self.n@.contains_key(k)
                        == old(self).n@.contains_key(k),
                forall|k: u64|
                    !key_in_trajectory(experience@, k) ==> #[trigger] self.q@.contains_key(k)
                        == old(self).q@.contains_key(k),
                forall|k: u64, i2: int|
                    !key_in_trajectory(experience@, k) && 0 <= i2 < 9 ==> #[trigger] count_at(
                        self.n@,
                        k,
                        i2,
                    ) == count_at(old(self).n@, k, i2),
                forall|k: u64, i2: int|
                    !key_in_trajectory(experience@, k) && 0 <= i2 < 9 ==> #[trigger] value_at(
                        self.q@,
                        k,
                        i2,
                    ) == value_at(old(self).q@, k, i2),
                tables_updated_upto(
                    old(self).n@,
                    old(self).q@,
                    old(self).alpha,
                    experience@,
                    i as int,
                    self.n@,
                    self.q@,
                ),
            decreases experience@.len() - i,
        {
            let (state, action_id, _reward) = experience[i];
            let g: i64 = compute_return(experience, i);
            let key: u64 = state.encode();
            let ghost prev: Agent = *self;
            self.apply_update(key, action_id, g);
            proof {
                assert(experience@[i as int].0 == state);
                assert(experience@[i as int].1 == action_id);
                assert(board_code(experience@[i as int].0@) == key as int);
                assert(key_in_trajectory(experience@, key));
                lemma_board_code_bound(state@);
                reveal_with_fuel(pow3, 10);
                assert(pow3(9) == 19683);
                assert(board_code(state@) as u64 == key);
                assert(one_pair_update(
                    prev.n@,
                    prev.q@,
                    old(self).alpha,
                    state,
                    action_id as int,
                    g as int,
                    self.n@,
                    self.q@,
                ));
                assert(tables_updated_upto(
                    old(self).n@,
                    old(self).q@,
                    old(self).alpha,
                    experience@,
                    i + 1,
                    self.n@,
                    self.q@,
                )) by {
                    assert(tables_updated_upto(
                        old(self).n@,
                        old(self).q@,
                        old(self).alpha,
                        experience@,
                        i + 1 - 1,
                        prev.n@,
                        prev.q@,
                    ));
                    assert(g as int == mc_return(
                        rewards_of(experience@).skip(i + 1 - 1),
                        SCALE as int,
                    ));
                    assert(one_pair_update(
                        prev.n@,
                        prev.q@,
                        old(self).alpha,
                        experience@[i + 1 - 1].0,
                        experience@[i + 1 - 1].1 as int,
                        mc_return(rewards_of(experience@).skip(i + 1 - 1), SCALE as int),
                        self.n@,
                        self.q@,
                    ));
                };
                assert forall|k2: u64, i2: int| 0 <= i2 < 9 implies #[trigger] count_at(
                    self.n@,
                    k2,
                    i2,
                ) >= count_at(old(self).n@, k2, i2) by {
                    if k2 == key {
                        if i2 == action_id as int {
                            assert(count_at(self.n@, k2, i2) == bump(count_at(prev.n@, k2, i2)));
                        } else {
                            assert(count_at(self.n@, k2, i2) == count_at(prev.n@, k2, i2));
                        }
                    } else {
                        assert(count_at(self.n@, k2, i2) == count_at(prev.n@, k2, i2));
                    }
                    assert(count_at(prev.n@, k2, i2) >= count_at(old(self).n@, k2, i2));
                }
                assert forall|k2: u64| old(self).n@.contains_key(k2) implies self.n@.contains_key(
                    k2,
                ) by {
                    assert(prev.n@.contains_key(k2));
                    assert(self.n@.dom() == prev.n@.dom().insert(key));
                }
                assert forall|k2: u64| old(self).q@.contains_key(k2) implies self.q@.contains_key(
                    k2,
                ) by {
                    assert(prev.q@.contains_key(k2));
                    assert(self.q@.dom() == prev.q@.dom().insert(key));
                }
                assert forall|k2: u64| !key_in_trajectory(experience@, k2)
                    implies #[trigger] self.n@.contains_key(k2) == old(self).n@.contains_key(
                    k2,
                ) by {
                    assert(k2 != key);
                    assert(self.n@.dom() == prev.n@.dom().insert(key));
                }
                assert forall|k2: u64| !key_in_trajectory(experience@, k2)
                    implies #[trigger] self.q@.contains_key(k2) == old(self).q@.contains_key(
                    k2,
                ) by {
                    assert(k2 != key);
                    assert(self.q@.dom() == prev.q@.dom().insert(key));
                }
                assert forall|k2: u64, i2: int|
                    !key_in_trajectory(experience@, k2) && 0 <= i2 < 9
                    implies #[trigger] count_at(self.n@, k2, i2) == count_at(
                    old(self).n@,
                    k2,
                    i2,
                ) by {
                    assert(k2 != key);
                    assert(count_at(self.n@, k2, i2) == count_at(prev.n@, k2, i2));
                }
                assert forall|k2: u64, i2: int|
                    !key_in_trajectory(experience@, k2) && 0 <= i2 < 9
                    implies #[trigger] value_at(self.q@, k2, i2) == value_at(
                    old(self).q@,
                    k2,
                    i2,
                ) by {
                    assert(k2 != key);
                    assert(value_at(self.q@, k2, i2) == value_at(prev.q@, k2, i2));
                }
            }
            i += 1;
        }
    }

    /// One table update for the pair (`key`, `action`): the visit count at
    /// that pair rises by one (saturating), its value moves towards `g` by
    /// the decayed learning rate, and no other entry changes.
    fn apply_update(&mut self, key: u64, action: usize, g: i64)
        requires
            old(self).wf(),
            action < 9,
            -VALUE_BOUND <= g <= VALUE_BOUND,
        ensures
            final(self).wf(),
            final(self).epsilon == old(self).epsilon,
            final(self).alpha == old(self).alpha,
            final(self).turn == old(self).turn,
            final(self).last_state == old(self).last_state,
            final(self).n@.dom() == old(self).n@.dom().insert(key),
            final(self).q@.dom() == old(self).q@.dom().insert(key),
            forall|i: int|
                0 <= i < 9 ==> count_at(final(self).n@, key, i) == (if i == action as int {
                    bump(count_at(old(self).n@, key, i))
                } else {
                    count_at(old(self).n@, key, i)
                }),
            forall|k2: u64, i: int|
                k2 != key && 0 <= i < 9 ==> #[trigger] count_at(final(self).n@, k2, i) == count_at(
                    old(self).n@,
                    k2,
                    i,
                ),
            forall|i: int|
                0 <= i < 9 ==> value_at(final(self).q@, key, i) as int == (if i == action as int {
                    q_step(
                        value_at(old(self).q@, key, i) as int,
                        g as int,
                        rate_spec(
                            old(self).alpha as int,
                            bump(count_at(old(self).n@, key, action as int)) as int,
                        ),
                    )
                } else {
                    value_at(old(self).q@, key, i) as int
                }),
            forall|k2: u64, i: int|
                k2 != key && 0 <= i < 9 ==> #[trigger] value_at(final(self).q@, k2, i) == value_at(
                    old(self).q@,
                    k2,
                    i,
                ),
    {
        let mut n_row: [u64; 9] = match self.n.get(&key) {
            Some(row) => *row,
            None => [0, 0, 0, 0, 0, 0, 0, 0, 0],
        };
        let c_old: u64 = n_row[action];
        let c_new: u64 = if c_old < u64::MAX {
            c_old + 1
        } else {
            c_old
        };
        n_row[action] = c_new;
        self.n.insert(key, n_row);

        let rate: i64 = effective_rate(self.alpha, c_new);

        let mut q_row: [i64; 9] = match self.q.get(&key) {
            Some(row) => *row,
            None => [0, 0, 0, 0, 0, 0, 0, 0, 0],
        };
        let q_old: i64 = q_row[action];
        let q_new: i64 = update_value(q_old, g, rate);
        q_row[action] = q_new;
        self.q.insert(key, q_row);

        proof {
            assert(self.n@.dom() =~= old(self).n@.dom().insert(key));
            assert(self.q@.dom() =~= old(self).q@.dom().insert(key));
        }
    }

    /// A snapshot of the learned value table, keyed by board code.
    pub fn get_q_table(&self) -> (table: HashMap<u64, [i64; 9]>)
        ensures
            table@ == self.q@,
    {
        self.q.clone()
    }
}

} // verus!
