//! Jack's car rental.
//!
//! Jack runs two lots that hold up to 20 cars each. Overnight he may move
//! up to five cars from one lot to the other, at a cost of 2 a car. During
//! the day cars are asked for and brought back at each lot: a car that is
//! rented out earns 10. The numbers asked for and brought back follow
//! Poisson distributions, cut off where they become unlikely.

use crate::fixed::{CERTAIN, MASS_TOLERANCE, ONE};
use crate::value_iteration::{total_probability, Probability, ValueIterationTask};
use vstd::arithmetic::div_mod::lemma_fundamental_div_mod_converse;
use vstd::prelude::*;

verus! {

/// The discount factor: 0.9.
pub const GAMMA: i64 = 900_000_000;

/// The most cars that a lot holds.
pub const CAPACITY: u32 = 20;

/// The most cars that are moved in a night.
pub const MOST_MOVED: u32 = 5;

/// The number of outcomes of a day.
pub const OUTCOMES: usize = 4480;

/// The probability mass that the outcomes of a day carry. The rest, a
/// little more than 3.6%, is the mass of the tails that are cut off.
pub const MASS: u64 = 9_637_833_423_254_400;

/// The cars at the first and at the second lot.
pub type State = (u32, u32);

/// The cars moved overnight from the first lot to the second; a negative
/// number moves cars the other way.
pub type Action = i32;

/// The task.
pub struct JacksCarRental;

/// The Poisson distribution with mean 2, in units of 10^-4, up to 6.
pub open spec fn poisson_2_weights() -> Seq<nat> {
    seq![1353nat, 2707, 2707, 1804, 902, 361, 120]
}

/// The Poisson distribution with mean 3, in units of 10^-4, up to 7.
pub open spec fn poisson_3_weights() -> Seq<nat> {
    seq![498nat, 1494, 2240, 2240, 1680, 1008, 504, 216]
}

/// The Poisson distribution with mean 4, in units of 10^-4, up to 9.
pub open spec fn poisson_4_weights() -> Seq<nat> {
    seq![183nat, 733, 1465, 1954, 1954, 1563, 1042, 595, 298, 132]
}

/// The sum of `weights`.
pub open spec fn total(weights: Seq<nat>) -> nat
    decreases weights.len(),
{
    if weights.len() == 0 {
        0
    } else {
        total(weights.drop_last()) + weights.last()
    }
}

/// The weights of the pairs of an outcome of `f` and an outcome of `g`,
/// which are independent: the pairs with the first outcome of `f` come
/// first.
pub open spec fn crossed(f: Seq<nat>, g: Seq<nat>) -> Seq<nat> {
    Seq::new(f.len() * g.len(), |i: int| f[i / (g.len() as int)] * g[i % (g.len() as int)])
}

/// The weights of the outcomes of a day: cars brought back to the first
/// lot, asked for at the first lot, brought back to the second lot and
/// asked for at the second lot.
pub open spec fn day_weights() -> Seq<nat> {
    crossed(
        crossed(crossed(poisson_3_weights(), poisson_3_weights()), poisson_2_weights()),
        poisson_4_weights(),
    )
}

/// The smaller of two numbers.
pub open spec fn smaller(a: int, b: int) -> int {
    if a <= b {
        a
    } else {
        b
    }
}

/// Whether `s` is a state of the task: neither lot holds more than it can.
pub open spec fn is_stock(s: State) -> bool {
    s.0 <= CAPACITY && s.1 <= CAPACITY
}

/// The most cars that can be moved from the second lot to the first.
pub open spec fn most_to_first(s: State) -> int {
    smaller(CAPACITY - s.0, smaller(s.1 as int, MOST_MOVED as int))
}

/// The most cars that can be moved from the first lot to the second.
pub open spec fn most_to_second(s: State) -> int {
    smaller(CAPACITY - s.1, smaller(s.0 as int, MOST_MOVED as int))
}

/// The moves that can be made in `s`, from the most cars toward the first
/// lot to the most toward the second.
pub open spec fn moves(s: State) -> Seq<Action> {
    Seq::new(
        (most_to_first(s) + most_to_second(s) + 1) as nat,
        |i: int| (i - most_to_first(s)) as i32,
    )
}

/// Every state but the one without cars, the first lot's count rising
/// slowest.
pub open spec fn stocked_states() -> Seq<State> {
    Seq::new(440, |k: int| (((k + 1) / 21) as u32, ((k + 1) % 21) as u32))
}

/// The one terminal state: no car at either lot.
pub open spec fn empty_states() -> Seq<State> {
    seq![(0u32, 0u32)]
}

/// The `i`-th outcome of the day after `a` cars were moved in `s`.
pub open spec fn day_outcome(s: State, a: Action, i: int) -> Probability<State> {
    let returned_first = i / 10 / 7 / 8;
    let asked_first = (i / 10 / 7) % 8;
    let returned_second = (i / 10) % 7;
    let asked_second = i % 10;
    let first = s.0 - a;
    let second = s.1 + a;
    let rented_first = smaller(first, asked_first);
    let rented_second = smaller(second, asked_second);
    Probability {
        probability: day_weights()[i] as u64,
        next_state: (
            smaller(CAPACITY as int, first - rented_first + returned_first) as u32,
            smaller(CAPACITY as int, second - rented_second + returned_second) as u32,
        ),
        reward: (((rented_first + rented_second) * 10 - 2 * (if a < 0 {
            -a
        } else {
            a as int
        })) * ONE) as i64,
    }
}

/// All outcomes of the day after `a` cars were moved in `s`.
pub open spec fn day_outcomes(s: State, a: Action) -> Seq<Probability<State>> {
    Seq::new(OUTCOMES as nat, |i: int| day_outcome(s, a, i))
}

/// One more weight adds itself to the sum.
pub proof fn lemma_total_of_push(weights: Seq<nat>, w: nat)
    ensures
        total(weights.push(w)) == total(weights) + w,
{
    assert(weights.push(w).drop_last() =~= weights);
}

/// The sum of two lists joined is the sum of their sums.
pub proof fn lemma_total_of_concat(a: Seq<nat>, b: Seq<nat>)
    ensures
        total(a + b) == total(a) + total(b),
    decreases b.len(),
{
    if b.len() == 0 {
        assert(a + b =~= a);
    } else {
        lemma_total_of_concat(a, b.drop_last());
        assert((a + b).drop_last() =~= a + b.drop_last());
    }
}

/// Weights that are all multiplied by `x` add up to `x` times their sum.
pub proof fn lemma_total_of_scaled(g: Seq<nat>, x: nat)
    ensures
        total(Seq::new(g.len(), |j: int| x * g[j])) == x * total(g),
    decreases g.len(),
{
    let scaled = Seq::new(g.len(), |j: int| x * g[j]);
    if g.len() > 0 {
        let front = g.drop_last();
        lemma_total_of_scaled(front, x);
        assert(scaled.drop_last() =~= Seq::new(front.len(), |j: int| x * front[j]));
        assert(x * total(g) == x * total(front) + x * g.last()) by (nonlinear_arith)
            requires
                total(g) == total(front) + g.last(),
        ;
    } else {
        assert(x * total(g) == 0) by (nonlinear_arith)
            requires
                total(g) == 0,
        ;
    }
}

/// The weights of pairs of independent outcomes add up to the product of
/// the two sums.
pub proof fn lemma_total_of_crossed(f: Seq<nat>, g: Seq<nat>)
    requires
        g.len() > 0,
    ensures
        total(crossed(f, g)) == total(f) * total(g),
        crossed(f, g).len() == f.len() * g.len(),
    decreases f.len(),
{
    let m = g.len() as int;
    if f.len() == 0 {
        assert(f.len() * g.len() == 0) by (nonlinear_arith)
            requires
                f.len() == 0,
        ;
        assert(total(f) * total(g) == 0) by (nonlinear_arith)
            requires
                total(f) == 0,
        ;
    } else {
        let front = f.drop_last();
        let x = f.last();
        let n = front.len() as int;
        lemma_total_of_crossed(front, g);
        lemma_total_of_scaled(g, x);
        let scaled = Seq::new(g.len(), |j: int| x * g[j]);
        assert(f.len() * g.len() == n * m + m) by (nonlinear_arith)
            requires
                f.len() == n + 1,
                g.len() == m,
        ;
        assert(front.len() * g.len() == n * m);
        assert forall|i: int| 0 <= i < n * m + m implies crossed(f, g)[i] == (crossed(front, g)
            + scaled)[i] by {
            if i < n * m {
                assert(0 <= i / m < n) by (nonlinear_arith)
                    requires
                        0 <= i < n * m,
                        m > 0,
                ;
            } else {
                let j = i - n * m;
                lemma_fundamental_div_mod_converse(i, m, n, j);
            }
        }
        assert(crossed(f, g) =~= crossed(front, g) + scaled);
        lemma_total_of_concat(crossed(front, g), scaled);
        assert(total(f) * total(g) == total(front) * total(g) + x * total(g))
            by (nonlinear_arith)
            requires
                total(f) == total(front) + x,
        ;
    }
}

/// The probabilities of a list of outcomes add up to the sum of their
/// weights.
pub proof fn lemma_total_probability_is_total<S>(
    outcomes: Seq<Probability<S>>,
    weights: Seq<nat>,
)
    requires
        outcomes.len() == weights.len(),
        forall|i: int|
            0 <= i < outcomes.len() ==> (#[trigger] outcomes[i]).probability == weights[i],
    ensures
        total_probability(outcomes) == total(weights),
    decreases outcomes.len(),
{
    if outcomes.len() > 0 {
        lemma_total_probability_is_total(outcomes.drop_last(), weights.drop_last());
    }
}

/// What each of the three distributions adds up to, in units of 10^-4, and
/// the greatest weight in each.
pub proof fn lemma_poisson_totals()
    ensures
        total(poisson_2_weights()) == 9954,
        total(poisson_3_weights()) == 9880,
        total(poisson_4_weights()) == 9919,
        poisson_2_weights().len() == 7,
        poisson_3_weights().len() == 8,
        poisson_4_weights().len() == 10,
        forall|i: int| 0 <= i < 7 ==> #[trigger] poisson_2_weights()[i] <= 2707,
        forall|i: int| 0 <= i < 8 ==> #[trigger] poisson_3_weights()[i] <= 2240,
        forall|i: int| 0 <= i < 10 ==> #[trigger] poisson_4_weights()[i] <= 1954,
{
    let e = Seq::<nat>::empty();
    lemma_total_of_push(e, 1353);
    lemma_total_of_push(e.push(1353), 2707);
    lemma_total_of_push(e.push(1353).push(2707), 2707);
    lemma_total_of_push(e.push(1353).push(2707).push(2707), 1804);
    lemma_total_of_push(e.push(1353).push(2707).push(2707).push(1804), 902);
    lemma_total_of_push(e.push(1353).push(2707).push(2707).push(1804).push(902), 361);
    lemma_total_of_push(e.push(1353).push(2707).push(2707).push(1804).push(902).push(361), 120);
    assert(poisson_2_weights() =~= e.push(1353).push(2707).push(2707).push(1804).push(902).push(
        361,
    ).push(120));
    lemma_total_of_push(e, 498);
    lemma_total_of_push(e.push(498), 1494);
    lemma_total_of_push(e.push(498).push(1494), 2240);
    lemma_total_of_push(e.push(498).push(1494).push(2240), 2240);
    lemma_total_of_push(e.push(498).push(1494).push(2240).push(2240), 1680);
    lemma_total_of_push(e.push(498).push(1494).push(2240).push(2240).push(1680), 1008);
    lemma_total_of_push(e.push(498).push(1494).push(2240).push(2240).push(1680).push(1008), 504);
    lemma_total_of_push(
        e.push(498).push(1494).push(2240).push(2240).push(1680).push(1008).push(504),
        216,
    );
    assert(poisson_3_weights() =~= e.push(498).push(1494).push(2240).push(2240).push(1680).push(
        1008,
    ).push(504).push(216));
    lemma_total_of_push(e, 183);
    lemma_total_of_push(e.push(183), 733);
    lemma_total_of_push(e.push(183).push(733), 1465);
    lemma_total_of_push(e.push(183).push(733).push(1465), 1954);
    lemma_total_of_push(e.push(183).push(733).push(1465).push(1954), 1954);
    lemma_total_of_push(e.push(183).push(733).push(1465).push(1954).push(1954), 1563);
    lemma_total_of_push(e.push(183).push(733).push(1465).push(1954).push(1954).push(1563), 1042);
    lemma_total_of_push(
        e.push(183).push(733).push(1465).push(1954).push(1954).push(1563).push(1042),
        595,
    );
    lemma_total_of_push(
        e.push(183).push(733).push(1465).push(1954).push(1954).push(1563).push(1042).push(595),
        298,
    );
    lemma_total_of_push(
        e.push(183).push(733).push(1465).push(1954).push(1954).push(1563).push(1042).push(
            595,
        ).push(298),
        132,
    );
    assert(poisson_4_weights() =~= e.push(183).push(733).push(1465).push(1954).push(1954).push(
        1563,
    ).push(1042).push(595).push(298).push(132));
}

/// The outcomes of a day carry exactly [`MASS`], which is all of the
/// probability mass but the tails that are cut off.
pub proof fn lemma_day_mass()
    ensures
        day_weights().len() == OUTCOMES,
        total(day_weights()) == MASS,
        CERTAIN - MASS_TOLERANCE <= MASS <= CERTAIN,
{
    lemma_poisson_totals();
    let w2 = poisson_2_weights();
    let w3 = poisson_3_weights();
    let w4 = poisson_4_weights();
    lemma_total_of_crossed(w3, w3);
    lemma_total_of_crossed(crossed(w3, w3), w2);
    lemma_total_of_crossed(crossed(crossed(w3, w3), w2), w4);
    assert(total(crossed(w3, w3)) == 9880 * 9880);
    assert(total(crossed(crossed(w3, w3), w2)) == 9880 * 9880 * 9954);
    assert(total(day_weights()) == 9880 * 9880 * 9954 * 9919);
}

/// The weight of the `i`-th outcome of a day is the product of the weights
/// of its four parts.
pub proof fn lemma_day_weight(i: int)
    requires
        0 <= i < OUTCOMES,
    ensures
        day_weights()[i] == poisson_3_weights()[i / 10 / 7 / 8] * poisson_3_weights()[(i / 10 / 7)
            % 8] * poisson_2_weights()[(i / 10) % 7] * poisson_4_weights()[i % 10],
        day_weights()[i] <= CERTAIN,
{
    lemma_poisson_totals();
    let w2 = poisson_2_weights();
    let w3 = poisson_3_weights();
    let w4 = poisson_4_weights();
    let y = crossed(w3, w3);
    let x = crossed(y, w2);
    lemma_total_of_crossed(w3, w3);
    lemma_total_of_crossed(y, w2);
    lemma_total_of_crossed(x, w4);
    assert(y.len() == 64);
    assert(x.len() == 448);
    let m = i / 10;
    let n = m / 7;
    assert(day_weights()[i] == x[m] * w4[i % 10]);
    assert(x[m] == y[n] * w2[m % 7]);
    assert(y[n] == w3[n / 8] * w3[n % 8]);
    let a = w3[n / 8];
    let b = w3[n % 8];
    let c = w2[m % 7];
    let d = w4[i % 10];
    assert(a * b * c * d <= 10_000_000_000_000_000) by (nonlinear_arith)
        requires
            a <= 2240,
            b <= 2240,
            c <= 2707,
            d <= 1954,
    ;
}

/// The outcomes of a day carry [`MASS`], whatever the state and the move.
pub proof fn lemma_day_outcomes_mass(s: State, a: Action)
    ensures
        total_probability(day_outcomes(s, a)) == MASS,
{
    lemma_day_mass();
    assert forall|i: int| 0 <= i < day_outcomes(s, a).len() implies (#[trigger] day_outcomes(
        s,
        a,
    )[i]).probability == day_weights()[i] by {
        lemma_day_weight(i);
    }
    lemma_total_probability_is_total(day_outcomes(s, a), day_weights());
}

/// A move that can be made leaves neither lot short and neither too full.
pub proof fn lemma_moves_fit(s: State, a: Action)
    requires
        is_stock(s),
        moves(s).contains(a),
    ensures
        -most_to_first(s) <= a <= most_to_second(s),
        0 <= s.0 - a <= CAPACITY,
        0 <= s.1 + a <= CAPACITY,
{
    let i = choose|i: int| 0 <= i < moves(s).len() && moves(s)[i] == a;
    assert(a == i - most_to_first(s));
}

/// The Poisson distribution with mean 2, in units of 10^-4, from no car to
/// six.
pub fn poisson_2() -> (r: Vec<u64>)
    ensures
        r@.len() == 7,
        forall|i: int| 0 <= i < 7 ==> #[trigger] r@[i] == poisson_2_weights()[i],
{
    vec![1353, 2707, 2707, 1804, 902, 361, 120]
}

/// The Poisson distribution with mean 3, in units of 10^-4, from no car to
/// seven.
pub fn poisson_3() -> (r: Vec<u64>)
    ensures
        r@.len() == 8,
        forall|i: int| 0 <= i < 8 ==> #[trigger] r@[i] == poisson_3_weights()[i],
{
    vec![498, 1494, 2240, 2240, 1680, 1008, 504, 216]
}

/// The Poisson distribution with mean 4, in units of 10^-4, from no car to
/// nine.
pub fn poisson_4() -> (r: Vec<u64>)
    ensures
        r@.len() == 10,
        forall|i: int| 0 <= i < 10 ==> #[trigger] r@[i] == poisson_4_weights()[i],
{
    vec![183, 733, 1465, 1954, 1954, 1563, 1042, 595, 298, 132]
}

/// The probability that four independent events happen together.
fn joint(a: u64, b: u64, c: u64, d: u64) -> (r: u64)
    requires
        a <= 10_000,
        b <= 10_000,
        c <= 10_000,
        d <= 10_000,
    ensures
        r == a * b * c * d,
{
    assert(a * b <= 100_000_000) by (nonlinear_arith)
        requires
            a <= 10_000,
            b <= 10_000,
    ;
    let ab: u64 = a * b;
    assert(ab * c <= 1_000_000_000_000) by (nonlinear_arith)
        requires
            ab <= 100_000_000,
            c <= 10_000,
    ;
    let abc: u64 = ab * c;
    assert(abc * d <= 10_000_000_000_000_000) by (nonlinear_arith)
        requires
            abc <= 1_000_000_000_000,
            d <= 10_000,
    ;
    abc * d
}

impl JacksCarRental {
    /// The outcomes of the day after `a` cars were moved in `s`: every
    /// combination of cars brought back and asked for at the two lots, with its
    /// probability, the stock that it leaves and what the day earns.
    #[verifier::loop_isolation(false)]
    pub fn possibilities(&self, s: &State, a: &Action) -> (r: Vec<Probability<State>>)
        requires
            is_stock(*s),
            -most_to_first(*s) <= *a <= most_to_second(*s),
        ensures
            r@ == day_outcomes(*s, *a),
            total_probability(r@) == MASS,
    {
        let ghost all = day_outcomes(*s, *a);
        let w2 = poisson_2();
        let w3 = poisson_3();
        let w4 = poisson_4();
        proof {
            lemma_poisson_totals();
        }
        let mut possibilities: Vec<Probability<State>> = Vec::new();
        let s0: u32 = (s.0 as i32 - *a) as u32;
        let s1: u32 = (s.1 as i32 + *a) as u32;
        let moved: i64 = if *a < 0 {
            -(*a as i64)
        } else {
            *a as i64
        };
        let mut in0: usize = 0;
        while in0 < 8
            invariant
                in0 <= 8,
                possibilities@ =~= all.take(in0 * 560),
            decreases 8 - in0,
        {
            let mut to_out0: usize = 0;
            while to_out0 < 8
                invariant
                    in0 < 8,
                    to_out0 <= 8,
                    possibilities@ =~= all.take((in0 * 8 + to_out0) * 70),
                decreases 8 - to_out0,
            {
                let mut in1: usize = 0;
                while in1 < 7
                    invariant
                        in0 < 8,
                        to_out0 < 8,
                        in1 <= 7,
                        possibilities@ =~= all.take(((in0 * 8 + to_out0) * 7 + in1) * 10),
                    decreases 7 - in1,
                {
                    let mut to_out1: usize = 0;
                    while to_out1 < 10
                        invariant
                            in0 < 8,
                            to_out0 < 8,
                            in1 < 7,
                            to_out1 <= 10,
                            possibilities@ =~= all.take(
                                ((in0 * 8 + to_out0) * 7 + in1) * 10 + to_out1,
                            ),
                        decreases 10 - to_out1,
                    {
                        let ghost i: int = ((in0 * 8 + to_out0) * 7 + in1) * 10 + to_out1;
                        proof {
                            lemma_day_weight(i);
                            lemma_fundamental_div_mod_converse(
                                i,
                                10,
                                (in0 * 8 + to_out0) * 7 + in1,
                                to_out1 as int,
                            );
                            lemma_fundamental_div_mod_converse(
                                i / 10,
                                7,
                                in0 * 8 + to_out0,
                                in1 as int,
                            );
                            lemma_fundamental_div_mod_converse(
                                i / 10 / 7,
                                8,
                                in0 as int,
                                to_out0 as int,
                            );
                        }
                        let out0: u32 = if s0 < to_out0 as u32 {
                            s0
                        } else {
                            to_out0 as u32
                        };
                        let out1: u32 = if s1 < to_out1 as u32 {
                            s1
                        } else {
                            to_out1 as u32
                        };
                        let left0: u32 = s0 - out0 + in0 as u32;
                        let left1: u32 = s1 - out1 + in1 as u32;
                        let possibility = Probability {
                            probability: joint(w3[in0], w3[to_out0], w2[in1], w4[to_out1]),
                            next_state: (
                                if left0 < CAPACITY {
                                    left0
                                } else {
                                    CAPACITY
                                },
                                if left1 < CAPACITY {
                                    left1
                                } else {
                                    CAPACITY
                                },
                            ),
                            reward: ((out0 + out1) as i64 * 10 - 2 * moved) * ONE,
                        };
                        possibilities.push(possibility);
                        to_out1 += 1;
                    }
                    in1 += 1;
                }
                to_out0 += 1;
            }
            in0 += 1;
        }
        proof {
            assert(possibilities@ =~= all);
            lemma_day_outcomes_mass(*s, *a);
        }
        possibilities
    }

    /// The moves that can be made in `s`: no more cars than a lot has, than
    /// the other lot has room for, or than may be moved in a night.
    pub fn action_space(&self, s: &State) -> (r: Vec<Action>)
        requires
            is_stock(*s),
        ensures
            r@ == moves(*s),
    {
        let move_left: u32 = if s.1 < MOST_MOVED {
            s.1
        } else {
            MOST_MOVED
        };
        let move_left: u32 = if CAPACITY - s.0 < move_left {
            CAPACITY - s.0
        } else {
            move_left
        };
        let move_right: u32 = if s.0 < MOST_MOVED {
            s.0
        } else {
            MOST_MOVED
        };
        let move_right: u32 = if CAPACITY - s.1 < move_right {
            CAPACITY - s.1
        } else {
            move_right
        };
        let mut actions: Vec<Action> = Vec::new();
        let mut a: i32 = -(move_left as i32);
        while a < move_right as i32 + 1
            invariant
                move_left == most_to_first(*s),
                move_right == most_to_second(*s),
                -move_left <= a <= move_right + 1,
                actions@ =~= moves(*s).take(a + move_left),
            decreases move_right + 1 - a,
        {
            actions.push(a);
            a += 1;
        }
        actions
    }

    /// Every state but the one without cars.
    #[verifier::loop_isolation(false)]
    pub fn state_space(&self) -> (r: Vec<State>)
        ensures
            r@ == stocked_states(),
    {
        let mut states: Vec<State> = Vec::new();
        let mut i: u32 = 0;
        while i <= 20
            invariant
                i <= 21,
                i == 0 ==> states@.len() == 0,
                i > 0 ==> states@ =~= stocked_states().take(i * 21 - 1),
            decreases 21 - i,
        {
            let mut j: u32 = 0;
            while j <= 20
                invariant
                    i <= 20,
                    j <= 21,
                    i == 0 && j == 0 ==> states@.len() == 0,
                    i > 0 || j > 0 ==> states@ =~= stocked_states().take(i * 21 + j - 1),
                decreases 21 - j,
            {
                if !(i == 0 && j == 0) {
                    proof {
                        lemma_fundamental_div_mod_converse(i * 21 + j, 21, i as int, j as int);
                    }
                    states.push((i, j));
                }
                j += 1;
            }
            i += 1;
        }
        states
    }

    /// The one terminal state.
    pub fn terminal_state_space(&self) -> (r: Vec<State>)
        ensures
            r@ == empty_states(),
    {
        vec![(0, 0)]
    }
}

impl ValueIterationTask for JacksCarRental {
    type State = State;

    type Action = Action;

    open spec fn spec_gamma(&self) -> i64 {
        GAMMA
    }

    open spec fn is_state(&self, s: State) -> bool {
        is_stock(s)
    }

    open spec fn spec_state_space(&self) -> Seq<State> {
        stocked_states()
    }

    open spec fn spec_terminal_state_space(&self) -> Seq<State> {
        empty_states()
    }

    open spec fn spec_action_space(&self, s: State) -> Seq<Action> {
        moves(s)
    }

    open spec fn spec_possibilities(&self, s: State, a: Action) -> Seq<Probability<State>> {
        day_outcomes(s, a)
    }

    proof fn discount_is_a_fraction(&self) {
    }

    proof fn state_space_is_sound(&self) {
    }

    proof fn probabilities_are_conserved(&self, s: State, a: Action) {
        lemma_day_outcomes_mass(s, a);
        lemma_day_mass();
    }

    fn gamma(&self) -> (g: i64) {
        GAMMA
    }

    fn possibilities(&self, s: &State, a: &Action) -> (r: Vec<Probability<State>>) {
        proof {
            lemma_moves_fit(*s, *a);
        }
        self.possibilities(s, a)
    }

    fn action_space(&self, s: &State) -> (r: Vec<Action>) {
        self.action_space(s)
    }

    fn state_space(&self) -> (r: Vec<State>) {
        self.state_space()
    }

    fn terminal_state_space(&self) -> (r: Vec<State>) {
        self.terminal_state_space()
    }
}

} // verus!
