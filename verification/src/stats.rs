//! Running statistics of the payoffs seen for one action in one state.
//!
//! Payoffs are whole numbers of half bets, so the count, the sum and the sum
//! of squares are exact, and so is the test of the standard error against a
//! target.

use vstd::prelude::*;

verus! {

/// Largest payoff, in half bets, that a record may hold in either direction.
pub const PAYOFF_LIMIT: i32 = 8;

/// What a record of trials comes to: how many there were, the sum of their
/// payoffs and the sum of the payoffs' squares.
pub struct Tally {
    pub n: nat,
    pub sum: int,
    pub sum_sq: nat,
}

impl Tally {
    /// The tally of no trial.
    pub open spec fn empty() -> Tally {
        Tally { n: 0, sum: 0, sum_sq: 0 }
    }

    /// The tally with one more trial of payoff `x`.
    pub open spec fn record(self, x: int) -> Tally {
        Tally { n: self.n + 1, sum: self.sum + x, sum_sq: (self.sum_sq + x * x) as nat }
    }

    /// The tally of the trials of both.
    pub open spec fn merge(self, other: Tally) -> Tally {
        Tally {
            n: self.n + other.n,
            sum: self.sum + other.sum,
            sum_sq: self.sum_sq + other.sum_sq,
        }
    }

    /// The variance of the payoffs in half bets, times the square of the
    /// count: `n * sum_sq - sum * sum`, and zero where that is negative.
    pub open spec fn spread(self) -> nat {
        let raw = self.n * self.sum_sq - self.sum * self.sum;
        if raw < 0 {
            0
        } else {
            raw as nat
        }
    }

    /// Whether the standard error of the mean, in bets, is under
    /// `millis / 1000`. With fewer than two trials it never is.
    ///
    /// In bets the variance is `spread / (4 n^2)` and the squared standard
    /// error is the variance over `n`, so the test is
    /// `spread / (4 n^3) < millis^2 / 1000^2` with the fractions cleared.
    pub open spec fn sem_below(self, millis: nat) -> bool {
        self.n >= 2 && self.spread() * 1_000_000 < 4 * millis * millis * (self.n * self.n * self.n)
    }

    /// Whether the mean payoff of this tally is higher than that of `other`.
    /// A tally of no trial has no mean: it is higher than none, and every
    /// mean is higher than it.
    pub open spec fn mean_exceeds(self, other: Tally) -> bool {
        self.n > 0 && (other.n == 0 || self.sum * other.n > other.sum * self.n)
    }

    /// Whether the sums are no larger than payoffs within the limit of 8
    /// half bets can make them.
    pub open spec fn bounded(self) -> bool {
        &&& -8 * self.n <= self.sum <= 8 * self.n
        &&& self.sum_sq <= 64 * self.n
    }
}

/// Merging tallies gives the same count, sum and sum of squares in either
/// order.
pub proof fn lemma_merge_commutative(a: Tally, b: Tally)
    ensures
        a.merge(b) == b.merge(a),
{
}

/// Merging three tallies gives the same count, sum and sum of squares however
/// they are grouped.
pub proof fn lemma_merge_associative(a: Tally, b: Tally, c: Tally)
    ensures
        a.merge(b).merge(c) == a.merge(b.merge(c)),
{
}

/// Where the mean of `a` is higher than that of `b`, and that of `c` is not,
/// the mean of `a` is higher than that of `c`.
pub proof fn lemma_mean_order_transitive(a: Tally, b: Tally, c: Tally)
    requires
        b.n > 0,
        c.n > 0,
        a.mean_exceeds(b),
        !c.mean_exceeds(b),
    ensures
        a.mean_exceeds(c),
{
    let (an, bn, cn) = (a.n as int, b.n as int, c.n as int);
    assert(a.sum * bn * cn > b.sum * an * cn) by (nonlinear_arith)
        requires
            a.sum * bn > b.sum * an,
            cn > 0,
    ;
    assert(c.sum * bn * an <= b.sum * cn * an) by (nonlinear_arith)
        requires
            c.sum * bn <= b.sum * cn,
            an > 0,
    ;
    assert(a.sum * cn > c.sum * an) by (nonlinear_arith)
        requires
            a.sum * bn * cn > b.sum * an * cn,
            c.sum * bn * an <= b.sum * cn * an,
            bn > 0,
    ;
}

/// The standard error of a tally that is under a target stays under it when
/// the same trials are recorded once more.
pub proof fn lemma_sem_below_survives_doubling(tally: Tally, millis: nat)
    requires
        tally.sem_below(millis),
    ensures
        tally.merge(tally).sem_below(millis),
{
    let n = tally.n as int;
    let raw = n * tally.sum_sq - tally.sum * tally.sum;
    let twice = tally.merge(tally);
    assert(twice.n * twice.sum_sq - twice.sum * twice.sum == 4 * raw) by (nonlinear_arith)
        requires
            twice.n == 2 * n,
            twice.sum_sq == 2 * tally.sum_sq,
            twice.sum == 2 * tally.sum,
            raw == n * tally.sum_sq - tally.sum * tally.sum,
    ;
    assert(twice.spread() == 4 * tally.spread());
    assert(twice.n * twice.n * twice.n == 8 * (n * n * n)) by (nonlinear_arith)
        requires
            twice.n == 2 * n,
    ;
    assert(4 * tally.spread() * 1_000_000 < 4 * millis * millis * (8 * (n * n * n)))
        by (nonlinear_arith)
        requires
            tally.spread() * 1_000_000 < 4 * millis * millis * (n * n * n),
            n >= 2,
    ;
}

/// The record of one action in one state.
#[derive(Debug, Clone, Copy)]
pub struct ActionStats {
    /// Number of trials.
    pub n: u64,
    /// Sum of the payoffs, in half bets.
    pub sum_x: i128,
    /// Sum of the squares of the payoffs.
    pub sum_x_squared: u128,
}

impl View for ActionStats {
    type V = Tally;

    open spec fn view(&self) -> Tally {
        Tally { n: self.n as nat, sum: self.sum_x as int, sum_sq: self.sum_x_squared as nat }
    }
}

impl ActionStats {
    /// Whether the sums are those of payoffs within the limit.
    pub open spec fn wf(&self) -> bool {
        self@.bounded()
    }

    /// The record of no trial.
    pub fn new() -> (stats: ActionStats)
        ensures
            stats@ == Tally::empty(),
            stats.wf(),
    {
        ActionStats { n: 0, sum_x: 0, sum_x_squared: 0 }
    }

    /// Adds one trial of payoff `result`.
    pub fn update(&mut self, result: i32)
        requires
            old(self).wf(),
            old(self).n < u64::MAX,
            -PAYOFF_LIMIT <= result <= PAYOFF_LIMIT,
        ensures
            final(self)@ == old(self)@.record(result as int),
            final(self).wf(),
    {
        assert(0 <= result * result <= 64) by (nonlinear_arith)
            requires
                -8 <= result <= 8,
        ;
        self.n += 1;
        self.sum_x += result as i128;
        self.sum_x_squared += (result * result) as u128;
    }

    /// Adds the trials of `other`.
    pub fn merge(&mut self, other: &ActionStats)
        requires
            old(self).wf(),
            other.wf(),
            old(self).n + other.n <= u64::MAX,
        ensures
            final(self)@ == old(self)@.merge(other@),
            final(self).wf(),
    {
        self.n += other.n;
        self.sum_x += other.sum_x;
        self.sum_x_squared += other.sum_x_squared;
    }

    /// Whether the mean payoff is higher than that of `other`. A record of
    /// no trial has no mean: it is higher than none, and every mean is higher
    /// than it.
    pub fn mean_exceeds(&self, other: &ActionStats) -> (higher: bool)
        requires
            self.wf(),
            other.wf(),
        ensures
            higher == self@.mean_exceeds(other@),
    {
        if self.n == 0 {
            return false;
        }
        if other.n == 0 {
            return true;
        }
        let an: u128 = self.n as u128;
        let bn: u128 = other.n as u128;
        // Both means lie between -8 and 8; raised by 8 they are fractions of
        // nonnegative numbers, compared by whole part and then by remainder.
        let a_up: u128 = (self.sum_x + 8 * (self.n as i128)) as u128;
        let b_up: u128 = (other.sum_x + 8 * (other.n as i128)) as u128;
        let qa: u128 = a_up / an;
        let ra: u128 = a_up % an;
        let qb: u128 = b_up / bn;
        let rb: u128 = b_up % bn;
        proof {
            let (s, t) = (self.sum_x as int, other.sum_x as int);
            let (x, y) = (an as int, bn as int);
            assert(a_up == qa * x + ra && b_up == qb * y + rb) by (nonlinear_arith)
                requires
                    qa == a_up / an,
                    ra == a_up % an,
                    qb == b_up / bn,
                    rb == b_up % bn,
                    x == an,
                    y == bn,
                    x > 0,
                    y > 0,
            ;
            assert(0 <= ra * y < x * y && 0 <= rb * x < x * y) by (nonlinear_arith)
                requires
                    0 <= ra < x,
                    0 <= rb < y,
            ;
            assert(x * y <= 0xffff_ffff_ffff_ffff * 0xffff_ffff_ffff_ffff) by (nonlinear_arith)
                requires
                    0 < x <= 0xffff_ffff_ffff_ffff,
                    0 < y <= 0xffff_ffff_ffff_ffff,
            ;
            assert(s * y - t * x == (qa - qb) * (x * y) + (ra * y - rb * x)) by (nonlinear_arith)
                requires
                    s + 8 * x == qa * x + ra,
                    t + 8 * y == qb * y + rb,
            ;
            assert(qa > qb ==> (qa - qb) * (x * y) >= x * y) by (nonlinear_arith)
                requires
                    x * y > 0,
            ;
            assert(qa < qb ==> (qa - qb) * (x * y) <= -(x * y)) by (nonlinear_arith)
                requires
                    x * y > 0,
            ;
            assert(qa == qb ==> (qa - qb) * (x * y) == 0) by (nonlinear_arith);
        }
        if qa != qb {
            qa > qb
        } else {
            ra * bn > rb * an
        }
    }

    /// Whether the standard error of the mean payoff, in bets, is under
    /// `target_millis` thousandths.
    pub fn sem_below(&self, target_millis: u32) -> (below: bool)
        requires
            self.wf(),
        ensures
            below == self@.sem_below(target_millis as nat),
    {
        if self.n < 2 || target_millis == 0 {
            assert(!self@.sem_below(target_millis as nat)) by (nonlinear_arith)
                requires
                    self.n < 2 || target_millis == 0,
                    self@.spread() >= 0,
            ;
            return false;
        }
        let n: u128 = self.n as u128;
        let m: u128 = target_millis as u128;
        let ghost spread = self@.spread();
        assert(spread <= 64 * (n * n)) by (nonlinear_arith)
            requires
                spread == self@.spread(),
                self@.sum_sq <= 64 * n,
                self@.n == n,
        ;
        if m >= 4000 || n > 16_000_000 {
            assert(spread * 1_000_000 < 4 * m * m * (n * n * n)) by (nonlinear_arith)
                requires
                    spread <= 64 * (n * n),
                    n >= 2,
                    m >= 1,
                    m >= 4000 || n > 16_000_000,
            ;
            return true;
        }
        let magnitude: u128 = if self.sum_x < 0 {
            (-self.sum_x) as u128
        } else {
            self.sum_x as u128
        };
        assert(n * self.sum_x_squared <= 16_000_000 * 1_024_000_000) by (nonlinear_arith)
            requires
                n <= 16_000_000,
                self.sum_x_squared <= 64 * n,
        ;
        assert(magnitude * magnitude <= 128_000_000 * 128_000_000) by (nonlinear_arith)
            requires
                magnitude <= 8 * n,
                n <= 16_000_000,
        ;
        assert(magnitude * magnitude == self.sum_x * self.sum_x) by (nonlinear_arith)
            requires
                magnitude == self.sum_x || magnitude == -self.sum_x,
        ;
        let product: u128 = n * self.sum_x_squared;
        let square: u128 = magnitude * magnitude;
        let clamped: u128 = if product > square {
            product - square
        } else {
            0
        };
        assert(clamped == spread);
        assert(m * m < 16_000_000) by (nonlinear_arith)
            requires
                m < 4000,
        ;
        let scale: u128 = 4 * (m * m);
        assert(n * n <= 16_000_000 * 16_000_000 && n * n * n <= 16_000_000 * 16_000_000
            * 16_000_000) by (nonlinear_arith)
            requires
                n <= 16_000_000,
        ;
        let cube: u128 = n * n * n;
        assert(scale * cube <= 64_000_000 * (16_000_000 * 16_000_000 * 16_000_000))
            by (nonlinear_arith)
            requires
                scale <= 64_000_000,
                cube <= 16_000_000 * 16_000_000 * 16_000_000,
        ;
        assert(4 * m * m * (n * n * n) == scale * cube) by (nonlinear_arith)
            requires
                scale == 4 * (m * m),
                cube == n * n * n,
        ;
        clamped * 1_000_000 < scale * cube
    }
}

impl Default for ActionStats {
    fn default() -> (stats: ActionStats)
        ensures
            stats@ == Tally::empty(),
            stats.wf(),
    {
        ActionStats::new()
    }
}

} // verus!
