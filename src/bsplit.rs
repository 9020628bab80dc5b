//! Binary splitting of the Chudnovsky series: the values the recursion
//! computes, the factored divisors carried beside them, and the decisions
//! that drive the parallel recursion.
//!
//! The big integers themselves live with the caller; this module says what
//! they are and keeps, for each of them, a factored integer known to divide
//! it, so that common factors can be divided out at every combine step.
use vstd::prelude::*;
use vstd::arithmetic::div_mod::lemma_div_multiples_vanish;
use crate::factors::{
    power, int_divides, exponents_at_most, lemma_push, lemma_exponent_bound,
    lemma_magnitude_positive, lemma_divides_negate, lemma_divides_trans, lemma_exponent_nonneg,
    PrimeFactors,
};
use crate::sieve::{PrimeFactorSieve, odd_part, lemma_exponent_fits};

verus! {

/// Slope of the linear factor of each term.
pub const TERM_A: u64 = 545_140_134;

/// Constant of the linear factor of each term, and of the final denominator.
pub const TERM_B: u64 = 13_591_409;

/// `640320^3 / 24`, the constant factor of each `q` term.
pub const Q_SCALE: u64 = 10_939_058_860_032_000;

/// Multiplier of `Q` in the numerator of the final quotient.
pub const PI_NUMERATOR_SCALE: u64 = 426_880;

/// Ranges narrower than this are evaluated in one piece, without forking.
pub const SMALL_RANGE: u64 = 4;

/// `p(k) = -(6k - 1)(6k - 5)(2k - 1)`.
pub open spec fn p_term(k: int) -> int {
    -((6 * k - 1) * (6 * k - 5) * (2 * k - 1))
}

/// `q(k) = (640320^3 / 24) k^3`.
pub open spec fn q_term(k: int) -> int {
    Q_SCALE * (k * k * k)
}

/// `r(k) = p(k) (A k + B)`.
pub open spec fn r_term(k: int) -> int {
    p_term(k) * (TERM_A * k + TERM_B)
}

/// The combine step for a left range `(Pl, Ql, Rl)` and the range after it
/// `(Pr, Qr, Rr)`: `(Pl Pr, Ql Qr, Qr Rl + Pl Rr)`.
pub open spec fn combine_triples(l: (int, int, int), r: (int, int, int)) -> (int, int, int) {
    (l.0 * r.0, l.1 * r.1, r.1 * l.2 + l.0 * r.2)
}

/// Every component multiplied by `c`.
pub open spec fn scale(t: (int, int, int), c: int) -> (int, int, int) {
    (c * t.0, c * t.1, c * t.2)
}

/// Every component divided by `c`.
pub open spec fn reduce(t: (int, int, int), c: int) -> (int, int, int) {
    (t.0 / c, t.1 / c, t.2 / c)
}

/// `(P(a, b), Q(a, b), R(a, b))` over the terms `[a, b)`, split at the
/// midpoint rounded down.
pub open spec fn series(a: int, b: int) -> (int, int, int)
    decreases b - a,
{
    if b - a <= 1 {
        (p_term(a), q_term(a), r_term(a))
    } else {
        combine_triples(series(a, (a + b) / 2), series((a + b) / 2, b))
    }
}

/// The numerator `426880 Q` of `pi / sqrt(10005)`.
pub open spec fn pi_numerator(t: (int, int, int)) -> int {
    PI_NUMERATOR_SCALE * t.1
}

/// The denominator `13591409 Q + R` of `pi / sqrt(10005)`.
pub open spec fn pi_denominator(t: (int, int, int)) -> int {
    TERM_B * t.1 + t.2
}

/// Scaling either operand of a combine by `c` scales the result by `c`.
pub proof fn lemma_combine_homogeneous(l: (int, int, int), r: (int, int, int), c: int)
    ensures
        combine_triples(scale(l, c), r) == scale(combine_triples(l, r), c),
        combine_triples(l, scale(r, c)) == scale(combine_triples(l, r), c),
{
    assert((c * l.0) * r.0 == c * (l.0 * r.0)) by (nonlinear_arith);
    assert((c * l.1) * r.1 == c * (l.1 * r.1)) by (nonlinear_arith);
    assert(r.1 * (c * l.2) + (c * l.0) * r.2 == c * (r.1 * l.2 + l.0 * r.2)) by (nonlinear_arith);
    assert(l.0 * (c * r.0) == c * (l.0 * r.0)) by (nonlinear_arith);
    assert(l.1 * (c * r.1) == c * (l.1 * r.1)) by (nonlinear_arith);
    assert((c * r.1) * l.2 + l.0 * (c * r.2) == c * (r.1 * l.2 + l.0 * r.2)) by (nonlinear_arith);
}

/// A triple and its multiple by any non-zero `c` give the same quotient
/// `426880 Q / (13591409 Q + R)`, hence the same value of pi.
pub proof fn lemma_scaling_keeps_pi(t: (int, int, int), c: int)
    requires
        c != 0,
    ensures
        pi_numerator(scale(t, c)) * pi_denominator(t) == pi_numerator(t) * pi_denominator(
            scale(t, c),
        ),
        pi_denominator(scale(t, c)) == c * pi_denominator(t),
{
    let n = PI_NUMERATOR_SCALE as int;
    let b = TERM_B as int;
    assert(n * (c * t.1) * (b * t.1 + t.2) == n * t.1 * (b * (c * t.1) + c * t.2))
        by (nonlinear_arith);
    assert(b * (c * t.1) + c * t.2 == c * (b * t.1 + t.2)) by (nonlinear_arith);
}

/// The smallest sieve bound used, however few terms are summed.
pub const MIN_SIEVE_BOUND: u64 = 64;

/// The sieve bound for summing the terms `[1, iterations)`: `6 * iterations`,
/// and at least [`MIN_SIEVE_BOUND`], so that every leaf `a` has `6 a` within
/// the bound.
pub fn sieve_bound(iterations: u64) -> (m: u64)
    requires
        6 * iterations <= crate::sieve::SIEVE_LIMIT,
    ensures
        m == if 6 * iterations > MIN_SIEVE_BOUND {
            6 * iterations
        } else {
            MIN_SIEVE_BOUND as int
        },
        2 <= m <= crate::sieve::SIEVE_LIMIT,
{
    if 6 * iterations > MIN_SIEVE_BOUND {
        6 * iterations
    } else {
        MIN_SIEVE_BOUND
    }
}

/// What the recursion does with the range `[a, b)`.
#[derive(Clone, Copy, Debug, PartialEq, Eq, Structural)]
pub enum SplitStep {
    /// Evaluate the range in one piece on the current thread.
    Leaf,
    /// Split at `mid`; evaluate the halves in parallel when `fork` holds.
    Split { mid: u64, fork: bool },
}

/// The step for `[a, b)` at recursion depth `depth`.
pub open spec fn split_step(a: int, b: int, depth: int, threads: int, max_par_depth: int) -> SplitStep {
    if b - a < SMALL_RANGE {
        SplitStep::Leaf
    } else {
        SplitStep::Split { mid: ((a + b) / 2) as u64, fork: threads > 1 && depth <= max_par_depth }
    }
}

/// The triple that the recursion driven by [`split_step`] computes.
pub open spec fn scheduled(a: int, b: int, depth: int, threads: int, max_par_depth: int) -> (
    int,
    int,
    int,
)
    decreases b - a,
{
    match split_step(a, b, depth, threads, max_par_depth) {
        SplitStep::Leaf => series(a, b),
        SplitStep::Split { mid, fork } => if a < mid < b {
            combine_triples(
                scheduled(a, mid as int, depth + 1, threads, max_par_depth),
                scheduled(mid as int, b, depth + 1, threads, max_par_depth),
            )
        } else {
            series(a, b)
        },
    }
}

/// The result of the scheduled recursion does not depend on the number of
/// threads nor on the depth limit for forking: it is always `series(a, b)`.
pub proof fn lemma_schedule_invariant(
    a: int,
    b: int,
    depth: int,
    threads1: int,
    max_par_depth1: int,
    threads2: int,
    max_par_depth2: int,
)
    requires
        0 <= a < b <= u64::MAX,
    ensures
        scheduled(a, b, depth, threads1, max_par_depth1) == series(a, b),
        scheduled(a, b, depth, threads1, max_par_depth1) == scheduled(
            a,
            b,
            depth,
            threads2,
            max_par_depth2,
        ),
    decreases b - a,
{
    lemma_scheduled_is_series(a, b, depth, threads1, max_par_depth1);
    lemma_scheduled_is_series(a, b, depth, threads2, max_par_depth2);
}

proof fn lemma_scheduled_is_series(a: int, b: int, depth: int, threads: int, max_par_depth: int)
    requires
        0 <= a < b <= u64::MAX,
    ensures
        scheduled(a, b, depth, threads, max_par_depth) == series(a, b),
    decreases b - a,
{
    if b - a >= SMALL_RANGE {
        let m = (a + b) / 2;
        assert(a < m < b);
        lemma_scheduled_is_series(a, m, depth + 1, threads, max_par_depth);
        lemma_scheduled_is_series(m, b, depth + 1, threads, max_par_depth);
    }
}

/// Decides how the recursion treats `[a, b)` at depth `depth`: ranges
/// narrower than [`SMALL_RANGE`] are leaves; wider ones are split at the
/// midpoint rounded down, and forked when more than one thread is available
/// and `depth` does not exceed `max_par_depth`.
pub fn plan_split(a: u64, b: u64, depth: usize, threads: usize, max_par_depth: usize) -> (s:
    SplitStep)
    requires
        a < b,
    ensures
        s == split_step(a as int, b as int, depth as int, threads as int, max_par_depth as int),
{
    if b - a < SMALL_RANGE {
        SplitStep::Leaf
    } else {
        SplitStep::Split { mid: a + (b - a) / 2, fork: threads > 1 && depth <= max_par_depth }
    }
}

/// The default depth limit for forking with `threads` threads:
/// `ceil(log2(threads)) + 1`.
pub fn default_parallel_depth(threads: usize) -> (d: usize)
    requires
        threads >= 1,
    ensures
        d >= 1,
        power(2, (d - 1) as nat) >= threads,
        d == 1 || power(2, (d - 2) as nat) < threads,
{
    let mut k: usize = 0;
    let mut p: u128 = 1;
    proof {
        assert(power(2, 0) == 1);
    }
    while p < threads as u128
        invariant
            p == power(2, k as nat),
            p >= 1,
            k == 0 || power(2, (k - 1) as nat) < threads,
            k <= 64,
            p <= 2 * threads,
            threads >= 1,
        decreases 2 * threads - p,
    {
        proof {
            assert(power(2, (k + 1) as nat) == 2 * power(2, k as nat));
            lemma_exponent_fits(2, k as nat);
        }
        p = p * 2;
        k = k + 1;
    }
    k + 1
}

/// The factored divisors kept beside the big integers `(P, Q, R)` of a
/// recursion node.
#[derive(Debug)]
pub struct Sidecars {
    pub p: PrimeFactors,
    pub q: PrimeFactors,
    pub r: PrimeFactors,
}

impl Sidecars {
    /// All three are well formed, and the divisor of `R` also divides that
    /// of `P`, both factor by factor and as integers.
    pub open spec fn wf(&self) -> bool {
        &&& self.p.wf()
        &&& self.q.wf()
        &&& self.r.wf()
        &&& self.r.divides(&self.p)
        &&& int_divides(self.r.value(), self.p.value())
    }

    /// Each sidecar divides its component of `t`.
    pub open spec fn divides_triple(&self, t: (int, int, int)) -> bool {
        &&& int_divides(self.p.value(), t.0)
        &&& int_divides(self.q.value(), t.1)
        &&& int_divides(self.r.value(), t.2)
    }
}

/// `parent` and `g` are the outcome of combining `left` with `right`: `g`
/// is the gcd of the left `Q` and `R` divisors, the parent's `P` and `Q`
/// divisors are the products divided by `g`, and the parent's `R` divisor
/// divides the right `R` divisor and, times `g`, the left one.
pub open spec fn combined(left: Sidecars, right: Sidecars, parent: Sidecars, g: PrimeFactors) -> bool {
    &&& g.wf()
    &&& !g.neg
    &&& parent.wf()
    &&& int_divides(g.value(), left.q.value())
    &&& int_divides(g.value(), left.r.value())
    &&& parent.p.value() * g.value() == left.p.value() * right.p.value()
    &&& parent.q.value() * g.value() == left.q.value() * right.q.value()
    &&& int_divides(parent.r.value() * g.value(), left.r.value())
    &&& int_divides(parent.r.value(), right.r.value())
    &&& forall|x: int| #[trigger]
        g.exponent(x) == if left.q.exponent(x) <= left.r.exponent(x) {
            left.q.exponent(x)
        } else {
            left.r.exponent(x)
        }
}

/// When the children's sidecars divide the children's triples, the
/// combined triple is divisible by `g` in each component, and the parent's
/// sidecars divide the combined triple divided by `g`.
pub proof fn lemma_combine_sound(
    left: Sidecars,
    right: Sidecars,
    parent: Sidecars,
    g: PrimeFactors,
    t1: (int, int, int),
    t2: (int, int, int),
)
    requires
        left.wf(),
        right.wf(),
        combined(left, right, parent, g),
        left.divides_triple(t1),
        right.divides_triple(t2),
    ensures
        g.value() >= 1,
        int_divides(g.value(), combine_triples(t1, t2).0),
        int_divides(g.value(), combine_triples(t1, t2).1),
        int_divides(g.value(), combine_triples(t1, t2).2),
        scale(reduce(combine_triples(t1, t2), g.value()), g.value()) == combine_triples(t1, t2),
        parent.divides_triple(reduce(combine_triples(t1, t2), g.value())),
{
    let gv = g.value();
    lemma_magnitude_positive(g.factors@);
    let (p1, q1, r1) = t1;
    let (p2, q2, r2) = t2;
    let lp = left.p.value();
    let lq = left.q.value();
    let lr = left.r.value();
    let rp = right.p.value();
    let rq = right.q.value();
    let rr = right.r.value();
    // The gcd divides the left P, Q and R.
    lemma_divides_trans(gv, lq, q1);
    lemma_divides_trans(gv, lr, lp);
    lemma_divides_trans(gv, lp, p1);
    lemma_divides_trans(gv, lr, r1);
    let x = choose|x: int| #[trigger] (gv * x) == p1;
    let w = choose|w: int| #[trigger] (gv * w) == q1;
    let y = choose|y: int| #[trigger] (gv * y) == r1;
    let t = combine_triples(t1, t2);
    let u = (x * p2, w * q2, q2 * y + x * r2);
    assert(gv * (x * p2) == t.0) by (nonlinear_arith)
        requires
            gv * x == p1,
            t.0 == p1 * p2,
    ;
    assert(gv * (w * q2) == t.1) by (nonlinear_arith)
        requires
            gv * w == q1,
            t.1 == q1 * q2,
    ;
    assert(gv * (q2 * y + x * r2) == t.2) by (nonlinear_arith)
        requires
            gv * x == p1,
            gv * y == r1,
            t.2 == q2 * r1 + p1 * r2,
    ;
    lemma_div_multiples_vanish(x * p2, gv);
    lemma_div_multiples_vanish(w * q2, gv);
    lemma_div_multiples_vanish(q2 * y + x * r2, gv);
    assert(reduce(t, gv) == u);
    // The parent's P divisor divides x Pr.
    let a1 = choose|a: int| #[trigger] (lp * a) == p1;
    let a2 = choose|a: int| #[trigger] (rp * a) == p2;
    let pp = parent.p.value();
    assert(x * p2 == pp * (a1 * a2)) by (nonlinear_arith)
        requires
            gv * x == p1,
            lp * a1 == p1,
            rp * a2 == p2,
            pp * gv == lp * rp,
            gv >= 1,
    ;
    // The parent's Q divisor divides w Qr.
    let b1 = choose|b: int| #[trigger] (lq * b) == q1;
    let b2 = choose|b: int| #[trigger] (rq * b) == q2;
    let pq = parent.q.value();
    assert(w * q2 == pq * (b1 * b2)) by (nonlinear_arith)
        requires
            gv * w == q1,
            lq * b1 == q1,
            rq * b2 == q2,
            pq * gv == lq * rq,
            gv >= 1,
    ;
    // The parent's R divisor divides Qr y + x Rr.
    let pr = parent.r.value();
    let c = choose|c: int| #[trigger] ((pr * gv) * c) == lr;
    let c1 = choose|c: int| #[trigger] (lr * c) == r1;
    lemma_divides_trans(pr, rr, r2);
    let z = choose|z: int| #[trigger] (pr * z) == r2;
    assert(gv * y == gv * (pr * c * c1)) by (nonlinear_arith)
        requires
            gv * y == r1,
            (pr * gv) * c == lr,
            lr * c1 == r1,
    ;
    assert(y == pr * c * c1) by (nonlinear_arith)
        requires
            gv * y == gv * (pr * c * c1),
            gv >= 1,
    ;
    let m1 = q2 * c * c1;
    let m2 = x * z;
    assert(q2 * y == pr * m1) by (nonlinear_arith)
        requires
            y == pr * c * c1,
            m1 == q2 * c * c1,
    ;
    assert(x * r2 == pr * m2) by (nonlinear_arith)
        requires
            pr * z == r2,
            m2 == x * z,
    ;
    vstd::arithmetic::mul::lemma_mul_is_distributive_add(pr, m1, m2);
    assert(scale(u, gv) == t);
}

/// The factorisation of [`Q_SCALE`]: `2^15 3^2 5^3 23^3 29^3`.
fn q_scale_factors() -> (r: PrimeFactors)
    ensures
        r.wf(),
        !r.neg,
        r.value() == Q_SCALE,
        exponents_at_most(r.factors@, 15),
{
    let mut factors: Vec<(u64, u64)> = Vec::new();
    factors.push((2, 15));
    factors.push((3, 2));
    factors.push((5, 3));
    factors.push((23, 3));
    factors.push((29, 3));
    proof {
        reveal_with_fuel(power, 16);
        let s0 = Seq::<(u64, u64)>::empty();
        let s1 = s0.push((2u64, 15u64));
        let s2 = s1.push((3u64, 2u64));
        let s3 = s2.push((5u64, 3u64));
        let s4 = s3.push((23u64, 3u64));
        let s5 = s4.push((29u64, 3u64));
        lemma_push(s0, (2u64, 15u64));
        lemma_push(s1, (3u64, 2u64));
        lemma_push(s2, (5u64, 3u64));
        lemma_push(s3, (23u64, 3u64));
        lemma_push(s4, (29u64, 3u64));
        assert(factors@ =~= s5);
        assert(power(2, 15) == 32768);
        assert(power(3, 2) == 9);
        assert(power(5, 3) == 125);
        assert(power(23, 3) == 12167);
        assert(power(29, 3) == 24389);
        assert(crate::factors::seq_value(s0) == 1);
        assert(crate::factors::seq_value(s5) == 1 * 32768 * 9 * 125 * 12167 * 24389);
    }
    PrimeFactors { neg: false, factors }
}

proof fn lemma_odd_part_bound(n: nat)
    ensures
        odd_part(n) <= n,
        n % 2 == 1 ==> odd_part(n) == n,
    decreases n,
{
    if n > 0 && n % 2 == 0 {
        lemma_odd_part_bound(n / 2);
    }
}

/// The sidecars of the leaf `[a, a + 1)`: `p(a)` and `q(a)` factored through
/// the sieve, and for `R = p(a) (A a + B)` the factorisation of `p(a)`.
pub fn leaf_sidecars(sieve: &PrimeFactorSieve, a: u64) -> (s: Sidecars)
    requires
        sieve.wf(),
        1 <= a,
        6 * a <= sieve.max,
    ensures
        s.wf(),
        s.p.value() == p_term(a as int),
        s.q.value() == q_term(a as int),
        s.r.value() == p_term(a as int),
        s.r.factors@ == s.p.factors@,
        s.divides_triple(series(a as int, a + 1)),
{
    proof {
        lemma_odd_part_bound((6 * a - 1) as nat);
        lemma_odd_part_bound((6 * a - 5) as nat);
        lemma_odd_part_bound((2 * a - 1) as nat);
        lemma_odd_part_bound(a as nat);
        assert((6 * a - 1) % 2 == 1);
        assert((6 * a - 5) % 2 == 1);
        assert((2 * a - 1) % 2 == 1);
    }
    let f1 = PrimeFactors::new(sieve, 6 * a - 1);
    let f2 = PrimeFactors::new(sieve, 6 * a - 5);
    let f3 = PrimeFactors::new(sieve, 2 * a - 1);
    proof {
        assert forall|x: int| #[trigger] f1.exponent(x) + f2.exponent(x) <= u64::MAX by {
            lemma_exponent_bound(f1.factors@, 63, x);
            lemma_exponent_bound(f2.factors@, 63, x);
        }
    }
    let f12 = f1.mul(&f2);
    proof {
        assert forall|x: int| #[trigger] f12.exponent(x) + f3.exponent(x) <= u64::MAX by {
            lemma_exponent_bound(f1.factors@, 63, x);
            lemma_exponent_bound(f2.factors@, 63, x);
            lemma_exponent_bound(f3.factors@, 63, x);
        }
    }
    let f123 = f12.mul(&f3);
    let p = PrimeFactors { neg: true, factors: f123.factors };
    let scale_fac = q_scale_factors();
    let cube = PrimeFactors::new_with_pow(sieve, a, 3);
    proof {
        assert forall|x: int| #[trigger] scale_fac.exponent(x) + cube.exponent(x) <= u64::MAX by {
            lemma_exponent_bound(scale_fac.factors@, 15, x);
            lemma_exponent_bound(cube.factors@, 189, x);
        }
    }
    let q = scale_fac.mul(&cube);
    let r = p.duplicate();
    proof {
        let k = a as int;
        reveal_with_fuel(power, 4);
        assert(power(k, 3) == k * (k * (k * 1)));
        assert(k * (k * (k * 1)) == k * k * k) by (nonlinear_arith);
        assert(f123.value() == (6 * k - 1) * (6 * k - 5) * (2 * k - 1));
        assert(p.value() == p_term(k));
        assert(q.value() == q_term(k));
        assert(int_divides(p.value(), p_term(k))) by {
            assert(p.value() * 1 == p_term(k));
        }
        assert(int_divides(q.value(), q_term(k))) by {
            assert(q.value() * 1 == q_term(k));
        }
        assert(int_divides(r.value(), r_term(k))) by {
            assert(r.value() * (TERM_A * k + TERM_B) == r_term(k));
        }
        assert(int_divides(r.value(), p.value())) by {
            assert(r.value() * 1 == p.value());
        }
        assert(series(k, k + 1) == (p_term(k), q_term(k), r_term(k)));
    }
    Sidecars { p, q, r }
}

/// Combines the sidecars of two adjacent ranges. Returns the parent's
/// sidecars and the common factor `g`, the gcd of the left `Q` and `R`
/// divisors, by which all three parent big integers are to be divided:
/// `P = Pl Pr / g`, `Q = Ql Qr / g`, `R = (Qr Rl + Pl Rr) / g`.
///
/// The parent's `P` and `Q` divisors are the products divided by `g`; its
/// `R` divisor is the gcd of the left `R` divisor divided by `g` and the
/// right `R` divisor, which divides both `Qr Rl / g` and `Pl Rr / g`.
pub fn combine(left: &Sidecars, right: &Sidecars) -> (res: (Sidecars, PrimeFactors))
    requires
        left.wf(),
        right.wf(),
        forall|x: int| #[trigger] left.p.exponent(x) + right.p.exponent(x) <= u64::MAX,
        forall|x: int| #[trigger] left.q.exponent(x) + right.q.exponent(x) <= u64::MAX,
    ensures
        combined(*left, *right, res.0, res.1),
{
    let g = left.q.gcd(&left.r);
    let mut p = left.p.mul(&right.p);
    proof {
        assert forall|x: int| #[trigger] g.exponent(x) <= p.exponent(x) by {
            assert(g.exponent(x) <= left.r.exponent(x));
            assert(left.r.exponent(x) <= left.p.exponent(x));
            lemma_exponent_nonneg(right.p.factors@, x);
        }
    }
    let ghost p0 = p;
    p.div_exact_mut(&g);
    let mut q = left.q.mul(&right.q);
    proof {
        assert forall|x: int| #[trigger] g.exponent(x) <= q.exponent(x) by {
            assert(g.exponent(x) <= left.q.exponent(x));
            lemma_exponent_nonneg(right.q.factors@, x);
        }
    }
    q.div_exact_mut(&g);
    let mut lr = left.r.duplicate();
    proof {
        assert forall|x: int| #[trigger] g.exponent(x) <= lr.exponent(x) by {
            assert(g.exponent(x) <= left.r.exponent(x));
        }
    }
    let ghost lr0 = lr;
    lr.div_exact_mut(&g);
    let r = lr.gcd(&right.r);
    let parent = Sidecars { p, q, r };
    proof {
        let gv = g.value();
        lemma_magnitude_positive(g.factors@);
        assert(gv == g.magnitude());
        // g divides the left Q and R divisors.
        assert(int_divides(gv, left.q.value())) by {
            if left.q.neg {
                lemma_divides_negate(gv, left.q.magnitude());
            }
        }
        assert(int_divides(gv, left.r.value())) by {
            if left.r.neg {
                lemma_divides_negate(gv, left.r.magnitude());
            }
        }
        // The parent's R divisor divides lr, which times g is the left R divisor.
        assert(int_divides(r.value(), lr.value())) by {
            if lr.neg {
                lemma_divides_negate(r.magnitude(), lr.magnitude());
            }
        }
        assert(int_divides(r.value(), right.r.value())) by {
            if right.r.neg {
                lemma_divides_negate(r.magnitude(), right.r.magnitude());
            }
        }
        assert(lr.value() * gv == left.r.value());
        let c = choose|c: int| #[trigger] (r.value() * c) == lr.value();
        assert((r.value() * gv) * c == left.r.value()) by (nonlinear_arith)
            requires
                r.value() * c == lr.value(),
                lr.value() * gv == left.r.value(),
        ;
        assert(int_divides(r.value() * gv, left.r.value()));
        // The parent's R divisor divides its P divisor.
        assert forall|x: int| #[trigger] r.exponent(x) <= p.exponent(x) by {
            assert(r.exponent(x) <= lr.exponent(x));
            assert(left.r.exponent(x) <= left.p.exponent(x));
            lemma_exponent_nonneg(right.p.factors@, x);
        }
        let d = choose|d: int| #[trigger] (left.r.value() * d) == left.p.value();
        assert(lr.value() * (d * right.p.value()) == p.value()) by (nonlinear_arith)
            requires
                lr.value() * gv == left.r.value(),
                left.r.value() * d == left.p.value(),
                p.value() * gv == left.p.value() * right.p.value(),
                gv >= 1,
        ;
        assert(int_divides(lr.value(), p.value()));
        lemma_divides_trans(r.value(), lr.value(), p.value());
    }
    (parent, g)
}

} // verus!
