use iron_pi::bsplit::{
    combine, default_parallel_depth, leaf_sidecars, plan_split, Sidecars, SplitStep, Q_SCALE,
    TERM_A, TERM_B,
};
use iron_pi::factors::PrimeFactors;
use iron_pi::sieve::PrimeFactorSieve;

fn value_of(f: &PrimeFactors) -> i128 {
    let mut v: i128 = 1;
    for &(b, e) in f.factors.iter() {
        for _ in 0..e {
            v *= b as i128;
        }
    }
    if f.neg {
        -v
    } else {
        v
    }
}

fn p_term(k: i128) -> i128 {
    -((6 * k - 1) * (6 * k - 5) * (2 * k - 1))
}

fn q_term(k: i128) -> i128 {
    Q_SCALE as i128 * k * k * k
}

fn r_term(k: i128) -> i128 {
    p_term(k) * (TERM_A as i128 * k + TERM_B as i128)
}

fn combine_values(l: (i128, i128, i128), r: (i128, i128, i128)) -> (i128, i128, i128) {
    (l.0 * r.0, l.1 * r.1, r.1 * l.2 + l.0 * r.2)
}

fn divides(s: &Sidecars, t: (i128, i128, i128)) -> bool {
    t.0 % value_of(&s.p) == 0 && t.1 % value_of(&s.q) == 0 && t.2 % value_of(&s.r) == 0
}

#[test]
fn leaf_sidecars_values() {
    let sieve = PrimeFactorSieve::new(600);
    for a in 1..=100u64 {
        let s = leaf_sidecars(&sieve, a);
        let k = a as i128;
        assert_eq!(value_of(&s.p), p_term(k));
        assert_eq!(value_of(&s.q), q_term(k));
        assert_eq!(value_of(&s.r), p_term(k));
        assert_eq!(s.r.factors, s.p.factors);
        assert!(divides(&s, (p_term(k), q_term(k), r_term(k))));
    }
}

#[test]
fn leaf_of_first_term() {
    let sieve = PrimeFactorSieve::new(6);
    let s = leaf_sidecars(&sieve, 1);
    assert!(s.p.neg);
    assert_eq!(s.p.factors, vec![(5, 1)]);
    assert_eq!(s.q.factors, vec![(2, 15), (3, 2), (5, 3), (23, 3), (29, 3)]);
}

#[test]
fn combine_two_leaves() {
    let sieve = PrimeFactorSieve::new(60);
    let left = leaf_sidecars(&sieve, 1);
    let right = leaf_sidecars(&sieve, 2);
    let (parent, g) = combine(&left, &right);
    assert!(!g.neg);
    assert_eq!(g.factors, vec![(5, 1)]);
    let t = combine_values((p_term(1), q_term(1), r_term(1)), (p_term(2), q_term(2), r_term(2)));
    let gv = value_of(&g);
    assert_eq!(t.0 % gv, 0);
    assert_eq!(t.1 % gv, 0);
    assert_eq!(t.2 % gv, 0);
    let reduced = (t.0 / gv, t.1 / gv, t.2 / gv);
    assert_eq!(value_of(&parent.p), 231);
    assert_eq!(value_of(&parent.p) * gv, value_of(&left.p) * value_of(&right.p));
    assert_eq!(value_of(&parent.q) * gv, value_of(&left.q) * value_of(&right.q));
    assert!(divides(&parent, reduced));
}

#[test]
fn combine_up_a_small_tree() {
    // [1, 5) split as [1, 3) and [3, 5), each from two leaves.
    let sieve = PrimeFactorSieve::new(60);
    let leaves: Vec<Sidecars> = (1..5u64).map(|a| leaf_sidecars(&sieve, a)).collect();
    let vals: Vec<(i128, i128, i128)> =
        (1..5i128).map(|k| (p_term(k), q_term(k), r_term(k))).collect();
    let (l, gl) = combine(&leaves[0], &leaves[1]);
    let (r, gr) = combine(&leaves[2], &leaves[3]);
    let reduce = |t: (i128, i128, i128), g: i128| (t.0 / g, t.1 / g, t.2 / g);
    let tl = reduce(combine_values(vals[0], vals[1]), value_of(&gl));
    let tr = reduce(combine_values(vals[2], vals[3]), value_of(&gr));
    assert!(divides(&l, tl));
    assert!(divides(&r, tr));
    let (top, gt) = combine(&l, &r);
    let t = combine_values(tl, tr);
    let gv = value_of(&gt);
    assert_eq!(t.0 % gv, 0);
    assert_eq!(t.1 % gv, 0);
    assert_eq!(t.2 % gv, 0);
    assert!(divides(&top, reduce(t, gv)));
}

#[test]
fn scaled_triples_give_same_quotient() {
    // The first leaf is divisible by 5 in every component.
    let t = (p_term(1), q_term(1), r_term(1));
    let g = 5i128;
    assert_eq!(t.0 % g, 0);
    assert_eq!(t.1 % g, 0);
    assert_eq!(t.2 % g, 0);
    let reduced = (t.0 / g, t.1 / g, t.2 / g);
    let num = |x: (i128, i128, i128)| 426_880 * x.1;
    let den = |x: (i128, i128, i128)| 13_591_409 * x.1 + x.2;
    assert_eq!(num(t), g * num(reduced));
    assert_eq!(den(t), g * den(reduced));
}

#[test]
fn plan_split_leaf_and_fork() {
    assert_eq!(plan_split(1, 4, 0, 8, 4), SplitStep::Leaf);
    assert_eq!(plan_split(10, 11, 0, 8, 4), SplitStep::Leaf);
    assert_eq!(plan_split(1, 5, 0, 8, 4), SplitStep::Split { mid: 3, fork: true });
    assert_eq!(plan_split(1, 100, 4, 8, 4), SplitStep::Split { mid: 50, fork: true });
    assert_eq!(plan_split(1, 100, 5, 8, 4), SplitStep::Split { mid: 50, fork: false });
    assert_eq!(plan_split(1, 100, 0, 1, 4), SplitStep::Split { mid: 50, fork: false });
    assert_eq!(
        plan_split(u64::MAX - 10, u64::MAX, 0, 2, 1),
        SplitStep::Split { mid: u64::MAX - 5, fork: true }
    );
}

#[test]
fn default_depth_is_ceil_log2_plus_one() {
    assert_eq!(default_parallel_depth(1), 1);
    assert_eq!(default_parallel_depth(2), 2);
    assert_eq!(default_parallel_depth(3), 3);
    assert_eq!(default_parallel_depth(4), 3);
    assert_eq!(default_parallel_depth(5), 4);
    assert_eq!(default_parallel_depth(8), 4);
    assert_eq!(default_parallel_depth(64), 7);
    assert_eq!(default_parallel_depth(usize::MAX), 65);
}

#[test]
fn sieve_bound_covers_all_leaves() {
    assert_eq!(iron_pi::bsplit::sieve_bound(0), 64);
    assert_eq!(iron_pi::bsplit::sieve_bound(10), 64);
    assert_eq!(iron_pi::bsplit::sieve_bound(11), 66);
    assert_eq!(iron_pi::bsplit::sieve_bound(70_530), 423_180);
}

const MODULUS: u128 = (1u128 << 61) - 1;

fn term_mod(k: u64) -> (u128, u128, u128) {
    let m = |x: i128| (x.rem_euclid(MODULUS as i128)) as u128;
    let k = k as i128;
    let p = m(p_term(k));
    let q = m(Q_SCALE as i128 % MODULUS as i128) * m(k * k % MODULUS as i128) % MODULUS * m(k) % MODULUS;
    let r = p * m(TERM_A as i128 * k + TERM_B as i128) % MODULUS;
    (p, q, r)
}

fn combine_mod(l: (u128, u128, u128), r: (u128, u128, u128)) -> (u128, u128, u128) {
    (l.0 * r.0 % MODULUS, l.1 * r.1 % MODULUS, (r.1 * l.2 % MODULUS + l.0 * r.2 % MODULUS) % MODULUS)
}

fn series_mod(a: u64, b: u64) -> (u128, u128, u128) {
    if b - a == 1 {
        term_mod(a)
    } else {
        let mid = (a + b) / 2;
        combine_mod(series_mod(a, mid), series_mod(mid, b))
    }
}

fn scheduled_mod(a: u64, b: u64, depth: usize, threads: usize, max_par_depth: usize) -> (u128, u128, u128) {
    match plan_split(a, b, depth, threads, max_par_depth) {
        SplitStep::Leaf => series_mod(a, b),
        SplitStep::Split { mid, .. } => combine_mod(
            scheduled_mod(a, mid, depth + 1, threads, max_par_depth),
            scheduled_mod(mid, b, depth + 1, threads, max_par_depth),
        ),
    }
}

#[test]
fn schedule_result_independent_of_threads_and_depth() {
    for b in [2u64, 5, 17, 64, 301] {
        let reference = series_mod(1, b);
        for threads in [1usize, 2, 8, 64] {
            for depth in [0usize, 1, 3, 10] {
                assert_eq!(scheduled_mod(1, b, 0, threads, depth), reference, "{} {} {}", b, threads, depth);
            }
        }
    }
}
