//! Elementary number theory over factorisations with prime bases: Bezout's
//! identity, Euclid's lemma, and that the exponent-wise gcd of two
//! factorisations is the greatest common divisor of the integers.
use vstd::prelude::*;
use vstd::arithmetic::div_mod::{lemma_fundamental_div_mod, lemma_mod_multiples_basic};
use crate::factors::{
    power, seq_value, seq_exponent, int_divides, is_prime, prime_bases, strictly_ascending,
    lemma_exponent_of_ascending, lemma_positive_exponent_has_entry, lemma_exponent_nonneg,
    lemma_divides_trans, lemma_divides_negate, PrimeFactors,
};

verus! {

/// Bezout's identity: some integer combination of `a` and `b` is a common
/// divisor of both, positive unless both are zero.
pub proof fn lemma_bezout(a: int, b: int) -> (r: (int, int, int))
    requires
        a >= 0,
        b >= 0,
    ensures
        r.2 == r.0 * a + r.1 * b,
        int_divides(r.2, a),
        int_divides(r.2, b),
        a > 0 || b > 0 ==> r.2 > 0,
    decreases b,
{
    if b == 0 {
        assert(a * 1 == a);
        assert(a * 0 == 0);
        (1, 0, a)
    } else {
        lemma_fundamental_div_mod(a, b);
        let m = a % b;
        let k = a / b;
        let (x, y, g) = lemma_bezout(b, m);
        assert(g == y * a + (x - k * y) * b) by (nonlinear_arith)
            requires
                g == x * b + y * m,
                a == b * k + m,
        ;
        let c1 = choose|c: int| #[trigger] (g * c) == b;
        let c2 = choose|c: int| #[trigger] (g * c) == m;
        assert(g * (c1 * k + c2) == a) by (nonlinear_arith)
            requires
                g * c1 == b,
                g * c2 == m,
                a == b * k + m,
        ;
        (y, x - k * y, g)
    }
}

/// A positive divisor of a positive `n` is at most `n`.
proof fn lemma_divisor_bound(d: int, n: int)
    requires
        d > 0,
        n > 0,
        int_divides(d, n),
    ensures
        d <= n,
{
    let c = choose|c: int| #[trigger] (d * c) == n;
    assert(d <= n) by (nonlinear_arith)
        requires
            d * c == n,
            d > 0,
            n > 0,
    ;
}

/// A prime has no positive divisors besides one and itself.
proof fn lemma_prime_divisors(q: int, d: int)
    requires
        is_prime(q),
        d > 0,
        int_divides(d, q),
    ensures
        d == 1 || d == q,
{
    lemma_divisor_bound(d, q);
    if 2 <= d < q {
        let c = choose|c: int| #[trigger] (d * c) == q;
        lemma_mod_multiples_basic(c, d);
        assert(c * d == q) by (nonlinear_arith)
            requires
                d * c == q,
        ;
    }
}

/// Euclid's lemma: a prime dividing a product divides one of the factors.
pub proof fn lemma_euclid(q: int, x: int, y: int)
    requires
        is_prime(q),
        int_divides(q, x * y),
    ensures
        int_divides(q, x) || int_divides(q, y),
{
    let ax = if x >= 0 {
        x
    } else {
        -x
    };
    let (s, t, g) = lemma_bezout(q, ax);
    lemma_prime_divisors(q, g);
    if g == q {
        if x < 0 {
            lemma_divides_negate(q, ax);
            assert(-ax == x);
        }
    } else {
        // 1 = s q + t |x|, so y = s q y + t |x| y.
        let c = choose|c: int| #[trigger] (q * c) == x * y;
        assert(y == (s * q + t * ax) * y);
        assert((s * q + t * ax) * y == q * (s * y) + t * (ax * y)) by (nonlinear_arith);
        if x >= 0 {
            assert(ax * y == q * c);
            assert(q * (s * y) + t * (q * c) == q * (s * y + t * c)) by (nonlinear_arith);
        } else {
            assert(ax * y == -(x * y)) by (nonlinear_arith)
                requires
                    ax == -x,
            ;
            assert(q * (s * y) + t * (-(q * c)) == q * (s * y - t * c)) by (nonlinear_arith);
        }
    }
}

/// A prime dividing a power of a prime is that prime.
proof fn lemma_prime_divides_prime_power(q: int, p: int, e: nat)
    requires
        is_prime(q),
        is_prime(p),
        int_divides(q, power(p, e)),
    ensures
        q == p,
    decreases e,
{
    if e == 0 {
        lemma_divisor_bound(q, 1);
    } else {
        let rest = power(p, (e - 1) as nat);
        assert(power(p, e) == p * rest);
        lemma_euclid(q, p, rest);
        if int_divides(q, p) {
            lemma_prime_divisors(p, q);
        } else {
            lemma_prime_divides_prime_power(q, p, (e - 1) as nat);
        }
    }
}

/// A prime dividing the value of a list with prime bases is a base of it,
/// with a positive exponent.
proof fn lemma_prime_divides_value(q: int, s: Seq<(u64, u64)>)
    requires
        is_prime(q),
        prime_bases(s),
        int_divides(q, seq_value(s)),
    ensures
        seq_exponent(s, q) > 0,
    decreases s.len(),
{
    if s.len() == 0 {
        lemma_divisor_bound(q, 1);
    } else {
        let t = s.drop_last();
        let last = s.last();
        assert(is_prime(s[s.len() - 1].0 as int));
        assert(prime_bases(t)) by {
            assert forall|i: int| 0 <= i < t.len() implies is_prime(#[trigger] t[i].0 as int) by {
                assert(t[i] == s[i]);
            }
        }
        lemma_euclid(q, seq_value(t), power(last.0 as int, last.1 as nat));
        lemma_exponent_nonneg(t, q);
        if int_divides(q, seq_value(t)) {
            lemma_prime_divides_value(q, t);
        } else {
            lemma_prime_divides_prime_power(q, last.0 as int, last.1 as nat);
            if last.1 == 0 {
                assert(power(last.0 as int, 0) == 1);
                lemma_divisor_bound(q, 1);
            }
        }
    }
}

/// Every integer at least two has a prime divisor.
proof fn lemma_prime_divisor_exists(d: int) -> (q: int)
    requires
        d >= 2,
    ensures
        is_prime(q),
        int_divides(q, d),
    decreases d,
{
    if is_prime(d) {
        assert(d * 1 == d);
        d
    } else {
        let k = choose|k: int| 2 <= k < d && #[trigger] (d % k) == 0;
        lemma_fundamental_div_mod(d, k);
        assert(k * (d / k) == d);
        let q = lemma_prime_divisor_exists(k);
        lemma_divides_trans(q, k, d);
        q
    }
}

/// The list with the exponent at index `i` lowered by one.
pub open spec fn lower_one(s: Seq<(u64, u64)>, i: int) -> Seq<(u64, u64)> {
    s.update(i, (s[i].0, (s[i].1 - 1) as u64))
}

proof fn lemma_lower_one(s: Seq<(u64, u64)>, i: int)
    requires
        0 <= i < s.len(),
        s[i].1 >= 1,
    ensures
        seq_value(s) == s[i].0 * seq_value(lower_one(s, i)),
        forall|p: int| #[trigger]
            seq_exponent(lower_one(s, i), p) == seq_exponent(s, p) - if s[i].0 == p {
                1int
            } else {
                0
            },
    decreases s.len(),
{
    let l = lower_one(s, i);
    let n = s.len() - 1;
    if i == n {
        assert(l.drop_last() =~= s.drop_last());
        assert(l.last() == (s[i].0, (s[i].1 - 1) as u64));
        assert forall|p: int| #[trigger]
            seq_exponent(l, p) == seq_exponent(s, p) - if s[i].0 == p {
                1int
            } else {
                0
            } by {}
        let b = s[i].0 as int;
        let e = s[i].1 as nat;
        assert(power(b, e) == b * power(b, (e - 1) as nat));
        let v = seq_value(s.drop_last());
        let w = power(b, (e - 1) as nat);
        assert(v * (b * w) == b * (v * w)) by (nonlinear_arith);
    } else {
        lemma_lower_one(s.drop_last(), i);
        assert(l.drop_last() =~= lower_one(s.drop_last(), i));
        assert(l.last() == s.last());
        assert(s.drop_last()[i] == s[i]);
        assert forall|p: int| #[trigger]
            seq_exponent(l, p) == seq_exponent(s, p) - if s[i].0 == p {
                1int
            } else {
                0
            } by {
            assert(seq_exponent(lower_one(s.drop_last(), i), p) == seq_exponent(s.drop_last(), p)
                - if s[i].0 == p {
                1int
            } else {
                0
            });
        }
        let b = s[i].0 as int;
        let v = seq_value(lower_one(s.drop_last(), i));
        let w = power(s.last().0 as int, s.last().1 as nat);
        assert((b * v) * w == b * (v * w)) by (nonlinear_arith);
    }
}

proof fn lemma_lower_one_keeps_shape(s: Seq<(u64, u64)>, i: int)
    requires
        0 <= i < s.len(),
        strictly_ascending(s),
        prime_bases(s),
    ensures
        strictly_ascending(lower_one(s, i)),
        prime_bases(lower_one(s, i)),
{
    let l = lower_one(s, i);
    assert forall|a: int, b: int| 0 <= a < b < l.len() implies (#[trigger] l[a]).0
        < (#[trigger] l[b]).0 by {
        assert(s[a].0 < s[b].0);
    }
    assert forall|k: int| 0 <= k < l.len() implies is_prime(#[trigger] l[k].0 as int) by {
        assert(l[k].0 == s[k].0);
    }
}

/// The index of the entry with base `p`, which must have a positive exponent.
proof fn lemma_entry_of(s: Seq<(u64, u64)>, p: int) -> (i: int)
    requires
        strictly_ascending(s),
        seq_exponent(s, p) > 0,
    ensures
        0 <= i < s.len(),
        s[i].0 == p,
        s[i].1 == seq_exponent(s, p),
{
    lemma_positive_exponent_has_entry(s, p);
    let i = choose|i: int| 0 <= i < s.len() && s[i].0 == p;
    lemma_exponent_of_ascending(s, p);
    i
}

/// For lists with prime bases, a list whose exponents are the minima of
/// those of `a` and `b` has for value a multiple of every positive common
/// divisor of the values of `a` and `b`.
proof fn lemma_common_divisor_divides(
    a: Seq<(u64, u64)>,
    b: Seq<(u64, u64)>,
    g: Seq<(u64, u64)>,
    d: int,
)
    requires
        strictly_ascending(a) && prime_bases(a),
        strictly_ascending(b) && prime_bases(b),
        strictly_ascending(g) && prime_bases(g),
        forall|p: int| #[trigger]
            seq_exponent(g, p) == if seq_exponent(a, p) <= seq_exponent(b, p) {
                seq_exponent(a, p)
            } else {
                seq_exponent(b, p)
            },
        d >= 1,
        int_divides(d, seq_value(a)),
        int_divides(d, seq_value(b)),
    ensures
        int_divides(d, seq_value(g)),
    decreases d,
{
    if d == 1 {
        assert(1 * seq_value(g) == seq_value(g));
    } else {
        let q = lemma_prime_divisor_exists(d);
        lemma_divides_trans(q, d, seq_value(a));
        lemma_divides_trans(q, d, seq_value(b));
        lemma_prime_divides_value(q, a);
        lemma_prime_divides_value(q, b);
        let ia = lemma_entry_of(a, q);
        let ib = lemma_entry_of(b, q);
        assert(seq_exponent(g, q) > 0);
        let ig = lemma_entry_of(g, q);
        let a1 = lower_one(a, ia);
        let b1 = lower_one(b, ib);
        let g1 = lower_one(g, ig);
        lemma_lower_one(a, ia);
        lemma_lower_one(b, ib);
        lemma_lower_one(g, ig);
        lemma_lower_one_keeps_shape(a, ia);
        lemma_lower_one_keeps_shape(b, ib);
        lemma_lower_one_keeps_shape(g, ig);
        // d = q d1, and d1 divides both lowered values.
        let d1 = choose|c: int| #[trigger] (q * c) == d;
        let ca = choose|c: int| #[trigger] (d * c) == seq_value(a);
        let cb = choose|c: int| #[trigger] (d * c) == seq_value(b);
        assert(q >= 2);
        assert(d1 >= 1 && d1 < d) by (nonlinear_arith)
            requires
                q * d1 == d,
                q >= 2,
                d >= 2,
        ;
        assert(d1 * ca == seq_value(a1)) by (nonlinear_arith)
            requires
                q * d1 == d,
                d * ca == seq_value(a),
                seq_value(a) == q * seq_value(a1),
                q >= 2,
        ;
        assert(d1 * cb == seq_value(b1)) by (nonlinear_arith)
            requires
                q * d1 == d,
                d * cb == seq_value(b),
                seq_value(b) == q * seq_value(b1),
                q >= 2,
        ;
        assert forall|p: int| #[trigger]
            seq_exponent(g1, p) == if seq_exponent(a1, p) <= seq_exponent(b1, p) {
                seq_exponent(a1, p)
            } else {
                seq_exponent(b1, p)
            } by {
            assert(seq_exponent(g, p) == if seq_exponent(a, p) <= seq_exponent(b, p) {
                seq_exponent(a, p)
            } else {
                seq_exponent(b, p)
            });
        }
        lemma_common_divisor_divides(a1, b1, g1, d1);
        let c = choose|c: int| #[trigger] (d1 * c) == seq_value(g1);
        assert(d * c == seq_value(g)) by (nonlinear_arith)
            requires
                d1 * c == seq_value(g1),
                q * d1 == d,
                seq_value(g) == q * seq_value(g1),
        ;
    }
}

/// For factorisations with prime bases, the gcd computed exponent-wise is
/// the greatest common divisor of the integers: it divides both, and every
/// common divisor of both divides it.
pub proof fn lemma_gcd_is_integer_gcd(a: PrimeFactors, b: PrimeFactors, g: PrimeFactors, d: int)
    requires
        a.wf(),
        b.wf(),
        g.wf(),
        prime_bases(a.factors@),
        prime_bases(b.factors@),
        prime_bases(g.factors@),
        !g.neg,
        int_divides(g.value(), a.value()),
        int_divides(g.value(), b.value()),
        forall|p: int| #[trigger]
            g.exponent(p) == if a.exponent(p) <= b.exponent(p) {
                a.exponent(p)
            } else {
                b.exponent(p)
            },
        int_divides(d, a.value()),
        int_divides(d, b.value()),
    ensures
        g.value() >= 1,
        int_divides(d, g.value()),
{
    crate::factors::lemma_magnitude_positive(g.factors@);
    crate::factors::lemma_magnitude_positive(a.factors@);
    let ad = if d >= 0 {
        d
    } else {
        -d
    };
    let c = choose|c: int| #[trigger] (d * c) == a.value();
    assert(d != 0) by (nonlinear_arith)
        requires
            d * c == a.value(),
            a.value() != 0,
    ;
    // Move the signs onto the magnitudes.
    assert(int_divides(ad, a.magnitude())) by {
        if a.neg {
            lemma_divides_negate(d, a.value());
            assert(-a.value() == a.magnitude());
        }
        if d < 0 {
            if a.neg {
                lemma_divides_negate(d, -a.value());
            } else {
                lemma_divides_negate(d, a.value());
            }
        }
    }
    assert(int_divides(ad, b.magnitude())) by {
        if b.neg {
            lemma_divides_negate(d, b.value());
            assert(-b.value() == b.magnitude());
        }
        if d < 0 {
            if b.neg {
                lemma_divides_negate(d, -b.value());
            } else {
                lemma_divides_negate(d, b.value());
            }
        }
    }
    assert forall|p: int| #[trigger]
        seq_exponent(g.factors@, p) == if seq_exponent(a.factors@, p) <= seq_exponent(
            b.factors@,
            p,
        ) {
            seq_exponent(a.factors@, p)
        } else {
            seq_exponent(b.factors@, p)
        } by {
        assert(g.exponent(p) == if a.exponent(p) <= b.exponent(p) {
            a.exponent(p)
        } else {
            b.exponent(p)
        });
    }
    lemma_common_divisor_divides(a.factors@, b.factors@, g.factors@, ad);
    if d < 0 {
        lemma_divides_negate(ad, g.value());
        assert(-ad == d);
        assert(-(-g.value()) == g.value());
    }
}

} // verus!
