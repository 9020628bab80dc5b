//! A table that factors any integer below its bound by a short chain of
//! lookups, and the factorisation of integers through it.
use vstd::prelude::*;
use vstd::arithmetic::div_mod::{lemma_fundamental_div_mod, lemma_mod_multiples_basic};
use crate::factors::{
    power, seq_value, strictly_ascending, proper_entries, exponents_at_most, is_prime, prime_bases,
    lemma_push, lemma_power_positive, lemma_exponent_bound, PrimeFactors,
};

verus! {

/// The largest bound a sieve may be built for: its table of `max / 2`
/// entries of 24 bytes each then stays well inside the address space.
pub const SIEVE_LIMIT: u64 = 0x0400_0000_0000_0000;

/// One table entry for the odd number `2 * t + 1` at index `t`: its smallest
/// prime factor `base`, the exponent of `base` in it, and the index of the
/// remaining odd cofactor (zero when that cofactor is one).
#[derive(Clone, Copy, Debug, PartialEq, Eq, Structural)]
pub struct FactorSieveElement {
    pub base: u64,
    pub exponent: u64,
    pub next: u64,
}

/// The factor table for the odd numbers below `max`; index zero stands for
/// the factor two.
#[derive(Debug)]
pub struct PrimeFactorSieve {
    pub max: u64,
    pub sieve: Vec<FactorSieveElement>,
}

/// No integer in `[2, b]` divides `v`.
pub open spec fn no_divisor_upto(v: int, b: int) -> bool {
    forall|d: int| 2 <= d <= b ==> #[trigger] (v % d) != 0
}

/// The entry at index `t` describes `2 * t + 1` as `base^exponent` times the
/// odd number of the entry `next`, whose factors all exceed `base`; no
/// integer below `base` divides `2 * t + 1`.
pub open spec fn entry_ok(s: Seq<FactorSieveElement>, t: int) -> bool {
    let e = s[t];
    &&& 3 <= e.base
    &&& no_divisor_upto(2 * t + 1, e.base - 1)
    &&& 1 <= e.exponent
    &&& e.next < t
    &&& 2 * t + 1 == power(e.base as int, e.exponent as nat) * (2 * e.next + 1)
    &&& e.next != 0 ==> no_divisor_upto(2 * e.next + 1, e.base as int)
}

/// What remains of `n` once every factor two is divided out.
pub open spec fn odd_part(n: nat) -> nat
    decreases n,
{
    if n > 0 && n % 2 == 0 {
        odd_part(n / 2)
    } else {
        n
    }
}

/// Every odd number at least three and below `max` that has a divisor `d`
/// in `[2, bound)` with `d^2` at most `max` and at most the number has
/// its entry filled in.
spec fn multiples_marked(s: Seq<FactorSieveElement>, max: int, bound: int) -> bool {
    forall|v: int, d: int|
        3 <= v < max && v % 2 == 1 && 2 <= d < bound && d * d <= max && d * d <= v
            && #[trigger] (v % d) == 0 ==> s[v / 2].base != 0
}

proof fn lemma_divides_product(a: int, b: int, d: int)
    requires
        d > 0,
        b % d == 0,
    ensures
        (a * b) % d == 0,
{
    lemma_fundamental_div_mod(b, d);
    assert(a * b == (a * (b / d)) * d) by (nonlinear_arith)
        requires
            b == d * (b / d),
    ;
    lemma_mod_multiples_basic(a * (b / d), d);
}

proof fn lemma_odd_has_no_even_divisor(v: int, d: int)
    requires
        v % 2 == 1,
        d > 0,
        d % 2 == 0,
    ensures
        v % d != 0,
{
    if v % d == 0 {
        lemma_fundamental_div_mod(v, d);
        lemma_divides_product(v / d, d, 2);
        assert(v == (v / d) * d) by (nonlinear_arith)
            requires
                v == d * (v / d) + v % d,
                v % d == 0,
        ;
    }
}

proof fn lemma_odd_product(x: int, y: int)
    requires
        x >= 0,
        y >= 0,
        x % 2 == 1,
        y % 2 == 1,
    ensures
        (x * y) % 2 == 1,
{
    let a = x / 2;
    let b = y / 2;
    assert(x * y == 2 * (2 * a * b + a + b) + 1) by (nonlinear_arith)
        requires
            x == 2 * a + 1,
            y == 2 * b + 1,
    ;
}

proof fn lemma_odd_cofactor(c: int, i: int, q: int)
    requires
        c == i * q,
        c % 2 == 1,
        i >= 0,
        q >= 0,
    ensures
        q % 2 == 1,
{
    if q % 2 == 0 {
        lemma_divides_product(i, q, 2);
    }
}

proof fn lemma_base_divides(b: int, e: nat, c: int)
    requires
        b > 0,
        e >= 1,
    ensures
        (power(b, e) * c) % b == 0,
{
    let q = power(b, (e - 1) as nat);
    assert(power(b, e) * c == (q * c) * b) by (nonlinear_arith)
        requires
            power(b, e) == b * q,
    ;
    lemma_mod_multiples_basic(q * c, b);
}

proof fn lemma_power_base_bound(b: int, e: nat)
    requires
        b >= 2,
    ensures
        power(b, e) >= power(2, e),
    decreases e,
{
    if e > 0 {
        lemma_power_base_bound(b, (e - 1) as nat);
        lemma_power_positive(2, (e - 1) as nat);
        let x = power(b, (e - 1) as nat);
        let y = power(2, (e - 1) as nat);
        assert(b * x >= 2 * y) by (nonlinear_arith)
            requires
                b >= 2,
                x >= y,
                y >= 1,
        ;
    }
}

proof fn lemma_power_two_grows(e: nat)
    requires
        e >= 64,
    ensures
        power(2, e) >= 0x1_0000_0000_0000_0000,
    decreases e,
{
    if e == 64 {
        reveal_with_fuel(power, 65);
    } else {
        lemma_power_two_grows((e - 1) as nat);
    }
}

/// An exponent whose power fits in 64 bits is at most 63.
pub proof fn lemma_exponent_fits(b: int, e: nat)
    requires
        b >= 2,
        power(b, e) <= u64::MAX,
    ensures
        e <= 63,
{
    if e >= 64 {
        lemma_power_base_bound(b, e);
        lemma_power_two_grows(e);
    }
}

proof fn lemma_power_multiplies(b: int, e: nat, k: nat)
    ensures
        power(b, e * k) == power(power(b, e), k),
    decreases k,
{
    if k > 0 {
        lemma_power_multiplies(b, e, (k - 1) as nat);
        let e1 = (e * ((k - 1) as nat)) as nat;
        assert(e * k == e + e1) by (nonlinear_arith)
            requires
                k > 0,
                e1 == e * (k - 1),
        ;
        crate::factors::lemma_power_adds(b, e, e1);
        assert(power(power(b, e), k) == power(b, e) * power(power(b, e), (k - 1) as nat));
        assert(power(b, e1) == power(power(b, e), (k - 1) as nat));
        assert(power(b, e * k) == power(b, e + e1));
    } else {
        assert(e * k == 0) by (nonlinear_arith)
            requires
                k == 0,
        ;
    }
}

proof fn lemma_power_distributes(x: int, y: int, k: nat)
    ensures
        power(x * y, k) == power(x, k) * power(y, k),
    decreases k,
{
    if k > 0 {
        lemma_power_distributes(x, y, (k - 1) as nat);
        let a = power(x, (k - 1) as nat);
        let b = power(y, (k - 1) as nat);
        assert((x * y) * (a * b) == (x * a) * (y * b)) by (nonlinear_arith);
    }
}

/// Scaling every exponent by `k` raises the value to the power `k`.
proof fn lemma_value_scaled(s: Seq<(u64, u64)>, f: Seq<(u64, u64)>, k: nat)
    requires
        f.len() == s.len(),
        forall|i: int| 0 <= i < s.len() ==> #[trigger] f[i] == (s[i].0, (s[i].1 * k) as u64)
            && s[i].1 * k <= u64::MAX,
    ensures
        seq_value(f) == power(seq_value(s), k),
    decreases s.len(),
{
    if s.len() > 0 {
        let n = s.len() - 1;
        assert(f[n] == (s[n].0, (s[n].1 * k) as u64));
        lemma_value_scaled(s.drop_last(), f.drop_last(), k);
        lemma_power_multiplies(s[n].0 as int, s[n].1 as nat, k);
        lemma_power_distributes(seq_value(s.drop_last()), power(s[n].0 as int, s[n].1 as nat), k);
    } else {
        assert(power(1, k) == 1) by {
            lemma_power_of_one(k);
        }
    }
}

proof fn lemma_power_of_one(k: nat)
    ensures
        power(1, k) == 1,
    decreases k,
{
    if k > 0 {
        lemma_power_of_one((k - 1) as nat);
    }
}

/// The base of a correct entry is prime.
proof fn lemma_entry_base_prime(s: Seq<FactorSieveElement>, t: int)
    requires
        1 <= t < s.len(),
        entry_ok(s, t),
    ensures
        is_prime(s[t].base as int),
{
    let e = s[t];
    let b = e.base as int;
    let v = 2 * t + 1;
    lemma_base_divides(b, e.exponent as nat, 2 * e.next + 1);
    lemma_fundamental_div_mod(v, b);
    let k = v / b;
    assert(v == k * b) by (nonlinear_arith)
        requires
            v == b * (v / b) + v % b,
            v % b == 0,
            k == v / b,
    ;
    assert forall|d: int| 2 <= d < b implies #[trigger] (b % d) != 0 by {
        if b % d == 0 {
            lemma_divides_product(k, b, d);
            assert(v % d != 0);
        }
    }
}

impl PrimeFactorSieve {
    /// The table is complete and every entry is correct.
    pub open spec fn wf(&self) -> bool {
        &&& 2 <= self.max <= SIEVE_LIMIT
        &&& self.max <= usize::MAX
        &&& self.sieve@.len() == self.max / 2
        &&& self.sieve@[0] == FactorSieveElement { base: 2, exponent: 1, next: 0 }
        &&& forall|t: int| 1 <= t < self.sieve@.len() ==> #[trigger] entry_ok(self.sieve@, t)
    }

    /// The table can factor `n`: `n` is positive and its odd part is below
    /// the bound.
    pub open spec fn covers(&self, n: int) -> bool {
        1 <= n && odd_part(n as nat) < self.max
    }

    /// Builds the factor table for the odd numbers below `max`.
    pub fn new(max: u64) -> (r: Self)
        requires
            2 <= max <= SIEVE_LIMIT,
            max <= usize::MAX,
        ensures
            r.wf(),
            r.max == max,
    {
        let half: usize = (max / 2) as usize;
        let mut sieve = vec![FactorSieveElement { base: 0, exponent: 0, next: 0 }; half];
        sieve[0] = FactorSieveElement { base: 2, exponent: 1, next: 0 };
        let ghost m = max as int;
        proof {
            assert forall|t: int| 0 <= t < half implies sieve@[t].base == 0 || t == 0 by {}
            assert(multiples_marked(sieve@, m, 3)) by {
                assert forall|v: int, d: int|
                    3 <= v < m && v % 2 == 1 && 2 <= d < 3 && d * d <= m && d * d
                        <= v && #[trigger] (v % d) == 0 implies sieve@[v / 2].base != 0 by {
                    lemma_odd_has_no_even_divisor(v, d);
                }
            }
        }
        let mut i: u64 = 3;
        while i < max
            invariant
                m == max as int,
                2 <= max <= SIEVE_LIMIT,
                max <= usize::MAX,
                half == max / 2,
                sieve@.len() == half,
                i % 2 == 1,
                3 <= i <= max + 1,
                sieve@[0] == (FactorSieveElement { base: 2, exponent: 1, next: 0 }),
                forall|t: int|
                    1 <= t < half && #[trigger] sieve@[t].base != 0 ==> entry_ok(sieve@, t)
                        && sieve@[t].exponent <= t,
                forall|t: int| 1 <= t < half && t < i / 2 ==> #[trigger] sieve@[t].base != 0,
                forall|t: int|
                    i / 2 <= t < half && #[trigger] sieve@[t].base != 0 ==> sieve@[t].base < i
                        && sieve@[t].base * sieve@[t].base <= 2 * t + 1,
                multiples_marked(sieve@, m, i as int),
            decreases max + 1 - i,
        {
            let ghost i0 = i as int;
            if sieve[(i / 2) as usize].base == 0 {
                proof {
                    // No integer in [2, i) divides i: a divisor pairs with one whose
                    // square is at most i, which would have marked i already.
                    let s0 = sieve@;
                    assert forall|d: int| 2 <= d <= i - 1 implies #[trigger] ((i as int) % d)
                        != 0 by {
                        if (i as int) % d == 0 {
                            lemma_fundamental_div_mod(i as int, d);
                            let e = (i as int) / d;
                            assert(i == d * e);
                            assert(e >= 2) by (nonlinear_arith)
                                requires
                                    i == d * e,
                                    2 <= d < i,
                            ;
                            lemma_mod_multiples_basic(d, e);
                            assert((i as int) % e == 0) by {
                                assert(d * e == e * d) by (nonlinear_arith);
                            }
                            let d2 = if d <= e {
                                d
                            } else {
                                e
                            };
                            assert(d2 * d2 <= i && d2 < i) by (nonlinear_arith)
                                requires
                                    i == d * e,
                                    d2 == d || d2 == e,
                                    d2 <= d,
                                    d2 <= e,
                                    d2 >= 2,
                            ;
                            assert(d2 * d2 <= m);
                            assert(s0[(i as int) / 2].base != 0);
                        }
                    }
                }
                sieve[(i / 2) as usize] = FactorSieveElement { base: i, exponent: 1, next: 0 };
                proof {
                    assert(power(i as int, 0) == 1);
                    assert(power(i as int, 1) == i);
                    assert(entry_ok(sieve@, (i / 2) as int));
                }
                proof {
                    assert((i as u128) * (i as u128) < 0x0100_0000_0000_0000_0000_0000_0000_0000)
                        by (nonlinear_arith)
                        requires
                            i < 0x0400_0000_0000_0000,
                    ;
                }
                if (i as u128) * (i as u128) <= max as u128 {
                    proof {
                        assert(i * i <= max && i < 0x1_0000_0000) by (nonlinear_arith)
                            requires
                                i * i <= max,
                                max <= 0x0400_0000_0000_0000,
                        ;
                        assert(i * (2 * (i / 2) + 1) == i * i);
                    }
                    let mut j: u64 = i * i;
                    let mut k: u64 = i / 2;
                    while j < max
                        invariant
                            m == max as int,
                            2 <= max <= SIEVE_LIMIT,
                            max <= usize::MAX,
                            half == max / 2,
                            sieve@.len() == half,
                            i % 2 == 1,
                            3 <= i < 0x1_0000_0000,
                            i * i <= max,
                            sieve@[0] == (FactorSieveElement { base: 2, exponent: 1, next: 0 }),
                            sieve@[(i / 2) as int] == (FactorSieveElement {
                                base: i,
                                exponent: 1,
                                next: 0,
                            }),
                            forall|t: int|
                                1 <= t < half && #[trigger] sieve@[t].base != 0 ==> entry_ok(
                                    sieve@,
                                    t,
                                ) && sieve@[t].exponent <= t,
                            forall|t: int| 1 <= t < half && t <= i / 2 ==> #[trigger] sieve@[t].base != 0,
                            forall|t: int|
                                i / 2 < t < half && #[trigger] sieve@[t].base != 0 ==> sieve@[t].base
                                    <= i && sieve@[t].base * sieve@[t].base <= 2 * t + 1,
                            multiples_marked(sieve@, m, i as int),
                            i / 2 <= k,
                            j == i * (2 * k + 1),
                            j < max + 2 * i,
                            forall|kk: int|
                                i / 2 <= kk < k ==> #[trigger] sieve@[(i * (2 * kk + 1)) / 2].base
                                    != 0,
                        decreases max + 2 * i - j,
                    {
                        let ghost s_start = sieve@;
                        proof {
                            assert(k < j) by (nonlinear_arith)
                                requires
                                    j == i * (2 * k + 1),
                                    i >= 3,
                            ;
                            lemma_odd_product(i as int, 2 * k + 1);
                        }
                        if sieve[(j / 2) as usize].base == 0 {
                            let ghost s0 = sieve@;
                            let ghost t = (j / 2) as int;
                            proof {
                                // No integer below `i` divides `j`.
                                assert forall|d: int| 2 <= d < i implies #[trigger] (j as int % d)
                                    != 0 by {
                                    if j as int % d == 0 {
                                        if d % 2 == 0 {
                                            lemma_odd_has_no_even_divisor(j as int, d);
                                        } else {
                                            assert(d * d <= max && d * d <= j)
                                                by (nonlinear_arith)
                                                requires
                                                    2 <= d < i,
                                                    i * i <= max,
                                                    j == i * (2 * k + 1),
                                                    i / 2 <= k,
                                                    i % 2 == 1,
                                            ;
                                            assert(s0[j as int / 2].base != 0);
                                        }
                                    }
                                }
                                assert(1 <= k < t) by (nonlinear_arith)
                                    requires
                                        j == i * (2 * k + 1),
                                        i >= 3,
                                        i / 2 <= k,
                                        t == j / 2,
                                ;
                                assert(i * i <= j) by (nonlinear_arith)
                                    requires
                                        j == i * (2 * k + 1),
                                        i / 2 <= k,
                                        i % 2 == 1,
                                ;
                            }
                            let ek = sieve[k as usize];
                            if ek.base == i {
                                proof {
                                    assert(entry_ok(s0, k as int));
                                    let pe = power(i as int, ek.exponent as nat);
                                    let c = 2 * ek.next + 1;
                                    assert(power(i as int, (ek.exponent + 1) as nat) == i * pe);
                                    assert(j == (i * pe) * c) by (nonlinear_arith)
                                        requires
                                            j == i * (2 * k + 1),
                                            2 * k + 1 == pe * c,
                                    ;
                                }
                                sieve[(j / 2) as usize] = FactorSieveElement {
                                    base: i,
                                    exponent: ek.exponent + 1,
                                    next: ek.next,
                                };
                                proof {
                                    assert(entry_ok(sieve@, t));
                                }
                            } else {
                                proof {
                                    assert(power(i as int, 0) == 1);
                                    assert(power(i as int, 1) == i);
                                    let c = 2 * k + 1;
                                    assert forall|d: int| 2 <= d <= i implies #[trigger] (c % d)
                                        != 0 by {
                                        if c % d == 0 {
                                            lemma_divides_product(i as int, c, d);
                                            if d == i {
                                                lemma_fundamental_div_mod(c, d);
                                                let q = c / d;
                                                assert(c == i * q);
                                                lemma_odd_cofactor(c, i as int, q);
                                                if q == 1 {
                                                    assert(k == i / 2);
                                                } else if q < i {
                                                    assert(j == q * (i * i)) by (nonlinear_arith)
                                                        requires
                                                            j == i * c,
                                                            c == i * q,
                                                    ;
                                                    lemma_mod_multiples_basic(i * i, q);
                                                    assert((i * i * q) % q == 0);
                                                    assert(j as int % q == 0) by (nonlinear_arith)
                                                        requires
                                                            j == q * (i * i),
                                                            (i * i * q) % q == 0,
                                                    ;
                                                } else {
                                                    let kk = (q - 1) / 2;
                                                    assert(i / 2 <= kk < k) by (nonlinear_arith)
                                                        requires
                                                            q >= i,
                                                            q % 2 == 1,
                                                            kk == (q - 1) / 2,
                                                            c == i * q,
                                                            c == 2 * k + 1,
                                                            i >= 3,
                                                    ;
                                                    assert(i * (2 * kk + 1) == c);
                                                    assert(s0[(i * (2 * kk + 1)) / 2].base != 0);
                                                    assert(k > i / 2) by (nonlinear_arith)
                                                        requires
                                                            i / 2 <= kk < k,
                                                    ;
                                                    let bk = s0[k as int].base as int;
                                                    assert(entry_ok(s0, k as int));
                                                    lemma_base_divides(
                                                        bk,
                                                        s0[k as int].exponent as nat,
                                                        2 * s0[k as int].next + 1,
                                                    );
                                                    lemma_divides_product(i as int, c, bk);
                                                    assert(j as int % bk != 0);
                                                }
                                            }
                                        }
                                    }
                                }
                                sieve[(j / 2) as usize] = FactorSieveElement {
                                    base: i,
                                    exponent: 1,
                                    next: k,
                                };
                                proof {
                                    assert(entry_ok(sieve@, t));
                                }
                            }
                            proof {
                                assert forall|v: int, d: int|
                                    3 <= v < m && v % 2 == 1 && 2 <= d < i && d * d
                                        <= m && d * d <= v && #[trigger] (v % d) == 0 implies sieve@[v
                                    / 2].base != 0 by {
                                    assert(s0[v / 2].base != 0);
                                }
                            }
                        }
                        proof {
                            assert((i * (2 * k + 1)) / 2 == j / 2);
                            assert forall|kk: int| i / 2 <= kk < k + 1 implies #[trigger] sieve@[(i
                                * (2 * kk + 1)) / 2].base != 0 by {
                                if kk < k {
                                    assert(i * (2 * kk + 1) < j) by (nonlinear_arith)
                                        requires
                                            j == i * (2 * k + 1),
                                            kk < k,
                                            i >= 3,
                                    ;
                                    assert(s_start[(i * (2 * kk + 1)) / 2].base != 0);
                                } else {
                                    assert(kk == k);
                                    assert(sieve@[(j / 2) as int].base != 0);
                                }
                            }
                        }
                        j = j + 2 * i;
                        k = k + 1;
                        proof {
                            assert(j == i * (2 * k + 1)) by (nonlinear_arith)
                                requires
                                    j == i * (2 * (k - 1) + 1) + 2 * i,
                            ;
                        }
                    }
                    proof {
                        // Every odd multiple of `i` from `i^2` up is now marked.
                        let s1 = sieve@;
                        assert forall|v: int, d: int|
                            3 <= v < m && v % 2 == 1 && 2 <= d < i + 2 && d * d <= m
                                && d * d <= v && #[trigger] (v % d) == 0 implies s1[v / 2].base
                            != 0 by {
                            if d == i + 1 {
                                lemma_odd_has_no_even_divisor(v, d);
                            } else if d == i {
                                lemma_fundamental_div_mod(v, d);
                                let q = v / d;
                                assert(v == i * q);
                                lemma_odd_cofactor(v, i as int, q);
                                let kk = (q - 1) / 2;
                                assert(i / 2 <= kk < k) by (nonlinear_arith)
                                    requires
                                        v == i * q,
                                        i * i <= v,
                                        v < m,
                                        m <= j,
                                        j == i * (2 * k + 1),
                                        q % 2 == 1,
                                        kk == (q - 1) / 2,
                                        i >= 3,
                                ;
                                assert(i * (2 * kk + 1) == v);
                                assert(s1[(i * (2 * kk + 1)) / 2].base != 0);
                            }
                        }
                    }
                } else {
                    proof {
                        let s1 = sieve@;
                        assert forall|v: int, d: int|
                            3 <= v < m && v % 2 == 1 && 2 <= d < i + 2 && d * d <= m
                                && d * d <= v && #[trigger] (v % d) == 0 implies s1[v / 2].base
                            != 0 by {
                            if d == i + 1 {
                                lemma_odd_has_no_even_divisor(v, d);
                            } else if d == i {
                                assert(i * i <= m);
                            }
                        }
                    }
                }
            } else {
                proof {
                    let s1 = sieve@;
                    let t = i / 2;
                    let q = s1[t as int].base as int;
                    assert(entry_ok(s1, t as int));
                    lemma_base_divides(q, s1[t as int].exponent as nat, 2 * s1[t as int].next + 1);
                    assert(i as int % q == 0);
                    assert forall|v: int, d: int|
                        3 <= v < m && v % 2 == 1 && 2 <= d < i + 2 && d * d <= m && d
                            * d <= v && #[trigger] (v % d) == 0 implies s1[v / 2].base != 0 by {
                        if d == i + 1 {
                            lemma_odd_has_no_even_divisor(v, d);
                        } else if d == i {
                            lemma_fundamental_div_mod(v, d);
                            lemma_divides_product(v / d, i as int, q);
                            assert(v == (v / d) * i) by (nonlinear_arith)
                                requires
                                    v == d * (v / d) + v % d,
                                    v % d == 0,
                                    d == i,
                            ;
                            assert(v % q == 0);
                            assert(2 <= q < i && q * q <= m && q * q <= v)
                                by (nonlinear_arith)
                                requires
                                    q * q <= i,
                                    q >= 3,
                                    d == i,
                                    d * d <= m,
                                    d * d <= v,
                            ;
                        }
                    }
                }
            }
            i = i + 2;
        }
        let r = PrimeFactorSieve { max, sieve };
        proof {
            assert forall|t: int| 1 <= t < r.sieve@.len() implies #[trigger] entry_ok(r.sieve@, t) by {
                assert(r.sieve@[t].base != 0);
            }
        }
        r
    }
}

impl PrimeFactors {
    /// The factorisation of `value` through the table: the factor two first,
    /// then the chain of table entries for the odd part.
    pub fn new(sieve: &PrimeFactorSieve, value: u64) -> (r: PrimeFactors)
        requires
            sieve.wf(),
            sieve.covers(value as int),
        ensures
            r.wf(),
            !r.neg,
            r.value() == value,
            exponents_at_most(r.factors@, 63),
            forall|p: int| #[trigger] r.exponent(p) <= 63,
            prime_bases(r.factors@),
    {
        let mut factors: Vec<(u64, u64)> = Vec::new();
        let mut rest: u64 = value;
        let mut pow_2: u64 = 0;
        proof {
            assert(power(2, 0) == 1);
        }
        while rest % 2 == 0
            invariant
                1 <= rest <= value,
                rest * power(2, pow_2 as nat) == value,
                odd_part(rest as nat) == odd_part(value as nat),
                pow_2 <= 63,
            decreases rest,
        {
            proof {
                assert(power(2, (pow_2 + 1) as nat) == 2 * power(2, pow_2 as nat));
                assert((rest / 2) * power(2, (pow_2 + 1) as nat) == value) by (nonlinear_arith)
                    requires
                        rest * power(2, pow_2 as nat) == value,
                        rest % 2 == 0,
                        power(2, (pow_2 + 1) as nat) == 2 * power(2, pow_2 as nat),
                ;
                lemma_power_positive(2, (pow_2 + 1) as nat);
                assert(power(2, (pow_2 + 1) as nat) <= value) by (nonlinear_arith)
                    requires
                        (rest / 2) * power(2, (pow_2 + 1) as nat) == value,
                        rest / 2 >= 1,
                        power(2, (pow_2 + 1) as nat) >= 1,
                ;
                lemma_exponent_fits(2, (pow_2 + 1) as nat);
            }
            rest = rest / 2;
            pow_2 = pow_2 + 1;
        }
        if pow_2 > 0 {
            factors.push((2, pow_2));
            proof {
                lemma_push(Seq::<(u64, u64)>::empty(), (2, pow_2));
                assert(Seq::<(u64, u64)>::empty().push((2u64, pow_2)) =~= factors@);
            }
        } else {
            proof {
                assert(power(2, 0) == 1);
            }
        }
        let mut base: u64 = rest / 2;
        proof {
            assert(seq_value(factors@) == power(2, pow_2 as nat));
            assert(odd_part(rest as nat) == rest);
            assert(rest == 2 * base + 1);
            assert(power(2, pow_2 as nat) * rest == value) by (nonlinear_arith)
                requires
                    rest * power(2, pow_2 as nat) == value,
            ;
            assert forall|d: int| 2 <= d <= 2 implies #[trigger] ((rest as int) % d) != 0 by {}
        }
        while base > 0
            invariant
                sieve.wf(),
                (base as int) < sieve.sieve@.len(),
                seq_value(factors@) * (2 * base + 1) == value,
                strictly_ascending(factors@),
                proper_entries(factors@),
                exponents_at_most(factors@, 63),
                prime_bases(factors@),
                base != 0 && factors@.len() > 0 ==> no_divisor_upto(
                    2 * base + 1,
                    factors@.last().0 as int,
                ),
                factors@.len() > 0 ==> factors@.last().0 >= 2,
            decreases base,
        {
            proof {
                assert(base as int <= usize::MAX);
            }
            let idx = base as usize;
            assert(idx as int == base as int);
            let element = sieve.sieve[idx];
            let ghost f0 = factors@;
            proof {
                assert(element == sieve.sieve@[base as int]);
                assert(entry_ok(sieve.sieve@, base as int));
                let pe = power(element.base as int, element.exponent as nat);
                lemma_base_divides(element.base as int, element.exponent as nat, 2 * element.next + 1);
                lemma_power_positive(element.base as int, element.exponent as nat);
                if f0.len() > 0 {
                    // The new base exceeds every earlier one.
                    if element.base <= f0.last().0 {
                        assert(((2 * base + 1) as int) % (element.base as int) != 0);
                    }
                }
                assert(pe <= 2 * base + 1) by (nonlinear_arith)
                    requires
                        2 * base + 1 == pe * (2 * element.next + 1),
                        pe >= 1,
                        element.next >= 0,
                ;
                assert(2 * base + 1 <= u64::MAX) by {
                    assert(sieve.sieve@.len() == sieve.max / 2);
                }
                lemma_exponent_fits(element.base as int, element.exponent as nat);
                lemma_entry_base_prime(sieve.sieve@, base as int);
            }
            factors.push((element.base, element.exponent));
            proof {
                lemma_push(f0, (element.base, element.exponent));
                let v0 = seq_value(f0);
                let pe = power(element.base as int, element.exponent as nat);
                assert((v0 * pe) * (2 * element.next + 1) == v0 * (pe * (2 * element.next + 1)))
                    by (nonlinear_arith);
                assert forall|a: int, b: int|
                    0 <= a < b < factors@.len() implies (#[trigger] factors@[a]).0
                    < (#[trigger] factors@[b]).0 by {
                    if b == factors@.len() - 1 && a < b {
                        assert(factors@[a] == f0[a]);
                        if a < f0.len() - 1 {
                            assert(f0[a].0 < f0[f0.len() - 1].0);
                        }
                    }
                }
            }
            base = element.next;
        }
        let r = PrimeFactors { neg: false, factors };
        proof {
            assert(seq_value(r.factors@) * 1 == value);
            assert forall|p: int| #[trigger] r.exponent(p) <= 63 by {
                lemma_exponent_bound(r.factors@, 63, p);
            }
        }
        r
    }

    /// The factorisation of `value^pow`: that of `value` with every exponent
    /// multiplied by `pow`.
    pub fn new_with_pow(sieve: &PrimeFactorSieve, value: u64, pow: u64) -> (r: PrimeFactors)
        requires
            sieve.wf(),
            sieve.covers(value as int),
            1 <= pow <= u64::MAX / 63,
        ensures
            r.wf(),
            !r.neg,
            r.value() == power(value as int, pow as nat),
            exponents_at_most(r.factors@, 63 * pow),
            forall|p: int| #[trigger] r.exponent(p) <= 63 * pow,
            prime_bases(r.factors@),
    {
        let mut tmp = PrimeFactors::new(sieve, value);
        let ghost orig = tmp.factors@;
        let mut i: usize = 0;
        while i < tmp.factors.len()
            invariant
                !tmp.neg,
                tmp.factors@.len() == orig.len(),
                strictly_ascending(orig),
                proper_entries(orig),
                exponents_at_most(orig, 63),
                prime_bases(orig),
                1 <= pow <= u64::MAX / 63,
                0 <= i <= orig.len(),
                forall|k: int| 0 <= k < i ==> #[trigger] tmp.factors@[k] == (orig[k].0, (orig[k].1
                    * pow) as u64) && orig[k].1 * pow <= u64::MAX,
                forall|k: int| i <= k < orig.len() ==> #[trigger] tmp.factors@[k] == orig[k],
            decreases orig.len() - i,
        {
            let (b, e) = tmp.factors[i];
            proof {
                assert(e * pow <= 63 * pow) by (nonlinear_arith)
                    requires
                        e <= 63,
                ;
            }
            tmp.factors[i] = (b, e * pow);
            i = i + 1;
        }
        proof {
            lemma_value_scaled(orig, tmp.factors@, pow as nat);
            let f = tmp.factors@;
            assert forall|k: int| 0 <= k < f.len() implies (#[trigger] f[k]).1 <= 63 * pow && f[k].1
                > 0 by {
                assert(orig[k].1 >= 1 && orig[k].1 <= 63);
                assert(orig[k].1 * pow <= 63 * pow && orig[k].1 * pow >= 1) by (nonlinear_arith)
                    requires
                        1 <= orig[k].1 <= 63,
                        pow >= 1,
                ;
            }
            assert forall|a: int, b: int| 0 <= a < b < f.len() implies (#[trigger] f[a]).0
                < (#[trigger] f[b]).0 by {
                assert(orig[a].0 < orig[b].0);
            }
            assert forall|k: int| 0 <= k < f.len() implies is_prime(#[trigger] f[k].0 as int) by {
                assert(f[k].0 == orig[k].0);
            }
            assert forall|p: int| #[trigger] tmp.exponent(p) <= 63 * pow by {
                lemma_exponent_bound(f, 63 * pow, p);
            }
        }
        tmp
    }
}

} // verus!
