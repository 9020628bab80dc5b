//! Integers held as their prime factorisation: a sign and a list of
//! `(prime, exponent)` pairs in strictly ascending prime order.
use vstd::prelude::*;

verus! {

/// `b` raised to the natural power `e`.
pub open spec fn power(b: int, e: nat) -> int
    decreases e,
{
    if e == 0 {
        1
    } else {
        b * power(b, (e - 1) as nat)
    }
}

/// The product of `p^e` over the pairs of a factor list.
pub open spec fn seq_value(s: Seq<(u64, u64)>) -> int
    decreases s.len(),
{
    if s.len() == 0 {
        1
    } else {
        seq_value(s.drop_last()) * power(s.last().0 as int, s.last().1 as nat)
    }
}

/// The total exponent with which the base `p` occurs in a factor list.
pub open spec fn seq_exponent(s: Seq<(u64, u64)>, p: int) -> int
    decreases s.len(),
{
    if s.len() == 0 {
        0
    } else {
        seq_exponent(s.drop_last(), p) + if s.last().0 == p {
            s.last().1 as int
        } else {
            0
        }
    }
}

/// `n` is prime: at least two, with no divisor strictly between one and itself.
pub open spec fn is_prime(n: int) -> bool {
    n >= 2 && forall|d: int| 2 <= d < n ==> #[trigger] (n % d) != 0
}

/// Every base of the list is prime.
pub open spec fn prime_bases(s: Seq<(u64, u64)>) -> bool {
    forall|i: int| 0 <= i < s.len() ==> is_prime(#[trigger] s[i].0 as int)
}

/// Bases strictly ascend along the list.
pub open spec fn strictly_ascending(s: Seq<(u64, u64)>) -> bool {
    forall|i: int, j: int| 0 <= i < j < s.len() ==> (#[trigger] s[i]).0 < (#[trigger] s[j]).0
}

/// Every base is at least two and every exponent is positive.
pub open spec fn proper_entries(s: Seq<(u64, u64)>) -> bool {
    forall|i: int| 0 <= i < s.len() ==> (#[trigger] s[i]).0 >= 2 && s[i].1 > 0
}

/// Every exponent is at most `m`.
pub open spec fn exponents_at_most(s: Seq<(u64, u64)>, m: int) -> bool {
    forall|i: int| 0 <= i < s.len() ==> (#[trigger] s[i]).1 <= m
}

/// `d` divides `n` in the integers.
pub open spec fn int_divides(d: int, n: int) -> bool {
    exists|c: int| #[trigger] (d * c) == n
}

/// Powers of one base multiply by adding exponents.
pub proof fn lemma_power_adds(b: int, e1: nat, e2: nat)
    ensures
        power(b, e1 + e2) == power(b, e1) * power(b, e2),
    decreases e1,
{
    if e1 > 0 {
        lemma_power_adds(b, (e1 - 1) as nat, e2);
        assert(power(b, e1 + e2) == b * power(b, (e1 - 1 + e2) as nat));
        let x = power(b, (e1 - 1) as nat);
        let y = power(b, e2);
        assert(b * (x * y) == (b * x) * y) by (nonlinear_arith);
    }
}

/// A positive base has positive powers.
pub proof fn lemma_power_positive(b: int, e: nat)
    requires
        b >= 1,
    ensures
        power(b, e) >= 1,
    decreases e,
{
    if e > 0 {
        lemma_power_positive(b, (e - 1) as nat);
        let x = power(b, (e - 1) as nat);
        assert(b * x >= 1) by (nonlinear_arith)
            requires
                b >= 1,
                x >= 1,
        ;
    }
}

/// Appending a pair multiplies the value and adds to one base's exponent.
pub proof fn lemma_push(s: Seq<(u64, u64)>, x: (u64, u64))
    ensures
        seq_value(s.push(x)) == seq_value(s) * power(x.0 as int, x.1 as nat),
        forall|p: int|
            #[trigger] seq_exponent(s.push(x), p) == seq_exponent(s, p) + if x.0 == p {
                x.1 as int
            } else {
                0
            },
{
    assert(s.push(x).drop_last() =~= s);
}

/// A prefix one longer is the prefix with the next entry appended.
pub proof fn lemma_take_next(s: Seq<(u64, u64)>, i: int)
    requires
        0 <= i < s.len(),
    ensures
        s.take(i + 1) =~= s.take(i).push(s[i]),
{
}

/// Exponents are never negative.
pub proof fn lemma_exponent_nonneg(s: Seq<(u64, u64)>, p: int)
    ensures
        seq_exponent(s, p) >= 0,
    decreases s.len(),
{
    if s.len() > 0 {
        lemma_exponent_nonneg(s.drop_last(), p);
    }
}

/// A single entry never exceeds the total exponent of its base.
pub proof fn lemma_entry_within_exponent(s: Seq<(u64, u64)>, i: int)
    requires
        0 <= i < s.len(),
    ensures
        s[i].1 <= seq_exponent(s, s[i].0 as int),
    decreases s.len(),
{
    let p = s[i].0 as int;
    if i == s.len() - 1 {
        lemma_exponent_nonneg(s.drop_last(), p);
    } else {
        lemma_entry_within_exponent(s.drop_last(), i);
    }
}

/// In a strictly ascending list the exponent of a base is that of its one
/// entry, or zero when it has none.
pub proof fn lemma_exponent_of_ascending(s: Seq<(u64, u64)>, p: int)
    requires
        strictly_ascending(s),
    ensures
        (forall|i: int| 0 <= i < s.len() ==> s[i].0 != p) ==> seq_exponent(s, p) == 0,
        forall|i: int| 0 <= i < s.len() && s[i].0 == p ==> seq_exponent(s, p) == s[i].1,
    decreases s.len(),
{
    if s.len() > 0 {
        let t = s.drop_last();
        assert(strictly_ascending(t));
        lemma_exponent_of_ascending(t, p);
        if s.last().0 == p {
            assert forall|i: int| 0 <= i < t.len() implies t[i].0 != p by {
                assert(s[i].0 < s[s.len() - 1].0);
            }
        }
        assert forall|i: int| 0 <= i < s.len() && s[i].0 == p implies seq_exponent(s, p)
            == s[i].1 by {
            if i < s.len() - 1 {
                assert(s[i].0 < s[s.len() - 1].0);
                assert(t[i] == s[i]);
            }
        }
    }
}

/// A positive exponent is carried by some entry.
pub proof fn lemma_positive_exponent_has_entry(s: Seq<(u64, u64)>, p: int)
    requires
        seq_exponent(s, p) > 0,
    ensures
        exists|i: int| 0 <= i < s.len() && s[i].0 == p,
    decreases s.len(),
{
    if s.last().0 != p {
        lemma_positive_exponent_has_entry(s.drop_last(), p);
        let i = choose|i: int| 0 <= i < s.len() - 1 && s.drop_last()[i].0 == p;
        assert(s[i].0 == p);
    } else {
        assert(s[s.len() - 1].0 == p);
    }
}

/// A prefix carries no more of any base than the whole list.
pub proof fn lemma_prefix_exponent(s: Seq<(u64, u64)>, n: int, p: int)
    requires
        0 <= n <= s.len(),
    ensures
        seq_exponent(s.take(n), p) <= seq_exponent(s, p),
    decreases s.len() - n,
{
    if n < s.len() {
        lemma_take_next(s, n);
        lemma_push(s.take(n), s[n]);
        lemma_prefix_exponent(s, n + 1, p);
    } else {
        assert(s.take(n) =~= s);
    }
}

/// A base with no entry has exponent zero.
pub proof fn lemma_absent_exponent(s: Seq<(u64, u64)>, p: int)
    requires
        forall|i: int| 0 <= i < s.len() ==> (#[trigger] s[i]).0 != p,
    ensures
        seq_exponent(s, p) == 0,
    decreases s.len(),
{
    if s.len() > 0 {
        let t = s.drop_last();
        assert forall|i: int| 0 <= i < t.len() implies (#[trigger] t[i]).0 != p by {
            assert(t[i] == s[i]);
        }
        lemma_absent_exponent(t, p);
        assert(s[s.len() - 1].0 != p);
    }
}

/// Entries past `n` that avoid the base `p` leave its exponent as in the prefix.
pub proof fn lemma_exponent_tail_absent(s: Seq<(u64, u64)>, n: int, p: int)
    requires
        0 <= n <= s.len(),
        forall|k: int| n <= k < s.len() ==> (#[trigger] s[k]).0 != p,
    ensures
        seq_exponent(s, p) == seq_exponent(s.take(n), p),
    decreases s.len() - n,
{
    if n == s.len() {
        assert(s.take(n) =~= s);
    } else {
        let t = s.drop_last();
        assert forall|k: int| n <= k < t.len() implies (#[trigger] t[k]).0 != p by {
            assert(t[k] == s[k]);
        }
        lemma_exponent_tail_absent(t, n, p);
        assert(t.take(n) =~= s.take(n));
        assert(s[s.len() - 1].0 != p);
    }
}

/// The value of a list is that of a prefix times that of the rest.
pub proof fn lemma_value_split(s: Seq<(u64, u64)>, n: int)
    requires
        0 <= n <= s.len(),
    ensures
        seq_value(s) == seq_value(s.take(n)) * seq_value(s.skip(n)),
    decreases s.len(),
{
    if n == s.len() {
        assert(s.take(n) =~= s);
        assert(s.skip(n) =~= Seq::<(u64, u64)>::empty());
    } else {
        let t = s.drop_last();
        lemma_value_split(t, n);
        assert(t.take(n) =~= s.take(n));
        assert(s.skip(n).drop_last() =~= t.skip(n));
        assert(s.skip(n).last() == s.last());
        let a = seq_value(s.take(n));
        let b = seq_value(t.skip(n));
        let c = power(s.last().0 as int, s.last().1 as nat);
        assert((a * b) * c == a * (b * c)) by (nonlinear_arith);
    }
}

/// A list of proper entries has a positive value.
pub proof fn lemma_magnitude_positive(s: Seq<(u64, u64)>)
    requires
        proper_entries(s),
    ensures
        seq_value(s) >= 1,
    decreases s.len(),
{
    if s.len() > 0 {
        let t = s.drop_last();
        assert forall|i: int| 0 <= i < t.len() implies (#[trigger] t[i]).0 >= 2 && t[i].1 > 0 by {
            assert(t[i] == s[i]);
        }
        lemma_magnitude_positive(t);
        assert(s[s.len() - 1].0 >= 2);
        lemma_power_positive(s.last().0 as int, s.last().1 as nat);
        let x = seq_value(t);
        let y = power(s.last().0 as int, s.last().1 as nat);
        assert(x * y >= 1) by (nonlinear_arith)
            requires
                x >= 1,
                y >= 1,
        ;
    }
}

/// Bounding every entry bounds the exponent of every base of an ascending list.
pub proof fn lemma_exponent_bound(s: Seq<(u64, u64)>, m: int, p: int)
    requires
        strictly_ascending(s),
        exponents_at_most(s, m),
        m >= 0,
    ensures
        seq_exponent(s, p) <= m,
{
    lemma_exponent_of_ascending(s, p);
    if exists|i: int| 0 <= i < s.len() && s[i].0 == p {
        let i = choose|i: int| 0 <= i < s.len() && s[i].0 == p;
        assert(s[i].1 <= m);
    }
}

/// Divisibility survives negation of either side.
pub proof fn lemma_divides_negate(d: int, n: int)
    requires
        int_divides(d, n),
    ensures
        int_divides(d, -n),
        int_divides(-d, n),
        int_divides(-d, -n),
{
    let c = choose|c: int| #[trigger] (d * c) == n;
    assert(d * (-c) == -n) by (nonlinear_arith)
        requires
            d * c == n,
    ;
    assert((-d) * (-c) == n) by (nonlinear_arith)
        requires
            d * c == n,
    ;
    assert((-d) * c == -n) by (nonlinear_arith)
        requires
            d * c == n,
    ;
}

/// Divisibility is transitive.
pub proof fn lemma_divides_trans(a: int, b: int, c: int)
    requires
        int_divides(a, b),
        int_divides(b, c),
    ensures
        int_divides(a, c),
{
    let x = choose|x: int| #[trigger] (a * x) == b;
    let y = choose|y: int| #[trigger] (b * y) == c;
    assert(a * (x * y) == c) by (nonlinear_arith)
        requires
            a * x == b,
            b * y == c,
    ;
}

/// The largest exponent of a list, zero when it is empty.
pub open spec fn seq_max_exponent(s: Seq<(u64, u64)>) -> int
    decreases s.len(),
{
    if s.len() == 0 {
        0
    } else {
        let m = seq_max_exponent(s.drop_last());
        if s.last().1 > m {
            s.last().1 as int
        } else {
            m
        }
    }
}

/// An attained upper bound of the exponents is the largest exponent.
pub proof fn lemma_seq_max_exponent(s: Seq<(u64, u64)>, m: int)
    requires
        exponents_at_most(s, m),
        s.len() == 0 ==> m == 0,
        s.len() > 0 ==> exists|i: int| 0 <= i < s.len() && #[trigger] s[i].1 == m,
    ensures
        seq_max_exponent(s) == m,
    decreases s.len(),
{
    if s.len() > 0 {
        let t = s.drop_last();
        lemma_seq_max_upper(t);
        let i = choose|i: int| 0 <= i < s.len() && #[trigger] s[i].1 == m;
        if i == s.len() - 1 {
            lemma_seq_max_attained(t);
            if t.len() > 0 {
                let k = choose|k: int| 0 <= k < t.len() && #[trigger] t[k].1 == seq_max_exponent(t);
                assert(s[k] == t[k]);
            }
        } else {
            assert(t[i] == s[i]);
            assert forall|k: int| 0 <= k < t.len() implies (#[trigger] t[k]).1 <= m by {
                assert(t[k] == s[k]);
            }
            lemma_seq_max_exponent(t, m);
            assert(s[s.len() - 1].1 <= m);
        }
    }
}

proof fn lemma_seq_max_upper(s: Seq<(u64, u64)>)
    ensures
        exponents_at_most(s, seq_max_exponent(s)),
        seq_max_exponent(s) >= 0,
    decreases s.len(),
{
    if s.len() > 0 {
        let t = s.drop_last();
        lemma_seq_max_upper(t);
        assert forall|k: int| 0 <= k < s.len() implies (#[trigger] s[k]).1 <= seq_max_exponent(s) by {
            if k < t.len() {
                assert(t[k] == s[k]);
            }
        }
    }
}

proof fn lemma_seq_max_attained(s: Seq<(u64, u64)>)
    ensures
        s.len() > 0 ==> exists|k: int| 0 <= k < s.len() && #[trigger] s[k].1 == seq_max_exponent(s),
        s.len() == 0 ==> seq_max_exponent(s) == 0,
    decreases s.len(),
{
    if s.len() > 0 {
        let t = s.drop_last();
        lemma_seq_max_attained(t);
        if s.last().1 > seq_max_exponent(t) {
            assert(s[s.len() - 1].1 == seq_max_exponent(s));
        } else if t.len() > 0 {
            let k = choose|k: int| 0 <= k < t.len() && #[trigger] t[k].1 == seq_max_exponent(t);
            assert(s[k] == t[k]);
        } else {
            assert(s[0].1 == 0);
        }
    }
}

/// An integer as a sign and its prime factorisation.
#[derive(Debug, Clone)]
pub struct PrimeFactors {
    pub neg: bool,
    pub factors: Vec<(u64, u64)>,
}

impl PrimeFactors {
    /// Strictly ascending bases, each at least two, with positive exponents.
    pub open spec fn wf(&self) -> bool {
        strictly_ascending(self.factors@) && proper_entries(self.factors@)
    }

    /// The magnitude: the product over the factor list.
    pub open spec fn magnitude(&self) -> int {
        seq_value(self.factors@)
    }

    /// The integer represented.
    pub open spec fn value(&self) -> int {
        if self.neg {
            -seq_value(self.factors@)
        } else {
            seq_value(self.factors@)
        }
    }

    /// The exponent of the base `p`.
    pub open spec fn exponent(&self, p: int) -> int {
        seq_exponent(self.factors@, p)
    }

    /// Every base carries at most the exponent it has in `other`.
    pub open spec fn divides(&self, other: &PrimeFactors) -> bool {
        forall|p: int| #[trigger] self.exponent(p) <= other.exponent(p)
    }

    /// The value one, with an empty factor list.
    pub fn empty() -> (r: PrimeFactors)
        ensures
            r.wf(),
            !r.neg,
            r.factors@.len() == 0,
            r.value() == 1,
    {
        PrimeFactors { neg: false, factors: Vec::new() }
    }

    /// Writes the product of the magnitudes of `lhs` and `rhs` into `out`,
    /// merging the two ascending lists; the sign of `out` is left as it is.
    pub fn mul_into(out: &mut PrimeFactors, lhs: &PrimeFactors, rhs: &PrimeFactors)
        requires
            forall|p: int| #[trigger] lhs.exponent(p) + rhs.exponent(p) <= u64::MAX,
        ensures
            final(out).neg == old(out).neg,
            final(out).magnitude() == lhs.magnitude() * rhs.magnitude(),
            forall|p: int| #[trigger] final(out).exponent(p) == lhs.exponent(p) + rhs.exponent(p),
            lhs.wf() && rhs.wf() ==> final(out).wf(),
    {
        let ghost l = lhs.factors@;
        let ghost r = rhs.factors@;
        let ghost sorted = lhs.wf() && rhs.wf();
        out.factors.clear();
        let mut i: usize = 0;
        let mut j: usize = 0;
        proof {
            assert(l.take(0) =~= Seq::<(u64, u64)>::empty());
            assert(r.take(0) =~= Seq::<(u64, u64)>::empty());
        }
        while i < lhs.factors.len() && j < rhs.factors.len()
            invariant
                l == lhs.factors@,
                r == rhs.factors@,
                sorted == (lhs.wf() && rhs.wf()),
                forall|p: int| #[trigger] lhs.exponent(p) + rhs.exponent(p) <= u64::MAX,
                0 <= i <= l.len(),
                0 <= j <= r.len(),
                out.neg == old(out).neg,
                seq_value(out.factors@) == seq_value(l.take(i as int)) * seq_value(
                    r.take(j as int),
                ),
                forall|p: int| #[trigger]
                    seq_exponent(out.factors@, p) == seq_exponent(l.take(i as int), p)
                        + seq_exponent(r.take(j as int), p),
                sorted ==> strictly_ascending(out.factors@) && proper_entries(out.factors@),
                sorted && out.factors@.len() > 0 ==> (i < l.len() ==> out.factors@.last().0
                    < l[i as int].0) && (j < r.len() ==> out.factors@.last().0 < r[j as int].0),
            decreases l.len() - i + r.len() - j,
        {
            let ghost o = out.factors@;
            let a = lhs.factors[i];
            let b = rhs.factors[j];
            proof {
                lemma_take_next(l, i as int);
                lemma_take_next(r, j as int);
                lemma_push(l.take(i as int), a);
                lemma_push(r.take(j as int), b);
            }
            if a.0 == b.0 {
                proof {
                    lemma_entry_within_exponent(l, i as int);
                    lemma_entry_within_exponent(r, j as int);
                    assert(lhs.exponent(a.0 as int) + rhs.exponent(a.0 as int) <= u64::MAX);
                }
                let e = a.1 + b.1;
                out.factors.push((a.0, e));
                proof {
                    lemma_push(o, (a.0, e));
                    lemma_power_adds(a.0 as int, a.1 as nat, b.1 as nat);
                    let vo = seq_value(o);
                    let vl = seq_value(l.take(i as int));
                    let vr = seq_value(r.take(j as int));
                    let pa = power(a.0 as int, a.1 as nat);
                    let pb = power(a.0 as int, b.1 as nat);
                    assert(vo * (pa * pb) == (vl * pa) * (vr * pb)) by (nonlinear_arith)
                        requires
                            vo == vl * vr,
                    ;
                }
                i = i + 1;
                j = j + 1;
            } else if a.0 < b.0 {
                out.factors.push(a);
                proof {
                    lemma_push(o, a);
                    let vo = seq_value(o);
                    let vl = seq_value(l.take(i as int));
                    let vr = seq_value(r.take(j as int));
                    let pa = power(a.0 as int, a.1 as nat);
                    assert(vo * pa == (vl * pa) * vr) by (nonlinear_arith)
                        requires
                            vo == vl * vr,
                    ;
                }
                i = i + 1;
            } else {
                out.factors.push(b);
                proof {
                    lemma_push(o, b);
                    let vo = seq_value(o);
                    let vl = seq_value(l.take(i as int));
                    let vr = seq_value(r.take(j as int));
                    let pb = power(b.0 as int, b.1 as nat);
                    assert(vo * pb == vl * (vr * pb)) by (nonlinear_arith)
                        requires
                            vo == vl * vr,
                    ;
                }
                j = j + 1;
            }
        }
        while i < lhs.factors.len()
            invariant
                l == lhs.factors@,
                r == rhs.factors@,
                sorted == (lhs.wf() && rhs.wf()),
                0 <= i <= l.len(),
                0 <= j <= r.len(),
                i < l.len() ==> j == r.len(),
                out.neg == old(out).neg,
                seq_value(out.factors@) == seq_value(l.take(i as int)) * seq_value(
                    r.take(j as int),
                ),
                forall|p: int| #[trigger]
                    seq_exponent(out.factors@, p) == seq_exponent(l.take(i as int), p)
                        + seq_exponent(r.take(j as int), p),
                sorted ==> strictly_ascending(out.factors@) && proper_entries(out.factors@),
                sorted && out.factors@.len() > 0 && i < l.len() ==> out.factors@.last().0
                    < l[i as int].0,
                sorted && out.factors@.len() > 0 && j < r.len() ==> out.factors@.last().0
                    < r[j as int].0,
            decreases l.len() - i,
        {
            let ghost o = out.factors@;
            let a = lhs.factors[i];
            proof {
                lemma_take_next(l, i as int);
                lemma_push(l.take(i as int), a);
            }
            out.factors.push(a);
            proof {
                lemma_push(o, a);
                let vo = seq_value(o);
                let vl = seq_value(l.take(i as int));
                let vr = seq_value(r.take(j as int));
                let pa = power(a.0 as int, a.1 as nat);
                assert(vo * pa == (vl * pa) * vr) by (nonlinear_arith)
                    requires
                        vo == vl * vr,
                ;
            }
            i = i + 1;
        }
        proof {
            assert(l.take(i as int) =~= l);
        }
        while j < rhs.factors.len()
            invariant
                l == lhs.factors@,
                r == rhs.factors@,
                sorted == (lhs.wf() && rhs.wf()),
                i == l.len(),
                0 <= j <= r.len(),
                out.neg == old(out).neg,
                seq_value(out.factors@) == seq_value(l) * seq_value(r.take(j as int)),
                forall|p: int| #[trigger]
                    seq_exponent(out.factors@, p) == seq_exponent(l, p) + seq_exponent(
                        r.take(j as int),
                        p,
                    ),
                sorted ==> strictly_ascending(out.factors@) && proper_entries(out.factors@),
                sorted && out.factors@.len() > 0 && j < r.len() ==> out.factors@.last().0
                    < r[j as int].0,
            decreases r.len() - j,
        {
            let ghost o = out.factors@;
            let b = rhs.factors[j];
            proof {
                lemma_take_next(r, j as int);
                lemma_push(r.take(j as int), b);
            }
            out.factors.push(b);
            proof {
                lemma_push(o, b);
                let vo = seq_value(o);
                let vl = seq_value(l);
                let vr = seq_value(r.take(j as int));
                let pb = power(b.0 as int, b.1 as nat);
                assert(vo * pb == vl * (vr * pb)) by (nonlinear_arith)
                    requires
                        vo == vl * vr,
                ;
            }
            j = j + 1;
        }
        proof {
            assert(r.take(j as int) =~= r);
        }
    }

    /// The product of `self` and `rhs`.
    pub fn mul(&self, rhs: &PrimeFactors) -> (r: PrimeFactors)
        requires
            forall|p: int| #[trigger] self.exponent(p) + rhs.exponent(p) <= u64::MAX,
        ensures
            r.value() == self.value() * rhs.value(),
            r.neg == (self.neg != rhs.neg),
            forall|p: int| #[trigger] r.exponent(p) == self.exponent(p) + rhs.exponent(p),
            self.divides(&r),
            rhs.divides(&r),
            self.wf() && rhs.wf() ==> r.wf(),
    {
        let mut r = PrimeFactors { neg: self.neg != rhs.neg, factors: Vec::new() };
        PrimeFactors::mul_into(&mut r, self, rhs);
        proof {
            let x = self.magnitude();
            let y = rhs.magnitude();
            assert((-x) * (-y) == x * y && (-x) * y == -(x * y) && x * (-y) == -(x * y))
                by (nonlinear_arith);
            assert forall|p: int| #[trigger] self.exponent(p) <= r.exponent(p) by {
                lemma_exponent_nonneg(rhs.factors@, p);
            }
            assert forall|p: int| #[trigger] rhs.exponent(p) <= r.exponent(p) by {
                lemma_exponent_nonneg(self.factors@, p);
            }
        }
        r
    }

    /// The greatest common divisor: for each base present in both lists,
    /// the smaller of its two exponents. The result is never negative.
    pub fn gcd(&self, rhs: &Self) -> (g: PrimeFactors)
        ensures
            !g.neg,
            g.divides(self),
            g.divides(rhs),
            int_divides(g.magnitude(), self.magnitude()),
            int_divides(g.magnitude(), rhs.magnitude()),
            self.wf() && rhs.wf() ==> g.wf(),
            self.wf() && rhs.wf() ==> forall|p: int| #[trigger]
                g.exponent(p) == if self.exponent(p) <= rhs.exponent(p) {
                    self.exponent(p)
                } else {
                    rhs.exponent(p)
                },
    {
        let ghost l = self.factors@;
        let ghost r = rhs.factors@;
        let ghost sorted = self.wf() && rhs.wf();
        let mut result: Vec<(u64, u64)> = Vec::new();
        let mut i: usize = 0;
        let mut j: usize = 0;
        let ghost mut ca: int = 1;
        let ghost mut cb: int = 1;
        proof {
            assert(l.take(0) =~= Seq::<(u64, u64)>::empty());
            assert(r.take(0) =~= Seq::<(u64, u64)>::empty());
        }
        while i < self.factors.len() && j < rhs.factors.len()
            invariant
                l == self.factors@,
                r == rhs.factors@,
                sorted == (self.wf() && rhs.wf()),
                0 <= i <= l.len(),
                0 <= j <= r.len(),
                seq_value(l.take(i as int)) == seq_value(result@) * ca,
                seq_value(r.take(j as int)) == seq_value(result@) * cb,
                forall|p: int| #[trigger]
                    seq_exponent(result@, p) <= seq_exponent(l.take(i as int), p),
                forall|p: int| #[trigger]
                    seq_exponent(result@, p) <= seq_exponent(r.take(j as int), p),
                sorted ==> forall|p: int| #[trigger]
                    seq_exponent(result@, p) == if seq_exponent(l.take(i as int), p)
                        <= seq_exponent(r.take(j as int), p) {
                        seq_exponent(l.take(i as int), p)
                    } else {
                        seq_exponent(r.take(j as int), p)
                    },
                sorted ==> strictly_ascending(result@) && proper_entries(result@),
                sorted && result@.len() > 0 ==> (i < l.len() ==> result@.last().0 < l[i as int].0)
                    && (j < r.len() ==> result@.last().0 < r[j as int].0),
                sorted && j < r.len() ==> forall|k: int| 0 <= k < i ==> (#[trigger] l[k]).0
                    < r[j as int].0,
                sorted && i < l.len() ==> forall|k: int| 0 <= k < j ==> (#[trigger] r[k]).0
                    < l[i as int].0,
            decreases l.len() - i + r.len() - j,
        {
            let ghost o = result@;
            let a = self.factors[i];
            let b = rhs.factors[j];
            proof {
                lemma_take_next(l, i as int);
                lemma_take_next(r, j as int);
                lemma_push(l.take(i as int), a);
                lemma_push(r.take(j as int), b);
                lemma_exponent_nonneg(l.take(i as int), a.0 as int);
                lemma_exponent_nonneg(r.take(j as int), b.0 as int);
                if sorted {
                    assert forall|k: int| 0 <= k < i implies (#[trigger] l.take(i as int)[k]).0
                        != a.0 by {
                        assert(l[k].0 < l[i as int].0);
                    }
                    assert forall|k: int| 0 <= k < j implies (#[trigger] r.take(j as int)[k]).0
                        != b.0 by {
                        assert(r[k].0 < r[j as int].0);
                    }
                    lemma_absent_exponent(l.take(i as int), a.0 as int);
                    lemma_absent_exponent(r.take(j as int), b.0 as int);
                    assert forall|k: int| 0 <= k < j implies (#[trigger] r.take(j as int)[k]).0
                        != a.0 by {}
                    assert forall|k: int| 0 <= k < i implies (#[trigger] l.take(i as int)[k]).0
                        != b.0 by {}
                    lemma_absent_exponent(r.take(j as int), a.0 as int);
                    lemma_absent_exponent(l.take(i as int), b.0 as int);
                }
            }
            if a.0 == b.0 {
                let m = if a.1 <= b.1 {
                    a.1
                } else {
                    b.1
                };
                result.push((a.0, m));
                proof {
                    lemma_push(o, (a.0, m));
                    lemma_power_adds(a.0 as int, m as nat, (a.1 - m) as nat);
                    lemma_power_adds(a.0 as int, m as nat, (b.1 - m) as nat);
                    let vo = seq_value(o);
                    let pm = power(a.0 as int, m as nat);
                    let qa = power(a.0 as int, (a.1 - m) as nat);
                    let qb = power(a.0 as int, (b.1 - m) as nat);
                    assert((vo * ca) * (pm * qa) == (vo * pm) * (ca * qa)) by (nonlinear_arith);
                    assert((vo * cb) * (pm * qb) == (vo * pm) * (cb * qb)) by (nonlinear_arith);
                    ca = ca * qa;
                    cb = cb * qb;
                    if sorted {
                        if i + 1 < l.len() {
                            assert(l[i as int].0 < l[i + 1].0);
                        }
                        if j + 1 < r.len() {
                            assert(r[j as int].0 < r[j + 1].0);
                        }
                    }
                }
                i = i + 1;
                j = j + 1;
            } else if a.0 < b.0 {
                proof {
                    let vo = seq_value(o);
                    let pa = power(a.0 as int, a.1 as nat);
                    assert((vo * ca) * pa == vo * (ca * pa)) by (nonlinear_arith);
                    ca = ca * pa;
                    if sorted && i + 1 < l.len() {
                        assert(l[i as int].0 < l[i + 1].0);
                    }
                }
                i = i + 1;
            } else {
                proof {
                    let vo = seq_value(o);
                    let pb = power(b.0 as int, b.1 as nat);
                    assert((vo * cb) * pb == vo * (cb * pb)) by (nonlinear_arith);
                    cb = cb * pb;
                    if sorted && j + 1 < r.len() {
                        assert(r[j as int].0 < r[j + 1].0);
                    }
                }
                j = j + 1;
            }
        }
        let g = PrimeFactors { neg: false, factors: result };
        proof {
            lemma_value_split(l, i as int);
            lemma_value_split(r, j as int);
            let vg = seq_value(result@);
            let sl = seq_value(l.skip(i as int));
            let sr = seq_value(r.skip(j as int));
            assert((vg * ca) * sl == vg * (ca * sl)) by (nonlinear_arith);
            assert((vg * cb) * sr == vg * (cb * sr)) by (nonlinear_arith);
            assert(int_divides(vg, seq_value(l)));
            assert(int_divides(vg, seq_value(r)));
            assert forall|p: int| #[trigger] g.exponent(p) <= self.exponent(p) by {
                lemma_prefix_exponent(l, i as int, p);
            }
            assert forall|p: int| #[trigger] g.exponent(p) <= rhs.exponent(p) by {
                lemma_prefix_exponent(r, j as int, p);
            }
            if sorted {
                assert forall|p: int| #[trigger]
                    g.exponent(p) == if self.exponent(p) <= rhs.exponent(p) {
                        self.exponent(p)
                    } else {
                        rhs.exponent(p)
                    } by {
                    lemma_exponent_nonneg(l, p);
                    lemma_exponent_nonneg(r, p);
                    lemma_exponent_nonneg(l.take(i as int), p);
                    lemma_exponent_nonneg(r.take(j as int), p);
                    lemma_prefix_exponent(l, i as int, p);
                    lemma_prefix_exponent(r, j as int, p);
                    if i == l.len() {
                        assert(l.take(i as int) =~= l);
                        if seq_exponent(l, p) > 0 {
                            lemma_positive_exponent_has_entry(l, p);
                            let k0 = choose|k: int| 0 <= k < l.len() && l[k].0 == p;
                            assert forall|k: int| j <= k < r.len() implies (#[trigger] r[k]).0
                                != p by {
                                assert(l[k0].0 < r[j as int].0);
                                if k > j {
                                    assert(r[j as int].0 < r[k].0);
                                }
                            }
                            lemma_exponent_tail_absent(r, j as int, p);
                        }
                    } else {
                        assert(r.take(j as int) =~= r);
                        if seq_exponent(r, p) > 0 {
                            lemma_positive_exponent_has_entry(r, p);
                            let k0 = choose|k: int| 0 <= k < r.len() && r[k].0 == p;
                            assert forall|k: int| i <= k < l.len() implies (#[trigger] l[k]).0
                                != p by {
                                assert(r[k0].0 < l[i as int].0);
                                if k > i {
                                    assert(l[i as int].0 < l[k].0);
                                }
                            }
                            lemma_exponent_tail_absent(l, i as int, p);
                        }
                    }
                }
            }
        }
        g
    }

    /// A copy with the same sign and factor list.
    pub fn duplicate(&self) -> (r: PrimeFactors)
        ensures
            r.neg == self.neg,
            r.factors@ == self.factors@,
    {
        let mut factors: Vec<(u64, u64)> = Vec::new();
        let mut i: usize = 0;
        while i < self.factors.len()
            invariant
                0 <= i <= self.factors@.len(),
                factors@ == self.factors@.take(i as int),
            decreases self.factors@.len() - i,
        {
            factors.push(self.factors[i]);
            i = i + 1;
            proof {
                assert(factors@ =~= self.factors@.take(i as int));
            }
        }
        proof {
            assert(self.factors@.take(i as int) =~= self.factors@);
        }
        PrimeFactors { neg: self.neg, factors }
    }

    /// The largest exponent in the list, zero when it is empty.
    pub fn max_exponent(&self) -> (m: u64)
        ensures
            exponents_at_most(self.factors@, m as int),
            self.factors@.len() == 0 ==> m == 0,
            self.factors@.len() > 0 ==> exists|i: int|
                0 <= i < self.factors@.len() && #[trigger] self.factors@[i].1 == m,
    {
        let mut m: u64 = 0;
        let mut i: usize = 0;
        while i < self.factors.len()
            invariant
                0 <= i <= self.factors@.len(),
                forall|k: int| 0 <= k < i ==> (#[trigger] self.factors@[k]).1 <= m,
                i == 0 ==> m == 0,
                i > 0 ==> exists|k: int| 0 <= k < i && #[trigger] self.factors@[k].1 == m,
            decreases self.factors@.len() - i,
        {
            if self.factors[i].1 > m {
                m = self.factors[i].1;
            }
            i = i + 1;
        }
        m
    }

    /// Whether the exponents of `self` and `rhs` can be added without
    /// overflow: the two largest exponents fit together in 64 bits.
    pub fn product_fits(&self, rhs: &PrimeFactors) -> (ok: bool)
        ensures
            ok == (self.spec_max_exponent() + rhs.spec_max_exponent() <= u64::MAX),
            ok && self.wf() && rhs.wf() ==> forall|p: int| #[trigger] self.exponent(p)
                + rhs.exponent(p) <= u64::MAX,
    {
        let a = self.max_exponent();
        let b = rhs.max_exponent();
        proof {
            self.lemma_max_exponent(a);
            rhs.lemma_max_exponent(b);
        }
        let ok = a <= u64::MAX - b;
        proof {
            if ok && self.wf() && rhs.wf() {
                assert forall|p: int| #[trigger] self.exponent(p) + rhs.exponent(p)
                    <= u64::MAX by {
                    lemma_exponent_bound(self.factors@, a as int, p);
                    lemma_exponent_bound(rhs.factors@, b as int, p);
                }
            }
        }
        ok
    }

    /// The largest exponent in the list, zero when it is empty.
    pub open spec fn spec_max_exponent(&self) -> int {
        seq_max_exponent(self.factors@)
    }

    proof fn lemma_max_exponent(&self, m: u64)
        requires
            exponents_at_most(self.factors@, m as int),
            self.factors@.len() == 0 ==> m == 0,
            self.factors@.len() > 0 ==> exists|i: int|
                0 <= i < self.factors@.len() && #[trigger] self.factors@[i].1 == m,
        ensures
            self.spec_max_exponent() == m,
    {
        lemma_seq_max_exponent(self.factors@, m as int);
    }

    /// Divides `self` by `rhs`, which must divide it: subtracts the exponents
    /// of `rhs` from those of `self` and drops the bases that reach zero.
    pub fn div_exact_mut(&mut self, rhs: &Self)
        requires
            old(self).wf(),
            rhs.wf(),
            rhs.divides(old(self)),
        ensures
            final(self).wf(),
            final(self).neg == (old(self).neg != rhs.neg),
            final(self).magnitude() * rhs.magnitude() == old(self).magnitude(),
            final(self).value() * rhs.value() == old(self).value(),
            forall|p: int| #[trigger]
                final(self).exponent(p) == old(self).exponent(p) - rhs.exponent(p),
    {
        let ghost l = self.factors@;
        let ghost r = rhs.factors@;
        let mut out: Vec<(u64, u64)> = Vec::new();
        let mut i: usize = 0;
        let mut j: usize = 0;
        proof {
            assert(l.take(0) =~= Seq::<(u64, u64)>::empty());
            assert(r.take(0) =~= Seq::<(u64, u64)>::empty());
            assert forall|p: int| #[trigger] seq_exponent(r, p) <= seq_exponent(l, p) by {
                assert(rhs.exponent(p) <= self.exponent(p));
            }
        }
        while i < self.factors.len() && j < rhs.factors.len()
            invariant
                l == self.factors@,
                r == rhs.factors@,
                strictly_ascending(l) && proper_entries(l),
                strictly_ascending(r) && proper_entries(r),
                forall|p: int| #[trigger] seq_exponent(r, p) <= seq_exponent(l, p),
                0 <= i <= l.len(),
                0 <= j <= r.len(),
                seq_value(out@) * seq_value(r.take(j as int)) == seq_value(l.take(i as int)),
                forall|p: int| #[trigger]
                    seq_exponent(out@, p) + seq_exponent(r.take(j as int), p) == seq_exponent(
                        l.take(i as int),
                        p,
                    ),
                strictly_ascending(out@) && proper_entries(out@),
                out@.len() > 0 && i < l.len() ==> out@.last().0 < l[i as int].0,
                j < r.len() ==> forall|k: int| 0 <= k < i ==> (#[trigger] l[k]).0 < r[j as int].0,
            decreases l.len() - i + r.len() - j,
        {
            let ghost o = out@;
            let a = self.factors[i];
            let b = rhs.factors[j];
            proof {
                lemma_take_next(l, i as int);
                lemma_take_next(r, j as int);
                lemma_push(l.take(i as int), a);
                lemma_push(r.take(j as int), b);
                if i + 1 < l.len() {
                    assert(l[i as int].0 < l[i + 1].0);
                }
            }
            if a.0 == b.0 {
                proof {
                    lemma_exponent_of_ascending(l, a.0 as int);
                    lemma_exponent_of_ascending(r, a.0 as int);
                    assert(seq_exponent(r, b.0 as int) <= seq_exponent(l, a.0 as int));
                    lemma_power_adds(a.0 as int, (a.1 - b.1) as nat, b.1 as nat);
                    if j + 1 < r.len() {
                        assert(r[j as int].0 < r[j + 1].0);
                    }
                }
                let e = a.1 - b.1;
                if e > 0 {
                    out.push((a.0, e));
                    proof {
                        lemma_push(o, (a.0, e));
                        let vo = seq_value(o);
                        let vr = seq_value(r.take(j as int));
                        let pe = power(a.0 as int, e as nat);
                        let pb = power(a.0 as int, b.1 as nat);
                        assert((vo * pe) * (vr * pb) == (vo * vr) * (pe * pb)) by (nonlinear_arith);
                    }
                } else {
                    proof {
                        let vo = seq_value(o);
                        let vr = seq_value(r.take(j as int));
                        let pb = power(a.0 as int, b.1 as nat);
                        assert(power(a.0 as int, 0) == 1);
                        assert(vo * (vr * pb) == (vo * vr) * (1 * pb)) by (nonlinear_arith);
                    }
                }
                i = i + 1;
                j = j + 1;
            } else if a.0 < b.0 {
                out.push(a);
                proof {
                    lemma_push(o, a);
                    let vo = seq_value(o);
                    let vr = seq_value(r.take(j as int));
                    let pa = power(a.0 as int, a.1 as nat);
                    assert((vo * pa) * vr == (vo * vr) * pa) by (nonlinear_arith);
                }
                i = i + 1;
            } else {
                proof {
                    lemma_entry_within_exponent(r, j as int);
                    lemma_positive_exponent_has_entry(l, b.0 as int);
                    let k0 = choose|k: int| 0 <= k < l.len() && l[k].0 == b.0;
                    if k0 > i {
                        assert(l[i as int].0 < l[k0].0);
                    }
                    assert(false);
                }
                j = j + 1;
            }
        }
        proof {
            if j < r.len() {
                lemma_entry_within_exponent(r, j as int);
                lemma_positive_exponent_has_entry(l, r[j as int].0 as int);
                let k0 = choose|k: int| 0 <= k < l.len() && l[k].0 == r[j as int].0;
                assert(false);
            }
            assert(r.take(j as int) =~= r);
        }
        while i < self.factors.len()
            invariant
                l == self.factors@,
                r == rhs.factors@,
                strictly_ascending(l) && proper_entries(l),
                0 <= i <= l.len(),
                seq_value(out@) * seq_value(r) == seq_value(l.take(i as int)),
                forall|p: int| #[trigger]
                    seq_exponent(out@, p) + seq_exponent(r, p) == seq_exponent(l.take(i as int), p),
                strictly_ascending(out@) && proper_entries(out@),
                out@.len() > 0 && i < l.len() ==> out@.last().0 < l[i as int].0,
            decreases l.len() - i,
        {
            let ghost o = out@;
            let a = self.factors[i];
            proof {
                lemma_take_next(l, i as int);
                lemma_push(l.take(i as int), a);
                if i + 1 < l.len() {
                    assert(l[i as int].0 < l[i + 1].0);
                }
            }
            out.push(a);
            proof {
                lemma_push(o, a);
                let vo = seq_value(o);
                let vr = seq_value(r);
                let pa = power(a.0 as int, a.1 as nat);
                assert((vo * pa) * vr == (vo * vr) * pa) by (nonlinear_arith);
            }
            i = i + 1;
        }
        proof {
            assert(l.take(i as int) =~= l);
        }
        let ghost old_neg = self.neg;
        self.factors = out;
        self.neg = self.neg != rhs.neg;
        proof {
            let x = seq_value(out@);
            let y = seq_value(r);
            assert((-x) * (-y) == x * y && (-x) * y == -(x * y) && x * (-y) == -(x * y))
                by (nonlinear_arith);
        }
    }

    /// Removes the common part of two factorisations: both are divided by
    /// their greatest common divisor, which is returned. Where both were
    /// negative, the returned divisor carries the sign and both become
    /// positive.
    pub fn remove_gcd(lhs: &mut PrimeFactors, rhs: &mut PrimeFactors) -> (g: PrimeFactors)
        requires
            old(lhs).wf(),
            old(rhs).wf(),
        ensures
            g.wf(),
            g.neg == (old(lhs).neg && old(rhs).neg),
            final(lhs).wf(),
            final(rhs).wf(),
            final(lhs).value() * g.value() == old(lhs).value(),
            final(rhs).value() * g.value() == old(rhs).value(),
            forall|p: int| #[trigger]
                g.exponent(p) == if old(lhs).exponent(p) <= old(rhs).exponent(p) {
                    old(lhs).exponent(p)
                } else {
                    old(rhs).exponent(p)
                },
            forall|p: int|
                #![trigger final(lhs).exponent(p)]
                #![trigger final(rhs).exponent(p)]
                final(lhs).exponent(p) == 0 || final(rhs).exponent(p) == 0,
    {
        let ghost l0 = *lhs;
        let ghost r0 = *rhs;
        let common = lhs.gcd(rhs);
        let g = PrimeFactors { neg: lhs.neg && rhs.neg, factors: common.factors };
        proof {
            assert forall|p: int| #[trigger] g.exponent(p) <= lhs.exponent(p) by {
                assert(common.exponent(p) <= lhs.exponent(p));
            }
            assert forall|p: int| #[trigger] g.exponent(p) <= rhs.exponent(p) by {
                assert(common.exponent(p) <= rhs.exponent(p));
            }
        }
        lhs.div_exact_mut(&g);
        rhs.div_exact_mut(&g);
        proof {
            assert forall|p: int| #[trigger]
                g.exponent(p) == if l0.exponent(p) <= r0.exponent(p) {
                    l0.exponent(p)
                } else {
                    r0.exponent(p)
                } by {
                assert(common.exponent(p) == g.exponent(p));
            }
            assert forall|p: int| lhs.exponent(p) == 0 || rhs.exponent(p) == 0 by {
                assert(common.exponent(p) == g.exponent(p));
                assert(lhs.exponent(p) == l0.exponent(p) - g.exponent(p));
                assert(rhs.exponent(p) == r0.exponent(p) - g.exponent(p));
            }
            let a = lhs.value();
            let b = rhs.value();
            let c = g.value();
            assert(a * c == c * a && b * c == c * b) by (nonlinear_arith);
        }
        g
    }
}

} // verus!
