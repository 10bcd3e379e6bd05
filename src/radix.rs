//! Numbers written as fixed-width strings of digits, most significant first.
use vstd::arithmetic::div_mod::{
    lemma_div_is_ordered, lemma_fundamental_div_mod, lemma_fundamental_div_mod_converse,
    lemma_mod_breakdown, lemma_mod_mod,
};
use vstd::prelude::*;

verus! {

/// `base` to the power `n`.
pub open spec fn power(base: nat, n: nat) -> nat
    decreases n,
{
    if n == 0 {
        1
    } else {
        base * power(base, (n - 1) as nat)
    }
}

/// The `n` lowest digits of `v` in base `base`, most significant first.
pub open spec fn digits(v: nat, base: nat, n: nat) -> Seq<nat>
    decreases n,
{
    if n == 0 {
        Seq::empty()
    } else {
        seq![(v / power(base, (n - 1) as nat)) % base] + digits(v, base, (n - 1) as nat)
    }
}

/// The number that the digits `ds` write in base `base`, most significant first.
pub open spec fn value_of(ds: Seq<nat>, base: nat) -> nat
    decreases ds.len(),
{
    if ds.len() == 0 {
        0
    } else {
        value_of(ds.drop_last(), base) * base + ds.last()
    }
}

/// Every digit of `ds` is below `base`.
pub open spec fn all_below(ds: Seq<nat>, base: nat) -> bool {
    forall|i: int| 0 <= i < ds.len() ==> #[trigger] ds[i] < base
}

/// A power of a positive base is positive.
pub proof fn lemma_power_positive(base: nat, n: nat)
    requires
        base > 0,
    ensures
        power(base, n) > 0,
    decreases n,
{
    if n > 0 {
        lemma_power_positive(base, (n - 1) as nat);
        assert(base * power(base, (n - 1) as nat) > 0) by (nonlinear_arith)
            requires
                base > 0,
                power(base, (n - 1) as nat) > 0,
        ;
    }
}

/// Digit `k` of `v`, counted from the most significant.
pub proof fn lemma_digits_index(v: nat, base: nat, n: nat, k: int)
    requires
        base > 0,
        0 <= k < n,
    ensures
        digits(v, base, n).len() == n,
        digits(v, base, n)[k] == (v / power(base, (n - 1 - k) as nat)) % base,
    decreases n,
{
    lemma_digits_len(v, base, n);
    if k > 0 {
        lemma_digits_index(v, base, (n - 1) as nat, k - 1);
    }
}

/// `n` digits are `n` long.
pub proof fn lemma_digits_len(v: nat, base: nat, n: nat)
    requires
        base > 0,
    ensures
        digits(v, base, n).len() == n,
    decreases n,
{
    if n > 0 {
        let m = (n - 1) as nat;
        lemma_digits_len(v, base, m);
        lemma_power_positive(base, m);
    }
}

/// Every digit is below the base.
pub proof fn lemma_digits_below(v: nat, base: nat, n: nat)
    requires
        base > 0,
    ensures
        all_below(digits(v, base, n), base),
{
    assert forall|i: int| 0 <= i < digits(v, base, n).len() implies #[trigger] digits(
        v,
        base,
        n,
    )[i] < base by {
        lemma_digits_len(v, base, n);
        lemma_digits_index(v, base, n, i);
    }
}

/// The value of two digit strings put together.
pub proof fn lemma_value_concat(a: Seq<nat>, b: Seq<nat>, base: nat)
    requires
        base > 0,
    ensures
        value_of(a + b, base) == value_of(a, base) * power(base, b.len()) + value_of(b, base),
    decreases b.len(),
{
    if b.len() == 0 {
        assert(a + b =~= a);
        assert(power(base, 0) == 1);
        assert(value_of(a, base) * 1 == value_of(a, base));
    } else {
        let b0 = b.drop_last();
        assert((a + b).drop_last() =~= a + b0);
        assert((a + b).last() == b.last());
        lemma_value_concat(a, b0, base);
        let va = value_of(a, base);
        let p = power(base, b0.len());
        let vb0 = value_of(b0, base);
        assert(value_of(a + b, base) == value_of(a + b0, base) * base + b.last());
        assert(value_of(b, base) == vb0 * base + b.last());
        assert(power(base, b.len()) == base * p);
        assert((va * p + vb0) * base + b.last() == va * (base * p) + (vb0 * base + b.last()))
            by (nonlinear_arith);
    }
}

/// One digit writes itself.
pub proof fn lemma_value_single(x: nat, base: nat)
    ensures
        value_of(seq![x], base) == x,
{
    let s = seq![x];
    assert(s.len() == 1);
    assert(s.last() == x);
    assert(s.drop_last() =~= Seq::<nat>::empty());
    assert(value_of(s.drop_last(), base) == 0);
    assert(value_of(s, base) == value_of(s.drop_last(), base) * base + x);
}

/// Digits below the base write a number below `base` to the power of their count.
pub proof fn lemma_value_bound(ds: Seq<nat>, base: nat)
    requires
        base > 0,
        all_below(ds, base),
    ensures
        value_of(ds, base) < power(base, ds.len()),
    decreases ds.len(),
{
    if ds.len() > 0 {
        let d0 = ds.drop_last();
        assert(all_below(d0, base)) by {
            assert forall|i: int| 0 <= i < d0.len() implies #[trigger] d0[i] < base by {
                assert(d0[i] == ds[i]);
            }
        }
        lemma_value_bound(d0, base);
        let v0 = value_of(d0, base);
        let p = power(base, d0.len());
        let l = ds[ds.len() - 1];
        assert(l < base);
        assert(v0 * base + l < base * p) by (nonlinear_arith)
            requires
                v0 < p,
                l < base,
        ;
    }
}

/// Reading the digits of `v` back gives `v` modulo the width's range.
pub proof fn lemma_value_digits(v: nat, base: nat, n: nat)
    requires
        base > 0,
    ensures
        value_of(digits(v, base, n), base) == v % power(base, n),
    decreases n,
{
    if n == 0 {
    } else {
        let m = (n - 1) as nat;
        let p = power(base, m);
        lemma_power_positive(base, m);
        let x: nat = (v / p) % base;
        let d = digits(v, base, m);
        assert(digits(v, base, n) == seq![x] + d);
        lemma_value_concat(seq![x], d, base);
        lemma_value_single(x, base);
        lemma_digits_len(v, base, m);
        lemma_value_digits(v, base, m);
        assert(value_of(digits(v, base, n), base) == x * p + v % p);
        lemma_mod_breakdown(v as int, p as int, base as int);
        assert(p * base == power(base, n)) by (nonlinear_arith)
            requires
                power(base, n) == base * p,
        ;
        assert(x * p == p * x) by (nonlinear_arith);
    }
}

/// Only `v` modulo the width's range decides its digits.
pub proof fn lemma_digits_mod(v: nat, base: nat, n: nat)
    requires
        base > 0,
    ensures
        digits(v, base, n) == digits(v % power(base, n), base, n),
    decreases n,
{
    if n > 0 {
        let m = (n - 1) as nat;
        let p = power(base, m);
        lemma_power_positive(base, m);
        let w = v % power(base, n);
        let x: nat = (v / p) % base;
        assert(p * base == power(base, n)) by (nonlinear_arith)
            requires
                power(base, n) == base * p,
        ;
        lemma_mod_breakdown(v as int, p as int, base as int);
        assert(w == p * x + v % p);
        assert(w == x * p + v % p) by (nonlinear_arith)
            requires
                w == p * x + v % p,
        ;
        lemma_fundamental_div_mod_converse(w as int, p as int, x as int, (v % p) as int);
        assert(w / p == x);
        assert(x < base);
        vstd::arithmetic::div_mod::lemma_small_mod(x, base);
        assert((w / p) % base == x);
        assert(w % p == v % p);
        lemma_digits_mod(v, base, m);
        lemma_digits_mod(w, base, m);
        assert(digits(w, base, m) == digits(v, base, m));
        assert(digits(v, base, n) == seq![x] + digits(v, base, m));
        assert(digits(w, base, n) == seq![(w / p) % base] + digits(w, base, m));
    }
}

/// Digits below the base are the digits of the number that they write.
pub proof fn lemma_digits_value(ds: Seq<nat>, base: nat)
    requires
        base > 0,
        all_below(ds, base),
    ensures
        digits(value_of(ds, base), base, ds.len()) == ds,
    decreases ds.len(),
{
    if ds.len() > 0 {
        let n = ds.len();
        let m = (n - 1) as nat;
        let rest = ds.drop_first();
        assert(ds =~= seq![ds[0]] + rest);
        assert(all_below(rest, base)) by {
            assert forall|i: int| 0 <= i < rest.len() implies #[trigger] rest[i] < base by {
                assert(rest[i] == ds[i + 1]);
            }
        }
        lemma_value_concat(seq![ds[0]], rest, base);
        lemma_value_single(ds[0], base);
        lemma_value_bound(rest, base);
        let p = power(base, m);
        let v = value_of(ds, base);
        let r = value_of(rest, base);
        lemma_power_positive(base, m);
        assert(v == ds[0] * p + r);
        lemma_fundamental_div_mod_converse(v as int, p as int, ds[0] as int, r as int);
        assert(ds[0] < base);
        vstd::arithmetic::div_mod::lemma_small_mod(ds[0], base);
        assert((v / p) % base == ds[0]);
        lemma_digits_mod(v, base, m);
        lemma_digits_value(rest, base);
        assert(digits(v, base, m) == rest);
        assert(digits(v, base, n) == seq![(v / p) % base] + digits(v, base, m));
    }
}

/// Digits in order: a smaller number has the smaller digit where the two first differ.
pub proof fn lemma_digits_ordered(u: nat, v: nat, base: nat, n: nat)
    requires
        base > 1,
        u < v < power(base, n),
    ensures
        exists|k: int|
            0 <= k < n && digits(u, base, n).take(k) == digits(v, base, n).take(k) && #[trigger] digits(
                u,
                base,
                n,
            )[k] < digits(v, base, n)[k],
    decreases n,
{
    let m = (n - 1) as nat;
    let p = power(base, m);
    lemma_power_positive(base, m);
    lemma_digits_len(u, base, n);
    lemma_digits_len(v, base, n);
    lemma_fundamental_div_mod(u as int, p as int);
    lemma_fundamental_div_mod(v as int, p as int);
    lemma_div_is_ordered(u as int, v as int, p as int);
    assert(u / p < base && v / p < base) by {
        assert(power(base, n) == base * p);
        if u / p >= base {
            assert(p * (u / p) >= p * base) by (nonlinear_arith)
                requires
                    u / p >= base,
                    p > 0,
            ;
        }
        if v / p >= base {
            assert(p * (v / p) >= p * base) by (nonlinear_arith)
                requires
                    v / p >= base,
                    p > 0,
            ;
        }
    }
    if u / p < v / p {
        assert(digits(u, base, n).take(0) =~= digits(v, base, n).take(0));
        vstd::arithmetic::div_mod::lemma_small_mod(u / p, base);
        vstd::arithmetic::div_mod::lemma_small_mod(v / p, base);
        assert(digits(u, base, n) == seq![(u / p) % base] + digits(u, base, m));
        assert(digits(v, base, n) == seq![(v / p) % base] + digits(v, base, m));
        assert(digits(u, base, n)[0] < digits(v, base, n)[0]);
    } else {
        assert(u % p < v % p);
        lemma_digits_mod(u, base, m);
        lemma_digits_mod(v, base, m);
        lemma_digits_ordered(u % p, v % p, base, m);
        let k = choose|k: int|
            0 <= k < m && digits(u % p, base, m).take(k) == digits(v % p, base, m).take(k)
                && #[trigger] digits(u % p, base, m)[k] < digits(v % p, base, m)[k];
        let du = digits(u, base, n);
        let dv = digits(v, base, n);
        assert(du == seq![(u / p) % base] + digits(u % p, base, m));
        assert(dv == seq![(v / p) % base] + digits(v % p, base, m));
        assert(du.take(k + 1) =~= seq![(u / p) % base] + digits(u % p, base, m).take(k));
        assert(dv.take(k + 1) =~= seq![(v / p) % base] + digits(v % p, base, m).take(k));
        assert(du[k + 1] < dv[k + 1]);
    }
}

} // verus!
