//! Digit sequences, least significant first: the value they stand for and
//! what carry propagation does to them.

use vstd::arithmetic::div_mod::{
    lemma_basic_div,
    lemma_breakdown,
    lemma_fundamental_div_mod,
    lemma_fundamental_div_mod_converse,
    lemma_mod_bound,
    lemma_small_mod,
};
use vstd::arithmetic::power::{lemma_pow0, lemma_pow_positive, pow};
use vstd::prelude::*;

verus! {

/// The value of the first `n` digits of `d` in base `base`.
pub open spec fn radix_prefix(d: Seq<int>, base: int, n: nat) -> int
    decreases n,
{
    if n == 0 {
        0
    } else {
        radix_prefix(d, base, (n - 1) as nat) + d[n - 1] * pow(base, (n - 1) as nat)
    }
}

/// The value of the digit sequence `d` in base `base`. Digits may exceed the
/// base: each still counts with the weight of its position.
pub open spec fn radix_value(d: Seq<int>, base: int) -> int {
    radix_prefix(d, base, d.len())
}

/// No digit is negative.
pub open spec fn is_natural(d: Seq<int>) -> bool {
    forall|i: int| 0 <= i < d.len() ==> 0 <= #[trigger] d[i]
}

/// Every digit lies below the base.
pub open spec fn is_canonical(d: Seq<int>, base: int) -> bool {
    forall|i: int| 0 <= i < d.len() ==> 0 <= #[trigger] d[i] < base
}

/// The carry that arrives at position `i` when the carries of `v` are moved
/// upward from position 0.
pub open spec fn carry_into(v: Seq<int>, base: int, i: nat) -> int
    decreases i,
{
    if i == 0 {
        0
    } else {
        (v[i - 1] + carry_into(v, base, (i - 1) as nat)) / base
    }
}

/// The digit left at position `i` once every carry of `v` has moved upward.
pub open spec fn propagated_digit(v: Seq<int>, base: int, i: int) -> int {
    (v[i] + carry_into(v, base, i as nat)) % base
}

/// `v` with all carries moved upward; the carry out of the last position is
/// dropped.
pub open spec fn propagate(v: Seq<int>, base: int) -> Seq<int> {
    Seq::new(v.len(), |i: int| propagated_digit(v, base, i))
}

/// The digit-wise sum of `a` and `b`, with `extra` added at position 0.
pub open spec fn pairwise_sum(a: Seq<int>, b: Seq<int>, extra: int) -> Seq<int> {
    Seq::new(
        a.len(),
        |i: int|
            a[i] + b[i] + if i == 0 {
                extra
            } else {
                0
            },
    )
}

/// The `n` low digits of `x` in base `base`.
pub open spec fn digits_of(x: int, base: int, n: nat) -> Seq<int> {
    Seq::new(n, |i: int| (x / pow(base, i as nat)) % base)
}

/// Digits below the base make a value below the matching power of the base.
pub proof fn lemma_canonical_prefix_bound(d: Seq<int>, base: int, n: nat)
    requires
        base >= 1,
        n <= d.len(),
        is_canonical(d, base),
    ensures
        0 <= radix_prefix(d, base, n) < pow(base, n),
    decreases n,
{
    reveal(pow);
    if n == 0 {
        lemma_pow0(base);
    } else {
        let k = (n - 1) as nat;
        lemma_canonical_prefix_bound(d, base, k);
        lemma_pow_positive(base, k);
        let p = pow(base, k);
        let x = d[n - 1];
        assert(pow(base, n) == base * p);
        assert(0 <= x * p && x * p + p <= base * p) by (nonlinear_arith)
            requires
                0 <= x < base,
                0 < p,
        ;
    }
}

/// Propagation leaves every digit below the base.
pub proof fn lemma_propagate_canonical(v: Seq<int>, base: int)
    requires
        base >= 1,
    ensures
        propagate(v, base).len() == v.len(),
        is_canonical(propagate(v, base), base),
{
    assert forall|i: int| 0 <= i < v.len() implies 0 <= #[trigger] propagate(v, base)[i]
        < base by {
        lemma_mod_bound(v[i] + carry_into(v, base, i as nat), base);
    }
}

/// Propagation moves value upward without changing it: the first `n`
/// propagated digits, plus the carry into position `n` at its weight, make
/// the value of the first `n` digits of `v`.
pub proof fn lemma_propagate_prefix(v: Seq<int>, base: int, n: nat)
    requires
        base >= 1,
        n <= v.len(),
    ensures
        radix_prefix(propagate(v, base), base, n) + carry_into(v, base, n) * pow(base, n)
            == radix_prefix(v, base, n),
    decreases n,
{
    reveal(pow);
    if n == 0 {
        lemma_pow0(base);
    } else {
        let k = (n - 1) as nat;
        lemma_propagate_prefix(v, base, k);
        let t = v[n - 1] + carry_into(v, base, k);
        let p = pow(base, k);
        lemma_fundamental_div_mod(t, base);
        assert(propagate(v, base)[n - 1] == t % base);
        assert(carry_into(v, base, n) == t / base);
        assert(pow(base, n) == base * p);
        assert((t % base) * p + (t / base) * (base * p) == t * p) by (nonlinear_arith)
            requires
                t == base * (t / base) + (t % base),
        ;
        assert(t * p == v[n - 1] * p + carry_into(v, base, k) * p) by (nonlinear_arith)
            requires
                t == v[n - 1] + carry_into(v, base, k),
        ;
    }
}

/// Propagation reduces the value modulo the base raised to the number of
/// digits, and changes nothing else.
pub proof fn lemma_propagate_value(v: Seq<int>, base: int)
    requires
        base >= 1,
        is_natural(v),
    ensures
        radix_value(propagate(v, base), base) == radix_value(v, base) % pow(base, v.len()),
        is_canonical(propagate(v, base), base),
{
    let n = v.len();
    let w = propagate(v, base);
    lemma_propagate_canonical(v, base);
    lemma_propagate_prefix(v, base, n);
    lemma_canonical_prefix_bound(w, base, n);
    lemma_pow_positive(base, n);
    lemma_fundamental_div_mod_converse(
        radix_value(v, base),
        pow(base, n),
        carry_into(v, base, n),
        radix_value(w, base),
    );
}

/// A sequence without carries is its own propagation.
pub proof fn lemma_propagate_canonical_is_identity(v: Seq<int>, base: int)
    requires
        base >= 1,
        is_canonical(v, base),
    ensures
        propagate(v, base) =~= v,
{
    assert forall|i: int| 0 <= i < v.len() implies #[trigger] propagate(v, base)[i] == v[i] by {
        lemma_canonical_carry_is_zero(v, base, i as nat);
        lemma_small_mod(v[i] as nat, base as nat);
    }
}

/// A sequence without carries sends no carry anywhere.
pub proof fn lemma_canonical_carry_is_zero(v: Seq<int>, base: int, i: nat)
    requires
        base >= 1,
        i <= v.len(),
        is_canonical(v, base),
    ensures
        carry_into(v, base, i) == 0,
    decreases i,
{
    if i > 0 {
        lemma_canonical_carry_is_zero(v, base, (i - 1) as nat);
        lemma_basic_div(v[i - 1], base);
    }
}

/// The value of a digit-wise sum is the sum of the values, plus what was
/// added at position 0.
pub proof fn lemma_pairwise_sum_prefix(a: Seq<int>, b: Seq<int>, extra: int, base: int, n: nat)
    requires
        a.len() == b.len(),
        0 < n <= a.len(),
    ensures
        radix_prefix(pairwise_sum(a, b, extra), base, n) == radix_prefix(a, base, n)
            + radix_prefix(b, base, n) + extra,
    decreases n,
{
    reveal(pow);
    let s = pairwise_sum(a, b, extra);
    let k = (n - 1) as nat;
    let p = pow(base, k);
    if n == 1 {
        lemma_pow0(base);
        assert(radix_prefix(s, base, 0) == 0);
        assert(radix_prefix(a, base, 0) == 0);
        assert(radix_prefix(b, base, 0) == 0);
        assert(s[0] == a[0] + b[0] + extra);
    } else {
        lemma_pairwise_sum_prefix(a, b, extra, base, k);
        assert(s[n - 1] == a[n - 1] + b[n - 1]);
        assert((a[n - 1] + b[n - 1]) * p == a[n - 1] * p + b[n - 1] * p) by (nonlinear_arith);
    }
}

/// The `n` low digits of `x` stand for `x` reduced modulo the base raised to `n`.
pub proof fn lemma_digits_of_prefix(x: int, base: int, len: nat, n: nat)
    requires
        base >= 1,
        0 <= x,
        n <= len,
    ensures
        radix_prefix(digits_of(x, base, len), base, n) == x % pow(base, n),
    decreases n,
{
    reveal(pow);
    if n == 0 {
        lemma_pow0(base);
    } else {
        let k = (n - 1) as nat;
        let p = pow(base, k);
        lemma_digits_of_prefix(x, base, len, k);
        lemma_pow_positive(base, k);
        lemma_breakdown(x, p, base);
        assert(pow(base, n) == base * p);
        assert(digits_of(x, base, len)[n - 1] == (x / p) % base);
        assert(p * base == base * p) by (nonlinear_arith);
        assert(p * ((x / p) % base) == ((x / p) % base) * p) by (nonlinear_arith);
    }
}

/// Two sequences without carries that stand for the same value are the same
/// sequence, digit by digit up to `n`.
pub proof fn lemma_canonical_prefix_unique(d: Seq<int>, e: Seq<int>, base: int, n: nat)
    requires
        base >= 1,
        n <= d.len(),
        n <= e.len(),
        is_canonical(d, base),
        is_canonical(e, base),
        radix_prefix(d, base, n) == radix_prefix(e, base, n),
    ensures
        forall|i: int| 0 <= i < n ==> d[i] == e[i],
    decreases n,
{
    if n > 0 {
        let k = (n - 1) as nat;
        let p = pow(base, k);
        lemma_pow_positive(base, k);
        lemma_canonical_prefix_bound(d, base, k);
        lemma_canonical_prefix_bound(e, base, k);
        let rd = radix_prefix(d, base, k);
        let re = radix_prefix(e, base, k);
        assert(d[n - 1] * p == p * d[n - 1]) by (nonlinear_arith);
        assert(e[n - 1] * p == p * e[n - 1]) by (nonlinear_arith);
        lemma_fundamental_div_mod_converse(rd + d[n - 1] * p, p, d[n - 1], rd);
        lemma_fundamental_div_mod_converse(re + e[n - 1] * p, p, e[n - 1], re);
        lemma_canonical_prefix_unique(d, e, base, k);
    }
}

} // verus!
