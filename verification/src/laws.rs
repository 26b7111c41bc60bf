//! What holds of normalization, of sums and of reductions, whichever path
//! computed them.

use crate::block::Block;
use crate::carry::{all_statuses, code_none, code_propagated, window};
use crate::digits::{
    digits_of,
    is_natural,
    lemma_canonical_prefix_unique,
    lemma_digits_of_prefix,
    lemma_pairwise_sum_prefix,
    lemma_propagate_canonical,
    lemma_propagate_canonical_is_identity,
    lemma_propagate_value,
    pairwise_sum,
    propagate,
    radix_value,
};
use crate::radix::{
    all_carries_empty,
    all_wf,
    block_values,
    blocks_of,
    lemma_block_values_natural,
    lemma_block_values_of,
    lemma_blocks_of_values,
    lemma_canonical_blocks,
    lemma_clean_blocks_canonical,
    lemma_propagated_is_clean,
    ServerKey,
};
use crate::reduce::{
    is_round,
    pair_left,
    pair_right,
    spec_reduces_to,
    spec_reducible,
    untouched_prefix,
};
use crate::scan::{exclusive_scan, inclusive_scan};
use vstd::arithmetic::div_mod::{
    lemma_add_mod_noop,
    lemma_add_mod_noop_right,
    lemma_mod_bound,
    lemma_small_mod,
};
use vstd::arithmetic::power::{lemma_pow0, lemma_pow_positive, pow};
use vstd::prelude::*;

verus! {

/// Normalizing blocks whose carries are empty changes nothing.
pub proof fn lemma_propagated_clean_is_identity(key: &ServerKey, s: Seq<Block>)
    requires
        key.wf(),
        all_wf(s, &key.key),
        all_carries_empty(s),
    ensures
        key.spec_propagated(s) =~= s,
{
    lemma_clean_blocks_canonical(key, s);
    lemma_propagate_canonical_is_identity(block_values(s), key.spec_message_modulus());
    lemma_blocks_of_values(&key.key, s);
}

/// Normalization never changes the integer that the blocks stand for.
pub proof fn lemma_full_propagate_keeps_value(key: &ServerKey, s: Seq<Block>)
    requires
        key.wf(),
    ensures
        key.spec_decrypt_blocks(key.spec_propagated(s)) == key.spec_decrypt_blocks(s),
        radix_value(block_values(key.spec_propagated(s)), key.spec_message_modulus())
            == key.spec_decrypt_blocks(s),
{
    let m = key.spec_message_modulus();
    let n = s.len();
    lemma_propagated_is_clean(key, s);
    lemma_block_values_natural(s);
    lemma_propagate_value(block_values(s), m);
    lemma_pow_positive(m, n);
    let v = radix_value(block_values(s), m) % pow(m, n);
    lemma_mod_bound(radix_value(block_values(s), m), pow(m, n));
    lemma_small_mod(v as nat, pow(m, n) as nat);
}

/// The integer that blocks without carries stand for is the plain value of
/// their digits.
pub proof fn lemma_clean_value(key: &ServerKey, s: Seq<Block>)
    requires
        key.wf(),
        all_wf(s, &key.key),
        all_carries_empty(s),
    ensures
        key.spec_decrypt_blocks(s) == radix_value(block_values(s), key.spec_message_modulus()),
        0 <= key.spec_decrypt_blocks(s) < key.spec_radix_modulus(s.len()),
{
    lemma_propagated_clean_is_identity(key, s);
    lemma_full_propagate_keeps_value(key, s);
    lemma_pow_positive(key.spec_message_modulus(), s.len());
    lemma_mod_bound(
        radix_value(block_values(s), key.spec_message_modulus()),
        key.spec_radix_modulus(s.len()),
    );
}

/// The sum of two radix integers without carries, with `extra` added at the
/// lowest block, stands for the sum of the integers and of `extra`, reduced
/// modulo the message modulus raised to the number of blocks. Its carries are
/// empty.
pub proof fn lemma_sum_is_correct(key: &ServerKey, l: Seq<Block>, r: Seq<Block>, extra: int)
    requires
        key.wf(),
        all_wf(l, &key.key),
        all_wf(r, &key.key),
        l.len() == r.len(),
        l.len() > 0,
        0 <= extra,
    ensures
        key.spec_sum(l, r, extra).len() == l.len(),
        all_wf(key.spec_sum(l, r, extra), &key.key),
        all_carries_empty(key.spec_sum(l, r, extra)),
        key.spec_decrypt_blocks(key.spec_sum(l, r, extra)) == (radix_value(
            block_values(l),
            key.spec_message_modulus(),
        ) + radix_value(block_values(r), key.spec_message_modulus()) + extra)
            % key.spec_radix_modulus(l.len()),
{
    let m = key.spec_message_modulus();
    let n = l.len();
    let sums = pairwise_sum(block_values(l), block_values(r), extra);
    lemma_propagate_canonical(sums, m);
    lemma_canonical_blocks(key, propagate(sums, m));
    lemma_clean_value(key, key.spec_sum(l, r, extra));
    assert(is_natural(sums));
    lemma_propagate_value(sums, m);
    lemma_pairwise_sum_prefix(block_values(l), block_values(r), extra, m, n);
}

/// Adding two radix integers gives the sum of the integers they stand for,
/// reduced modulo the message modulus raised to the number of blocks, with
/// every carry empty.
pub proof fn lemma_add_is_correct(key: &ServerKey, l: Seq<Block>, r: Seq<Block>)
    requires
        key.wf(),
        all_wf(l, &key.key),
        all_wf(r, &key.key),
        l.len() == r.len(),
    ensures
        key.spec_add(l, r).len() == l.len(),
        all_wf(key.spec_add(l, r), &key.key),
        all_carries_empty(key.spec_add(l, r)),
        key.spec_decrypt_blocks(key.spec_add(l, r)) == (key.spec_decrypt_blocks(l)
            + key.spec_decrypt_blocks(r)) % key.spec_radix_modulus(l.len()),
{
    let m = key.spec_message_modulus();
    let n = l.len();
    let big = key.spec_radix_modulus(n);
    let pl = key.spec_propagated(l);
    let pr = key.spec_propagated(r);
    lemma_propagated_is_clean(key, l);
    lemma_propagated_is_clean(key, r);
    lemma_full_propagate_keeps_value(key, l);
    lemma_full_propagate_keeps_value(key, r);
    lemma_pow_positive(m, n);
    if n == 0 {
        let sums = pairwise_sum(block_values(pl), block_values(pr), 0);
        lemma_propagate_canonical(sums, m);
        lemma_canonical_blocks(key, propagate(sums, m));
        lemma_pow0(m);
        assert(radix_value(block_values(key.spec_add(l, r)), m) == 0);
        assert(radix_value(block_values(l), m) == 0);
        assert(radix_value(block_values(r), m) == 0);
    } else {
        lemma_sum_is_correct(key, pl, pr, 0);
    }
}

/// A plain block-wise sum, normalized afterwards, is the sum of the
/// normalized operands: normalizing first changes no digit of the result.
pub proof fn lemma_sum_then_propagate(key: &ServerKey, l: Seq<Block>, r: Seq<Block>)
    requires
        key.wf(),
        all_wf(l, &key.key),
        all_wf(r, &key.key),
        l.len() == r.len(),
        key.spec_is_add_possible(l, r),
    ensures
        key.spec_propagated(key.spec_unchecked_sum(l, r)) =~= key.spec_add(l, r),
{
    let m = key.spec_message_modulus();
    let n = l.len();
    let big = key.spec_radix_modulus(n);
    let vl = block_values(l);
    let vr = block_values(r);
    let plain = pairwise_sum(vl, vr, 0);
    assert forall|i: int| 0 <= i < n implies 0 <= #[trigger] plain[i] <= u64::MAX by {
        assert(l[i].value + r[i].value < key.key.spec_total_modulus());
    }
    lemma_block_values_of(&key.key, plain);
    let a = propagate(plain, m);
    lemma_propagated_is_clean(key, l);
    lemma_propagated_is_clean(key, r);
    let pl = propagate(vl, m);
    let pr = propagate(vr, m);
    let b = propagate(pairwise_sum(pl, pr, 0), m);
    assert(key.spec_propagated(key.spec_unchecked_sum(l, r)) =~= blocks_of(&key.key, a));
    assert(key.spec_add(l, r) =~= blocks_of(&key.key, b));
    if n > 0 {
        lemma_pow_positive(m, n);
        lemma_propagate_value(plain, m);
        lemma_pairwise_sum_prefix(vl, vr, 0, m, n);
        assert(is_natural(pairwise_sum(pl, pr, 0))) by {
            lemma_propagate_canonical(vl, m);
            lemma_propagate_canonical(vr, m);
        }
        lemma_propagate_value(pairwise_sum(pl, pr, 0), m);
        lemma_pairwise_sum_prefix(pl, pr, 0, m, n);
        lemma_propagate_value(vl, m);
        lemma_propagate_value(vr, m);
        lemma_add_mod_noop(radix_value(vl, m), radix_value(vr, m), big);
        lemma_canonical_prefix_unique(a, b, m, n);
    }
    assert(a =~= b);
}

/// The canonical blocks of `x` stand for `x`, reduced modulo the message
/// modulus raised to the number of blocks.
pub proof fn lemma_trivial_radix_value(key: &ServerKey, x: int, n: nat)
    requires
        key.wf(),
        0 <= x,
    ensures
        key.spec_trivial_radix(x, n).len() == n,
        all_wf(key.spec_trivial_radix(x, n), &key.key),
        all_carries_empty(key.spec_trivial_radix(x, n)),
        key.spec_decrypt_blocks(key.spec_trivial_radix(x, n)) == x % key.spec_radix_modulus(n),
{
    let m = key.spec_message_modulus();
    let d = digits_of(x, m, n);
    assert forall|i: int| 0 <= i < n implies 0 <= #[trigger] d[i] < m by {
        lemma_mod_bound(x / pow(m, i as nat), m);
    }
    lemma_canonical_blocks(key, d);
    lemma_clean_value(key, key.spec_trivial_radix(x, n));
    lemma_digits_of_prefix(x, m, n, n);
}

/// For all integers `x` and `y`, adding their canonical blocks gives blocks
/// that stand for `x + y`, reduced modulo the message modulus raised to the
/// number of blocks.
pub proof fn lemma_add_of_plaintexts(key: &ServerKey, x: int, y: int, n: nat)
    requires
        key.wf(),
        0 <= x,
        0 <= y,
    ensures
        key.spec_decrypt_blocks(
            key.spec_add(key.spec_trivial_radix(x, n), key.spec_trivial_radix(y, n)),
        ) == (x + y) % key.spec_radix_modulus(n),
{
    let big = key.spec_radix_modulus(n);
    lemma_trivial_radix_value(key, x, n);
    lemma_trivial_radix_value(key, y, n);
    lemma_add_is_correct(key, key.spec_trivial_radix(x, n), key.spec_trivial_radix(y, n));
    lemma_pow_positive(key.spec_message_modulus(), n);
    lemma_add_mod_noop(x, y, big);
}

/// The two scans hand every block the same carry: the exclusive scan holds
/// at each position what the inclusive scan holds one position below, and
/// "no carry" at the lowest position. This needs a lowest status that does
/// not propagate, which the lowest block of a sum never does.
pub proof fn lemma_scans_agree(st: Seq<int>, i: int)
    requires
        all_statuses(st),
        st.len() > 0,
        st[0] != code_propagated(),
        0 <= i < st.len(),
    ensures
        exclusive_scan(st)[0] == code_none(),
        i >= 1 ==> exclusive_scan(st)[i] == inclusive_scan(st)[i - 1],
        window(st, 0, i) != code_propagated(),
    decreases i,
{
    if i >= 1 {
        lemma_scans_agree(st, i - 1);
    }
}

/// The two scan paths hand the blocks the same carries: the inclusive scan
/// of the low-latency path, moved up by one position with "no carry" put in
/// at the lowest, is the exclusive scan of the work-efficient path. This
/// needs a lowest status that does not propagate, which the lowest block of
/// a sum never does.
pub proof fn lemma_scan_paths_agree(st: Seq<int>)
    requires
        all_statuses(st),
        st.len() > 0,
        st[0] != code_propagated(),
    ensures
        exclusive_scan(st) =~= seq![code_none()] + inclusive_scan(st).drop_last(),
{
    let moved = seq![code_none()] + inclusive_scan(st).drop_last();
    assert forall|i: int| 0 <= i < st.len() implies #[trigger] exclusive_scan(st)[i]
        == moved[i] by {
        lemma_scans_agree(st, i);
    }
}

/// The sequential path under a key too small for the parallel path, and the
/// parallel path under a larger key, give the same integer for the same
/// plaintexts, wherever the two keys' radix moduli reduce `x + y` alike: so
/// whenever the message moduli are equal, or `x + y` lies below both.
pub proof fn lemma_fallback_equivalence(
    small: &ServerKey,
    large: &ServerKey,
    x: int,
    y: int,
    n: nat,
)
    requires
        small.wf(),
        large.wf(),
        !small.spec_is_eligible_for_parallel_carryless_add(),
        large.spec_is_eligible_for_parallel_carryless_add(),
        0 <= x,
        0 <= y,
        (x + y) % small.spec_radix_modulus(n) == (x + y) % large.spec_radix_modulus(n),
    ensures
        small.spec_decrypt_blocks(
            small.spec_add(small.spec_trivial_radix(x, n), small.spec_trivial_radix(y, n)),
        ) == large.spec_decrypt_blocks(
            large.spec_add(large.spec_trivial_radix(x, n), large.spec_trivial_radix(y, n)),
        ),
{
    lemma_add_of_plaintexts(small, x, y, n);
    lemma_add_of_plaintexts(large, x, y, n);
}

/// The integers that the elements of `s` stand for under `key`.
pub open spec fn decrypted_values(key: &ServerKey, s: Seq<Seq<Block>>) -> Seq<int> {
    Seq::new(s.len(), |i: int| key.spec_decrypt_blocks(s[i]))
}

/// The first `n` elements of `v` folded from the left with `g`.
pub open spec fn fold_prefix(v: Seq<int>, g: spec_fn(int, int) -> int, n: nat) -> int
    decreases n,
{
    if n <= 1 {
        v[0]
    } else {
        g(fold_prefix(v, g, (n - 1) as nat), v[n - 1])
    }
}

/// `v` folded from the left with `g`.
pub open spec fn fold_left(v: Seq<int>, g: spec_fn(int, int) -> int) -> int {
    fold_prefix(v, g, v.len())
}

/// `g` gives the same whichever way three values are grouped.
pub open spec fn is_associative(g: spec_fn(int, int) -> int) -> bool {
    forall|x: int, y: int, z: int| #[trigger] g(g(x, y), z) == g(x, g(y, z))
}

/// `inv` holds of every element of `s`.
pub open spec fn all_hold(s: Seq<Seq<Block>>, inv: spec_fn(Seq<Block>) -> bool) -> bool {
    forall|i: int| 0 <= i < s.len() ==> inv(#[trigger] s[i])
}

/// Where `inv` holds of both operands, the operator may be called.
pub open spec fn allows(
    callable: spec_fn(Seq<Block>, Seq<Block>) -> bool,
    inv: spec_fn(Seq<Block>) -> bool,
) -> bool {
    forall|a: Seq<Block>, b: Seq<Block>| inv(a) && inv(b) ==> #[trigger] callable(a, b)
}

/// Where `inv` holds of both operands, it holds of what the operator returns.
pub open spec fn preserves(
    step: spec_fn(Seq<Block>, Seq<Block>, Seq<Block>) -> bool,
    inv: spec_fn(Seq<Block>) -> bool,
) -> bool {
    forall|a: Seq<Block>, b: Seq<Block>, r: Seq<Block>|
        inv(a) && inv(b) && #[trigger] step(a, b, r) ==> inv(r)
}

/// Where `inv` holds of both operands, what the operator returns stands for
/// `g` of what the operands stand for.
pub open spec fn computes(
    step: spec_fn(Seq<Block>, Seq<Block>, Seq<Block>) -> bool,
    key: &ServerKey,
    inv: spec_fn(Seq<Block>) -> bool,
    g: spec_fn(int, int) -> int,
) -> bool {
    forall|a: Seq<Block>, b: Seq<Block>, r: Seq<Block>|
        inv(a) && inv(b) && #[trigger] step(a, b, r) ==> key.spec_decrypt_blocks(r) == g(
            key.spec_decrypt_blocks(a),
            key.spec_decrypt_blocks(b),
        )
}

/// A round keeps the invariant of the elements.
pub proof fn lemma_round_keeps_invariant(
    step: spec_fn(Seq<Block>, Seq<Block>, Seq<Block>) -> bool,
    s: Seq<Seq<Block>>,
    next: Seq<Seq<Block>>,
    inv: spec_fn(Seq<Block>) -> bool,
)
    requires
        is_round(step, s, next),
        all_hold(s, inv),
        preserves(step, inv),
    ensures
        all_hold(next, inv),
{
    let p = untouched_prefix(s.len());
    assert forall|i: int| 0 <= i < next.len() implies inv(#[trigger] next[i]) by {
        if i < p {
            assert(inv(s[0]));
        } else {
            let j = i - p;
            assert(step(pair_left(s, j), pair_right(s, j), next[p + j]));
            assert(inv(s[p + 2 * j]));
            assert(inv(s[p + 2 * j + 1]));
        }
    }
}

/// A round changes nothing of the left fold of what the elements stand for,
/// where the operator computes an associative function.
pub proof fn lemma_round_keeps_fold(
    step: spec_fn(Seq<Block>, Seq<Block>, Seq<Block>) -> bool,
    key: &ServerKey,
    s: Seq<Seq<Block>>,
    next: Seq<Seq<Block>>,
    inv: spec_fn(Seq<Block>) -> bool,
    g: spec_fn(int, int) -> int,
    k: nat,
)
    requires
        s.len() >= 2,
        is_round(step, s, next),
        all_hold(s, inv),
        computes(step, key, inv, g),
        is_associative(g),
        k <= s.len() / 2,
        untouched_prefix(s.len()) + k >= 1,
    ensures
        fold_prefix(decrypted_values(key, next), g, (untouched_prefix(s.len()) + k) as nat)
            == fold_prefix(
            decrypted_values(key, s),
            g,
            (untouched_prefix(s.len()) + 2 * k) as nat,
        ),
    decreases k,
{
    let p = untouched_prefix(s.len());
    let dn = decrypted_values(key, next);
    let ds = decrypted_values(key, s);
    if k > 0 {
        let j = (k - 1) as int;
        assert(step(pair_left(s, j), pair_right(s, j), next[p + j]));
        assert(inv(s[p + 2 * j]) && inv(s[p + 2 * j + 1]));
        assert(dn[p + j] == g(ds[p + 2 * j], ds[p + 2 * j + 1]));
        if p + j >= 1 {
            lemma_round_keeps_fold(step, key, s, next, inv, g, (k - 1) as nat);
            let before = fold_prefix(ds, g, (p + 2 * j) as nat);
            assert(fold_prefix(dn, g, (p + k) as nat) == g(before, dn[p + j]));
            assert(fold_prefix(ds, g, (p + 2 * j + 1) as nat) == g(before, ds[p + 2 * j]));
            assert(fold_prefix(ds, g, (p + 2 * k) as nat) == g(
                fold_prefix(ds, g, (p + 2 * j + 1) as nat),
                ds[p + 2 * j + 1],
            ));
            assert(g(g(before, ds[p + 2 * j]), ds[p + 2 * j + 1]) == g(
                before,
                g(ds[p + 2 * j], ds[p + 2 * j + 1]),
            ));
        } else {
            assert(fold_prefix(ds, g, 1) == ds[0]);
            assert(fold_prefix(ds, g, 2) == g(fold_prefix(ds, g, 1), ds[1]));
        }
    }
}

/// For every non-empty sequence, under an operator that computes an
/// associative function `g` on what its operands stand for, the reduction
/// stands for the left-to-right fold of what the elements stand for. The
/// pairing keeps the order of the elements, so `g` need not be commutative
/// for this.
pub proof fn lemma_reduce_is_fold(
    step: spec_fn(Seq<Block>, Seq<Block>, Seq<Block>) -> bool,
    key: &ServerKey,
    s: Seq<Seq<Block>>,
    r: Seq<Block>,
    inv: spec_fn(Seq<Block>) -> bool,
    g: spec_fn(int, int) -> int,
)
    requires
        s.len() >= 1,
        spec_reduces_to(step, s, r),
        all_hold(s, inv),
        preserves(step, inv),
        computes(step, key, inv, g),
        is_associative(g),
    ensures
        key.spec_decrypt_blocks(r) == fold_left(decrypted_values(key, s), g),
    decreases s.len(),
{
    if s.len() >= 2 {
        let next = choose|next: Seq<Seq<Block>>| #[trigger]
            is_round(step, s, next) && spec_reduces_to(step, next, r);
        lemma_round_keeps_fold(step, key, s, next, inv, g, s.len() / 2);
        lemma_round_keeps_invariant(step, s, next, inv);
        lemma_reduce_is_fold(step, key, next, r, inv, g);
    }
}

/// Where an invariant of the elements lets the operator be called and holds
/// of what it returns, the whole reduction may run.
pub proof fn lemma_invariant_reducible(
    callable: spec_fn(Seq<Block>, Seq<Block>) -> bool,
    step: spec_fn(Seq<Block>, Seq<Block>, Seq<Block>) -> bool,
    s: Seq<Seq<Block>>,
    inv: spec_fn(Seq<Block>) -> bool,
)
    requires
        all_hold(s, inv),
        allows(callable, inv),
        preserves(step, inv),
    ensures
        spec_reducible(callable, step, s),
    decreases s.len(),
{
    if s.len() >= 2 {
        let p = untouched_prefix(s.len());
        assert forall|j: int| 0 <= j < s.len() / 2 implies callable(
            #[trigger] pair_left(s, j),
            pair_right(s, j),
        ) by {
            assert(inv(s[p + 2 * j]));
            assert(inv(s[p + 2 * j + 1]));
        }
        assert forall|next: Seq<Seq<Block>>| #[trigger]
            is_round(step, s, next) implies spec_reducible(callable, step, next) by {
            lemma_round_keeps_invariant(step, s, next, inv);
            lemma_invariant_reducible(callable, step, next, inv);
        }
    }
}

/// The relation of an operator that adds its operands under `key`: what it
/// returns is the sum of the two.
pub open spec fn addition_step(key: &ServerKey) -> spec_fn(
    Seq<Block>,
    Seq<Block>,
    Seq<Block>,
) -> bool {
    |a: Seq<Block>, b: Seq<Block>, r: Seq<Block>| r == key.spec_add(a, b)
}

/// Addition modulo `modulus`.
pub open spec fn modular_addition(modulus: int) -> spec_fn(int, int) -> int {
    |x: int, y: int| (x + y) % modulus
}

/// Addition modulo a positive number is associative.
pub proof fn lemma_modular_addition_associative(modulus: int)
    requires
        modulus > 0,
    ensures
        is_associative(modular_addition(modulus)),
{
    let g = modular_addition(modulus);
    assert forall|x: int, y: int, z: int| #[trigger] g(g(x, y), z) == g(x, g(y, z)) by {
        lemma_add_mod_noop_right(z, x + y, modulus);
        lemma_add_mod_noop_right(x, y + z, modulus);
        assert(z + (x + y) % modulus == (x + y) % modulus + z);
        assert(z + (x + y) == x + (y + z));
    }
}

/// For every non-empty sequence of radix integers of `n` blocks each, the
/// reduction under addition stands for the left-to-right fold, under
/// addition modulo the message modulus raised to `n`, of what the elements
/// stand for.
pub proof fn lemma_reduce_under_addition(
    key: &ServerKey,
    s: Seq<Seq<Block>>,
    r: Seq<Block>,
    n: nat,
)
    requires
        key.wf(),
        s.len() >= 1,
        forall|i: int| 0 <= i < s.len() ==> all_wf(#[trigger] s[i], &key.key) && s[i].len() == n,
        spec_reduces_to(addition_step(key), s, r),
    ensures
        key.spec_decrypt_blocks(r) == fold_left(
            decrypted_values(key, s),
            modular_addition(key.spec_radix_modulus(n)),
        ),
        all_wf(r, &key.key),
        r.len() == n,
        s.len() >= 2 ==> all_carries_empty(r),
{
    let step = addition_step(key);
    let modulus = key.spec_radix_modulus(n);
    let g = modular_addition(modulus);
    let inv = |a: Seq<Block>| all_wf(a, &key.key) && a.len() == n;
    let clean = |a: Seq<Block>| all_wf(a, &key.key) && a.len() == n && all_carries_empty(a);
    lemma_pow_positive(key.spec_message_modulus(), n);
    lemma_modular_addition_associative(modulus);
    assert forall|a: Seq<Block>, b: Seq<Block>, x: Seq<Block>|
        inv(a) && inv(b) && #[trigger] step(a, b, x) implies inv(x) && all_carries_empty(x)
        && key.spec_decrypt_blocks(x) == g(
        key.spec_decrypt_blocks(a),
        key.spec_decrypt_blocks(b),
    ) by {
        lemma_add_is_correct(key, a, b);
    }
    assert(all_hold(s, inv));
    lemma_reduce_is_fold(step, key, s, r, inv, g);
    lemma_reduce_keeps_invariant(step, s, r, inv);
    if s.len() >= 2 {
        let next = choose|next: Seq<Seq<Block>>| #[trigger]
            is_round(step, s, next) && spec_reduces_to(step, next, r);
        lemma_reduce_is_output(step, s, r, inv, |x: Seq<Block>| all_carries_empty(x));
    }
}

/// What the reduction of two or more elements returns was returned by the
/// operator: it has every property that the operator gives to what it
/// returns.
pub proof fn lemma_reduce_is_output(
    step: spec_fn(Seq<Block>, Seq<Block>, Seq<Block>) -> bool,
    s: Seq<Seq<Block>>,
    r: Seq<Block>,
    inv: spec_fn(Seq<Block>) -> bool,
    post: spec_fn(Seq<Block>) -> bool,
)
    requires
        s.len() >= 2,
        spec_reduces_to(step, s, r),
        all_hold(s, inv),
        preserves(step, inv),
        forall|a: Seq<Block>, b: Seq<Block>, x: Seq<Block>|
            inv(a) && inv(b) && #[trigger] step(a, b, x) ==> post(x),
    ensures
        post(r),
    decreases s.len(),
{
    let next = choose|next: Seq<Seq<Block>>| #[trigger]
        is_round(step, s, next) && spec_reduces_to(step, next, r);
    lemma_round_keeps_invariant(step, s, next, inv);
    if next.len() >= 2 {
        lemma_reduce_is_output(step, next, r, inv, post);
    } else {
        assert(step(pair_left(s, 0), pair_right(s, 0), next[untouched_prefix(s.len()) + 0]));
        assert(inv(s[0]) && inv(s[1]));
    }
}

/// What a reduction returns satisfies every invariant that the elements
/// satisfy and the operator keeps.
pub proof fn lemma_reduce_keeps_invariant(
    step: spec_fn(Seq<Block>, Seq<Block>, Seq<Block>) -> bool,
    s: Seq<Seq<Block>>,
    r: Seq<Block>,
    inv: spec_fn(Seq<Block>) -> bool,
)
    requires
        spec_reduces_to(step, s, r),
        all_hold(s, inv),
        preserves(step, inv),
    ensures
        inv(r),
    decreases s.len(),
{
    if s.len() >= 2 {
        let next = choose|next: Seq<Seq<Block>>| #[trigger]
            is_round(step, s, next) && spec_reduces_to(step, next, r);
        lemma_round_keeps_invariant(step, s, next, inv);
        lemma_reduce_keeps_invariant(step, next, r, inv);
    } else {
        assert(inv(s[0]));
    }
}

/// The reduction of a sequence of one is that one element, and an empty
/// sequence reduces to nothing.
pub proof fn lemma_reduce_small(
    step: spec_fn(Seq<Block>, Seq<Block>, Seq<Block>) -> bool,
    s: Seq<Seq<Block>>,
    r: Seq<Block>,
)
    ensures
        s.len() == 0 ==> !spec_reduces_to(step, s, r),
        s.len() == 1 ==> (spec_reduces_to(step, s, r) <==> r == s[0]),
{
}

/// The reduction under an operator that may change its operands and the
/// reduction under one that only borrows them stand for the same integer,
/// for the same sequence, where both operators compute the same associative
/// function.
pub proof fn lemma_flavors_agree(
    mutating: spec_fn(Seq<Block>, Seq<Block>, Seq<Block>) -> bool,
    borrowing: spec_fn(Seq<Block>, Seq<Block>, Seq<Block>) -> bool,
    key: &ServerKey,
    s: Seq<Seq<Block>>,
    r_mutating: Seq<Block>,
    r_borrowing: Seq<Block>,
    inv: spec_fn(Seq<Block>) -> bool,
    g: spec_fn(int, int) -> int,
)
    requires
        spec_reduces_to(mutating, s, r_mutating),
        spec_reduces_to(borrowing, s, r_borrowing),
        all_hold(s, inv),
        preserves(mutating, inv),
        preserves(borrowing, inv),
        computes(mutating, key, inv, g),
        computes(borrowing, key, inv, g),
        is_associative(g),
    ensures
        key.spec_decrypt_blocks(r_mutating) == key.spec_decrypt_blocks(r_borrowing),
{
    lemma_reduce_is_fold(mutating, key, s, r_mutating, inv, g);
    lemma_reduce_is_fold(borrowing, key, s, r_borrowing, inv, g);
}

} // verus!
