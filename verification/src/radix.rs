//! Radix integers: sequences of blocks, least significant first.

use crate::block::{Block, EvaluationKey};
use crate::digits::{
    carry_into,
    digits_of,
    is_canonical,
    is_natural,
    lemma_propagate_canonical,
    pairwise_sum,
    propagate,
    radix_prefix,
    radix_value,
};
use crate::laws::{
    lemma_full_propagate_keeps_value,
    lemma_propagated_clean_is_identity,
    lemma_trivial_radix_value,
};
use vstd::arithmetic::div_mod::{
    lemma_add_mod_noop,
    lemma_div_denominator,
    lemma_div_is_ordered,
    lemma_mod_bound,
    lemma_mul_mod_noop,
    lemma_small_mod,
};
use vstd::arithmetic::power::{lemma_pow0, lemma_pow_increases, lemma_pow_positive, pow};
use vstd::prelude::*;

verus! {

/// An unsigned integer as a sequence of blocks in base `message_modulus`,
/// least significant first.
#[derive(Debug)]
pub struct RadixCiphertext {
    pub blocks: Vec<Block>,
}

/// The key under which radix integers are added and reduced.
#[derive(Clone, Copy, Debug, PartialEq, Eq, Structural)]
pub struct ServerKey {
    pub key: EvaluationKey,
}

/// The values of a sequence of blocks.
pub open spec fn block_values(s: Seq<Block>) -> Seq<int> {
    Seq::new(s.len(), |i: int| s[i].value as int)
}

/// The blocks of `key` that hold the digits `d`.
pub open spec fn blocks_of(key: &EvaluationKey, d: Seq<int>) -> Seq<Block> {
    Seq::new(d.len(), |i: int| key.spec_block(d[i]))
}

/// Every block of `s` is a well-formed block of `key`.
pub open spec fn all_wf(s: Seq<Block>, key: &EvaluationKey) -> bool {
    forall|i: int| 0 <= i < s.len() ==> (#[trigger] s[i]).wf(key)
}

/// Every block of `s` has an empty carry.
pub open spec fn all_carries_empty(s: Seq<Block>) -> bool {
    forall|i: int| 0 <= i < s.len() ==> (#[trigger] s[i]).spec_carry_is_empty()
}

impl View for RadixCiphertext {
    type V = Seq<Block>;

    open spec fn view(&self) -> Seq<Block> {
        self.blocks@
    }
}

impl Clone for RadixCiphertext {
    /// A radix integer with the same blocks.
    fn clone(&self) -> (r: Self)
        ensures
            r@ == self@,
    {
        let blocks = self.blocks.clone();
        assert(blocks@ =~= self.blocks@);
        RadixCiphertext { blocks }
    }
}

impl RadixCiphertext {
    /// Every block is a well-formed block of `key`.
    pub open spec fn wf(&self, key: &ServerKey) -> bool {
        all_wf(self@, &key.key)
    }

    /// The values of the blocks, least significant first.
    pub open spec fn spec_digits(&self) -> Seq<int> {
        block_values(self@)
    }

    /// The carry of every block is empty.
    pub open spec fn spec_block_carries_are_empty(&self) -> bool {
        all_carries_empty(self@)
    }

    /// The integer that the blocks stand for under `key`: the value of the
    /// digits, reduced modulo the message modulus raised to the number of
    /// blocks.
    pub open spec fn spec_decrypt(&self, key: &ServerKey) -> int {
        key.spec_decrypt_blocks(self@)
    }

    /// Whether the carry of every block is empty.
    pub fn block_carries_are_empty(&self) -> (r: bool)
        ensures
            r == self.spec_block_carries_are_empty(),
    {
        let n: usize = self.blocks.len();
        let mut i: usize = 0;
        while i < n
            invariant
                n == self.blocks@.len(),
                i <= n,
                forall|j: int| 0 <= j < i ==> (#[trigger] self@[j]).spec_carry_is_empty(),
            decreases n - i,
        {
            if !self.blocks[i].carry_is_empty() {
                return false;
            }
            i = i + 1;
        }
        true
    }
}

impl ServerKey {
    /// The evaluation key is well-formed.
    pub open spec fn wf(&self) -> bool {
        self.key.wf()
    }

    /// The base of the digits.
    pub open spec fn spec_message_modulus(&self) -> int {
        self.key.message_modulus as int
    }

    /// The message modulus raised to the number of blocks `n`: the number of
    /// integers that `n` blocks can tell apart.
    pub open spec fn spec_radix_modulus(&self, n: nat) -> int {
        pow(self.spec_message_modulus(), n)
    }

    /// The integer that the blocks `s` stand for: the value of their digits,
    /// reduced modulo the message modulus raised to the number of blocks.
    pub open spec fn spec_decrypt_blocks(&self, s: Seq<Block>) -> int {
        radix_value(block_values(s), self.spec_message_modulus()) % self.spec_radix_modulus(
            s.len(),
        )
    }

    /// The canonical blocks of `value` on `num_blocks` blocks.
    pub open spec fn spec_trivial_radix(&self, value: int, num_blocks: nat) -> Seq<Block> {
        blocks_of(&self.key, digits_of(value, self.spec_message_modulus(), num_blocks))
    }

    /// The blocks with every carry moved upward.
    pub open spec fn spec_propagated(&self, s: Seq<Block>) -> Seq<Block> {
        blocks_of(&self.key, propagate(block_values(s), self.spec_message_modulus()))
    }

    /// For every pair of blocks, the two values together stay below the total
    /// modulus.
    pub open spec fn spec_is_add_possible(&self, l: Seq<Block>, r: Seq<Block>) -> bool {
        forall|i: int|
            0 <= i < l.len() ==> (#[trigger] l[i]).value + r[i].value
                < self.key.spec_total_modulus()
    }

    /// The block-wise sum, carries left where they fall.
    pub open spec fn spec_unchecked_sum(&self, l: Seq<Block>, r: Seq<Block>) -> Seq<Block> {
        blocks_of(&self.key, pairwise_sum(block_values(l), block_values(r), 0))
    }

    /// The key with the given moduli, where they make a well-formed key.
    pub fn new(message_modulus: u64, carry_modulus: u64) -> (r: Option<ServerKey>)
        ensures
            r.is_some() <==> (ServerKey {
                key: EvaluationKey { message_modulus, carry_modulus },
            }).wf(),
            r.is_some() ==> r.unwrap() == (ServerKey {
                key: EvaluationKey { message_modulus, carry_modulus },
            }),
    {
        match EvaluationKey::new(message_modulus, carry_modulus) {
            Some(key) => Some(ServerKey { key }),
            None => None,
        }
    }

    /// Whether every block of `ct` is a well-formed block of this key.
    pub fn is_compatible(&self, ct: &RadixCiphertext) -> (r: bool)
        requires
            self.wf(),
        ensures
            r == ct.wf(self),
    {
        let total: u64 = self.key.total_modulus();
        let n: usize = ct.blocks.len();
        let mut i: usize = 0;
        while i < n
            invariant
                n == ct.blocks@.len(),
                i <= n,
                total == self.key.spec_total_modulus(),
                forall|j: int| 0 <= j < i ==> (#[trigger] ct@[j]).wf(&self.key),
            decreases n - i,
        {
            let b: Block = ct.blocks[i];
            if b.message_modulus != self.key.message_modulus || b.carry_modulus
                != self.key.carry_modulus || b.value >= total {
                assert(!ct@[i as int].wf(&self.key));
                return false;
            }
            i = i + 1;
        }
        true
    }

    /// The radix integer on `num_blocks` blocks that holds the low digits of
    /// `value`, every carry empty.
    pub fn create_trivial_radix(&self, value: u64, num_blocks: usize) -> (r: RadixCiphertext)
        requires
            self.wf(),
        ensures
            r@ == self.spec_trivial_radix(value as int, num_blocks as nat),
            r@.len() == num_blocks,
            r.wf(self),
            r.spec_block_carries_are_empty(),
            r.spec_decrypt(self) == value as int % self.spec_radix_modulus(num_blocks as nat),
    {
        let m: u64 = self.key.message_modulus;
        let mut blocks: Vec<Block> = Vec::new();
        let mut rest: u64 = value;
        let mut i: usize = 0;
        proof {
            lemma_pow0(m as int);
        }
        while i < num_blocks
            invariant
                self.wf(),
                m == self.key.message_modulus,
                i <= num_blocks,
                blocks@.len() == i,
                rest == (value as int) / pow(m as int, i as nat),
                forall|j: int|
                    0 <= j < i ==> #[trigger] blocks@[j] == self.key.spec_block(
                        digits_of(value as int, m as int, num_blocks as nat)[j],
                    ),
                forall|j: int| 0 <= j < i ==> (#[trigger] blocks@[j]).wf(&self.key),
                forall|j: int| 0 <= j < i ==> (#[trigger] blocks@[j]).spec_carry_is_empty(),
            decreases num_blocks - i,
        {
            let b: Block = self.key.create_trivial(rest);
            proof {
                let p = pow(m as int, i as nat);
                lemma_pow_positive(m as int, i as nat);
                lemma_div_denominator(value as int, p, m as int);
                reveal(pow);
                assert(pow(m as int, (i + 1) as nat) == m * p);
                assert(p * m == m * p) by (nonlinear_arith);
            }
            blocks.push(b);
            rest = rest / m;
            i = i + 1;
        }
        proof {
            assert(blocks@ =~= self.spec_trivial_radix(value as int, num_blocks as nat));
            lemma_trivial_radix_value(self, value as int, num_blocks as nat);
        }
        RadixCiphertext { blocks }
    }

    /// The integer that `ct` stands for, where the message modulus raised to
    /// the number of blocks fits in 64 bits.
    pub fn decrypt_trivial(&self, ct: &RadixCiphertext) -> (r: Option<u64>)
        requires
            self.wf(),
            ct.wf(self),
        ensures
            r.is_some() <==> pow(self.spec_message_modulus(), ct@.len()) <= u64::MAX,
            r.is_some() ==> r.unwrap() == ct.spec_decrypt(self),
    {
        let m: u64 = self.key.message_modulus;
        let n: usize = ct.blocks.len();
        let ghost base = m as int;
        let ghost d = ct.spec_digits();
        // The modulus of the whole integer.
        let mut modulus: u64 = 1;
        let mut i: usize = 0;
        proof {
            lemma_pow0(base);
        }
        assert(m <= u32::MAX) by (nonlinear_arith)
            requires
                m * self.key.carry_modulus <= u32::MAX,
                self.key.carry_modulus >= 2,
                m >= 2,
        ;
        while i < n
            invariant
                i <= n,
                n == ct@.len(),
                m >= 2,
                m == self.key.message_modulus,
                base == m,
                modulus == pow(base, i as nat),
            decreases n - i,
        {
            proof {
                reveal(pow);
                assert(pow(base, (i + 1) as nat) == base * pow(base, i as nat));
            }
            if modulus > u64::MAX / m {
                proof {
                    let p = modulus as int;
                    assert(p * base > u64::MAX) by (nonlinear_arith)
                        requires
                            p > (u64::MAX as int) / base,
                            base >= 2,
                    ;
                    assert(base * p == p * base) by (nonlinear_arith);
                    lemma_pow_increases(m as nat, (i + 1) as nat, n as nat);
                    assert(pow(base, (i + 1) as nat) <= pow(base, n as nat));
                }
                return None;
            }
            proof {
                let p = modulus as int;
                assert(p * base <= u64::MAX) by (nonlinear_arith)
                    requires
                        0 <= p <= (u64::MAX as int) / base,
                        base >= 2,
                ;
                assert(base * p == p * base) by (nonlinear_arith);
            }
            modulus = modulus * m;
            i = i + 1;
        }
        let ghost big = modulus as int;
        proof {
            lemma_pow_positive(base, n as nat);
        }
        let mut acc: u64 = 0;
        let mut weight: u64 = 1 % modulus;
        let mut k: usize = 0;
        proof {
            lemma_pow0(base);
            assert(radix_prefix(d, base, 0) == 0);
            lemma_small_mod(0, big as nat);
        }
        while k < n
            invariant
                k <= n,
                n == ct@.len(),
                self.wf(),
                ct.wf(self),
                m == self.key.message_modulus,
                base == m,
                d == ct.spec_digits(),
                big == modulus,
                big == pow(base, n as nat),
                big >= 1,
                m <= u32::MAX,
                acc < modulus,
                weight < modulus,
                acc == radix_prefix(d, base, k as nat) % big,
                weight == pow(base, k as nat) % big,
            decreases n - k,
        {
            let v: u64 = ct.blocks[k].value;
            assert(ct@[k as int].wf(&self.key));
            assert(v <= u32::MAX);
            assert(d[k as int] == v);
            assert(v * weight <= 0xffff_ffff * 0xffff_ffff_ffff_ffff) by (nonlinear_arith)
                requires
                    v <= 0xffff_ffff,
                    weight <= 0xffff_ffff_ffff_ffff,
            ;
            assert(weight * m <= 0xffff_ffff_ffff_ffff * 0xffff_ffff) by (nonlinear_arith)
                requires
                    weight <= 0xffff_ffff_ffff_ffff,
                    m <= 0xffff_ffff,
            ;
            let term: u128 = (v as u128) * (weight as u128);
            let next: u128 = ((acc as u128) + term) % (modulus as u128);
            let scaled: u128 = (weight as u128) * (m as u128);
            let next_weight: u128 = scaled % (modulus as u128);
            proof {
                let pk = pow(base, k as nat);
                let pre = radix_prefix(d, base, k as nat);
                reveal(pow);
                assert(pow(base, (k + 1) as nat) == base * pk);
                assert(radix_prefix(d, base, (k + 1) as nat) == pre + d[k as int] * pk);
                // next == (pre + v * pk) % big
                lemma_mul_mod_noop(v as int, pk, big);
                lemma_mod_bound(pk, big);
                lemma_small_mod((v as int % big) as nat, big as nat);
                assert(((v as int % big) * (pk % big)) % big == (v * pk) % big);
                lemma_mul_mod_noop(v as int % big, pk % big, big);
                lemma_mul_mod_noop(v as int, pk % big, big);
                assert((v * (pk % big)) % big == (v * pk) % big);
                lemma_add_mod_noop(pre, v * pk, big);
                lemma_add_mod_noop(pre % big, v * (pk % big), big);
                lemma_small_mod((pre % big) as nat, big as nat);
                assert(((pre % big) + v * (pk % big)) % big == (pre + v * pk) % big);
                // next_weight == (pk * base) % big
                lemma_mul_mod_noop(pk, base, big);
                lemma_mul_mod_noop(pk % big, base, big);
                lemma_small_mod((pk % big) as nat, big as nat);
                assert(((pk % big) * base) % big == (pk * base) % big);
                assert(pk * base == base * pk) by (nonlinear_arith);
            }
            acc = next as u64;
            weight = next_weight as u64;
            k = k + 1;
        }
        proof {
            lemma_small_mod(acc as nat, big as nat);
        }
        Some(acc)
    }

    /// Whether the plain block-wise add of `ct_left` and `ct_right` keeps
    /// every block below the total modulus.
    pub fn is_add_possible(&self, ct_left: &RadixCiphertext, ct_right: &RadixCiphertext) -> (r:
        bool)
        requires
            self.wf(),
            ct_left.wf(self),
            ct_right.wf(self),
            ct_left@.len() == ct_right@.len(),
        ensures
            r == self.spec_is_add_possible(ct_left@, ct_right@),
    {
        let total: u64 = self.key.total_modulus();
        let n: usize = ct_left.blocks.len();
        let mut i: usize = 0;
        while i < n
            invariant
                n == ct_left@.len(),
                n == ct_right@.len(),
                i <= n,
                self.wf(),
                ct_left.wf(self),
                ct_right.wf(self),
                total == self.key.spec_total_modulus(),
                forall|j: int|
                    0 <= j < i ==> (#[trigger] ct_left@[j]).value + ct_right@[j].value < total,
            decreases n - i,
        {
            assert(ct_left@[i as int].wf(&self.key));
            assert(ct_right@[i as int].wf(&self.key));
            if ct_left.blocks[i].value + ct_right.blocks[i].value >= total {
                return false;
            }
            i = i + 1;
        }
        true
    }

    /// Adds `ct_right` into `ct_left` block by block. Carries stay where they
    /// fall.
    pub fn unchecked_add_assign(&self, ct_left: &mut RadixCiphertext, ct_right: &RadixCiphertext)
        requires
            self.wf(),
            old(ct_left).wf(self),
            ct_right.wf(self),
            old(ct_left)@.len() == ct_right@.len(),
            self.spec_is_add_possible(old(ct_left)@, ct_right@),
        ensures
            final(ct_left)@ == self.spec_unchecked_sum(old(ct_left)@, ct_right@),
            final(ct_left).wf(self),
    {
        let n: usize = ct_left.blocks.len();
        let ghost before = ct_left@;
        let mut i: usize = 0;
        while i < n
            invariant
                n == before.len(),
                n == ct_right@.len(),
                ct_left@.len() == n,
                i <= n,
                self.wf(),
                all_wf(before, &self.key),
                ct_right.wf(self),
                self.spec_is_add_possible(before, ct_right@),
                forall|j: int| i <= j < n ==> #[trigger] ct_left@[j] == before[j],
                forall|j: int|
                    0 <= j < i ==> #[trigger] ct_left@[j] == self.key.spec_block(
                        before[j].value + ct_right@[j].value,
                    ),
            decreases n - i,
        {
            assert(before[i as int].wf(&self.key));
            assert(ct_right@[i as int].wf(&self.key));
            let mut b: Block = ct_left.blocks[i];
            self.key.unchecked_add_assign(&mut b, &ct_right.blocks[i]);
            ct_left.blocks.set(i, b);
            i = i + 1;
        }
        assert(ct_left@ =~= self.spec_unchecked_sum(before, ct_right@));
        assert forall|j: int| 0 <= j < n implies (#[trigger] ct_left@[j]).wf(&self.key) by {
            assert(before[j].wf(&self.key));
        }
    }

    /// Moves every carry of `ct` upward, from the lowest block on. The carry
    /// out of the last block is dropped.
    pub fn full_propagate_parallelized(&self, ct: &mut RadixCiphertext)
        requires
            self.wf(),
            old(ct).wf(self),
        ensures
            final(ct)@ == self.spec_propagated(old(ct)@),
            final(ct)@.len() == old(ct)@.len(),
            final(ct).wf(self),
            final(ct).spec_block_carries_are_empty(),
            final(ct).spec_decrypt(self) == old(ct).spec_decrypt(self),
            old(ct).spec_block_carries_are_empty() ==> final(ct)@ == old(ct)@,
    {
        let n: usize = ct.blocks.len();
        let m: u64 = self.key.message_modulus;
        let total: u64 = self.key.total_modulus();
        let ghost before = ct@;
        let ghost v = block_values(before);
        let mut carry: u64 = 0;
        let mut i: usize = 0;
        while i < n
            invariant
                n == before.len(),
                ct@.len() == n,
                i <= n,
                self.wf(),
                m == self.key.message_modulus,
                total == self.key.spec_total_modulus(),
                total <= u32::MAX,
                all_wf(before, &self.key),
                v == block_values(before),
                carry == carry_into(v, m as int, i as nat),
                carry <= total,
                forall|j: int| i <= j < n ==> #[trigger] ct@[j] == before[j],
                forall|j: int|
                    0 <= j < i ==> #[trigger] ct@[j] == self.key.spec_block(
                        propagate(v, m as int)[j],
                    ),
                forall|j: int| 0 <= j < i ==> (#[trigger] ct@[j]).wf(&self.key),
                forall|j: int| 0 <= j < i ==> (#[trigger] ct@[j]).spec_carry_is_empty(),
            decreases n - i,
        {
            assert(before[i as int].wf(&self.key));
            let t: u64 = ct.blocks[i].value + carry;
            let b: Block = self.key.create_trivial(t);
            proof {
                assert(v[i as int] == before[i as int].value);
                assert(carry_into(v, m as int, (i + 1) as nat) == (t as int) / (m as int));
                lemma_div_is_ordered(t as int, 2 * total, m as int);
                assert((2 * total) / (m as int) <= total) by (nonlinear_arith)
                    requires
                        m >= 2,
                        total >= 0,
                ;
            }
            ct.blocks.set(i, b);
            carry = t / m;
            i = i + 1;
        }
        proof {
            assert(ct@ =~= self.spec_propagated(before));
            lemma_full_propagate_keeps_value(self, before);
            if all_carries_empty(before) {
                lemma_propagated_clean_is_identity(self, before);
            }
        }
    }

    /// `ct` with every carry moved upward.
    pub fn full_propagated(&self, ct: RadixCiphertext) -> (r: RadixCiphertext)
        requires
            self.wf(),
            ct.wf(self),
        ensures
            r@ == self.spec_propagated(ct@),
            r@.len() == ct@.len(),
            r.wf(self),
            r.spec_block_carries_are_empty(),
            r.spec_decrypt(self) == ct.spec_decrypt(self),
            ct.spec_block_carries_are_empty() ==> r@ == ct@,
    {
        let mut out = ct;
        self.full_propagate_parallelized(&mut out);
        out
    }
}

/// Blocks made from digits that fit in a block hold those digits.
pub proof fn lemma_block_values_of(key: &EvaluationKey, d: Seq<int>)
    requires
        forall|i: int| 0 <= i < d.len() ==> 0 <= #[trigger] d[i] <= u64::MAX,
    ensures
        block_values(blocks_of(key, d)) =~= d,
{
}

/// Well-formed blocks are the blocks of their own values.
pub proof fn lemma_blocks_of_values(key: &EvaluationKey, s: Seq<Block>)
    requires
        all_wf(s, key),
    ensures
        blocks_of(key, block_values(s)) =~= s,
{
    assert forall|i: int| 0 <= i < s.len() implies #[trigger] blocks_of(key, block_values(s))[i]
        == s[i] by {
        assert(s[i].wf(key));
    }
}

/// Digits below the message modulus make well-formed blocks without carries.
pub proof fn lemma_canonical_blocks(key: &ServerKey, d: Seq<int>)
    requires
        key.wf(),
        is_canonical(d, key.spec_message_modulus()),
    ensures
        blocks_of(&key.key, d).len() == d.len(),
        all_wf(blocks_of(&key.key, d), &key.key),
        all_carries_empty(blocks_of(&key.key, d)),
        block_values(blocks_of(&key.key, d)) =~= d,
{
    let m = key.key.message_modulus as int;
    let c = key.key.carry_modulus as int;
    assert(m <= m * c) by (nonlinear_arith)
        requires
            m >= 2,
            c >= 2,
    ;
    assert forall|i: int| 0 <= i < d.len() implies 0 <= #[trigger] d[i] <= u64::MAX by {}
    lemma_block_values_of(&key.key, d);
    assert forall|i: int| 0 <= i < d.len() implies (#[trigger] blocks_of(&key.key, d)[i]).wf(
        &key.key,
    ) && blocks_of(&key.key, d)[i].spec_carry_is_empty() by {
        assert(0 <= d[i] < m);
    }
}

/// The values of well-formed blocks are not negative.
pub proof fn lemma_block_values_natural(s: Seq<Block>)
    ensures
        is_natural(block_values(s)),
        block_values(s).len() == s.len(),
{
}

/// Blocks without carries hold digits below the message modulus.
pub proof fn lemma_clean_blocks_canonical(key: &ServerKey, s: Seq<Block>)
    requires
        all_wf(s, &key.key),
        all_carries_empty(s),
    ensures
        is_canonical(block_values(s), key.spec_message_modulus()),
{
    assert forall|i: int| 0 <= i < s.len() implies 0 <= #[trigger] block_values(s)[i]
        < key.spec_message_modulus() by {
        assert(s[i].wf(&key.key));
        assert(s[i].spec_carry_is_empty());
    }
}

/// Normalization leaves well-formed blocks without carries, as many as
/// there were.
pub proof fn lemma_propagated_is_clean(key: &ServerKey, s: Seq<Block>)
    requires
        key.wf(),
    ensures
        key.spec_propagated(s).len() == s.len(),
        all_wf(key.spec_propagated(s), &key.key),
        all_carries_empty(key.spec_propagated(s)),
        block_values(key.spec_propagated(s)) =~= propagate(
            block_values(s),
            key.spec_message_modulus(),
        ),
{
    let m = key.spec_message_modulus();
    lemma_propagate_canonical(block_values(s), m);
    lemma_canonical_blocks(key, propagate(block_values(s), m));
}

} // verus!
