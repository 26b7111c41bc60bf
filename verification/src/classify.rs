//! The carry classifier: adds two radix integers block by block and tells,
//! for every block of the sum, what it does with carries.

use crate::block::{tabulated_entry, Block, LookupTable};
use crate::carry::{
    carry_statuses,
    does_block_generate_carry,
    does_block_generate_or_propagate,
    generates,
    generates_or_propagates,
    is_sum_of_digits,
    AddExtraOne,
};
use crate::digits::{pairwise_sum, propagate};
use crate::parallel::par_tabulate;
use crate::radix::{
    all_carries_empty,
    all_wf,
    block_values,
    blocks_of,
    lemma_block_values_of,
    RadixCiphertext,
    ServerKey,
};
use vstd::arithmetic::div_mod::lemma_small_mod;
use vstd::prelude::*;

verus! {

/// Entry `x` of the table is the status of a lowest block whose sum is `x`.
pub open spec fn is_generate_table(key: &ServerKey, lut: &LookupTable) -> bool {
    forall|x: int|
        0 <= x < key.key.spec_total_modulus() ==> #[trigger] lut.entries@[x] == generates(
            x,
            key.spec_message_modulus(),
        )
}

/// Entry `x` of the table is the status of a block above the lowest whose sum
/// is `x`.
pub open spec fn is_generate_or_propagate_table(key: &ServerKey, lut: &LookupTable) -> bool {
    forall|x: int|
        0 <= x < key.key.spec_total_modulus() ==> #[trigger] lut.entries@[x]
            == generates_or_propagates(x, key.spec_message_modulus())
}

impl ServerKey {
    /// The table that tells whether the lowest block generates a carry.
    pub fn generate_carry_table(&self) -> (lut: LookupTable)
        requires
            self.wf(),
        ensures
            lut.wf(&self.key),
            is_generate_table(self, &lut),
    {
        let modulus: u64 = self.key.message_modulus;
        let f = |x: u64| -> (r: u64)
            ensures
                r == generates(x as int, modulus as int),
            { does_block_generate_carry(x, modulus) };
        let lut = self.key.generate_accumulator(f);
        proof {
            let total = self.key.spec_total_modulus() as u64;
            assert(self.key.message_modulus * self.key.carry_modulus >= 4) by (nonlinear_arith)
                requires
                    self.key.message_modulus >= 2,
                    self.key.carry_modulus >= 2,
            ;
            assert forall|x: int|
                0 <= x < self.key.spec_total_modulus() implies #[trigger] lut.entries@[x]
                == generates(x, self.spec_message_modulus()) by {
                let xu = x as u64;
                let e = lut.entries@[xu as int];
                assert(tabulated_entry(f, xu, total, e));
                let y = choose|y: u64| call_ensures(f, (xu,), y) && e == y % total;
                lemma_small_mod(y as nat, total as nat);
            }
        }
        lut
    }

    /// The table that tells whether a block above the lowest generates or
    /// propagates a carry.
    pub fn generate_or_propagate_table(&self) -> (lut: LookupTable)
        requires
            self.wf(),
        ensures
            lut.wf(&self.key),
            is_generate_or_propagate_table(self, &lut),
    {
        let modulus: u64 = self.key.message_modulus;
        let f = |x: u64| -> (r: u64)
            ensures
                r == generates_or_propagates(x as int, modulus as int),
            { does_block_generate_or_propagate(x, modulus) };
        let lut = self.key.generate_accumulator(f);
        proof {
            let total = self.key.spec_total_modulus() as u64;
            assert(self.key.message_modulus * self.key.carry_modulus >= 4) by (nonlinear_arith)
                requires
                    self.key.message_modulus >= 2,
                    self.key.carry_modulus >= 2,
            ;
            assert forall|x: int|
                0 <= x < self.key.spec_total_modulus() implies #[trigger] lut.entries@[x]
                == generates_or_propagates(x, self.spec_message_modulus()) by {
                let xu = x as u64;
                let e = lut.entries@[xu as int];
                assert(tabulated_entry(f, xu, total, e));
                let y = choose|y: u64| call_ensures(f, (xu,), y) && e == y % total;
                lemma_small_mod(y as nat, total as nat);
            }
        }
        lut
    }

    /// Adds one pair of blocks and classifies the sum: returns the sum and
    /// its carry status. The lowest pair also takes the extra one, if any.
    pub fn sum_and_classify(
        &self,
        index: usize,
        left: &Block,
        right: &Block,
        add_extra_one: AddExtraOne,
        lut_first: &LookupTable,
        lut_rest: &LookupTable,
    ) -> (r: (Block, Block))
        requires
            self.wf(),
            left.wf(&self.key),
            right.wf(&self.key),
            left.value + right.value + (if index == 0 {
                add_extra_one.spec_amount()
            } else {
                0
            }) < self.key.spec_total_modulus(),
            lut_first.wf(&self.key),
            lut_rest.wf(&self.key),
            is_generate_table(self, lut_first),
            is_generate_or_propagate_table(self, lut_rest),
        ensures
            r.0 == self.key.spec_block(
                left.value + right.value + if index == 0 {
                    add_extra_one.spec_amount()
                } else {
                    0
                },
            ),
            r.1 == self.key.spec_block(
                if index == 0 {
                    generates(r.0.value as int, self.spec_message_modulus())
                } else {
                    generates_or_propagates(r.0.value as int, self.spec_message_modulus())
                },
            ),
            r.0.wf(&self.key),
            r.1.wf(&self.key),
    {
        let mut sum: Block = *left;
        self.key.unchecked_add_assign(&mut sum, right);
        if index == 0 {
            if matches!(add_extra_one, AddExtraOne::Yes) {
                self.key.unchecked_scalar_add_assign(&mut sum, 1);
            }
            // The lowest block receives no carry: it can only generate one.
            let status = self.key.apply_lookup_table(&sum, lut_first);
            (sum, status)
        } else {
            let status = self.key.apply_lookup_table(&sum, lut_rest);
            (sum, status)
        }
    }

    /// Adds `rhs` into `lhs` block by block, with one more at the lowest
    /// block if asked, and returns the carry status of every block of the
    /// sum. Carries stay where they fall. Every sum has to stay below the
    /// total modulus, as it does where both operands come with empty
    /// carries.
    pub fn add_and_generate_init_carry_array(
        &self,
        lhs: &mut RadixCiphertext,
        rhs: &RadixCiphertext,
        add_extra_one: AddExtraOne,
    ) -> (carry_out: Vec<Block>)
        requires
            self.wf(),
            old(lhs).wf(self),
            rhs.wf(self),
            old(lhs)@.len() == rhs@.len(),
            forall|i: int|
                0 <= i < rhs@.len() ==> (#[trigger] old(lhs)@[i]).value + rhs@[i].value + (if i
                    == 0 {
                    add_extra_one.spec_amount()
                } else {
                    0
                }) < self.key.spec_total_modulus(),
        ensures
            final(lhs)@ == blocks_of(
                &self.key,
                pairwise_sum(
                    block_values(old(lhs)@),
                    block_values(rhs@),
                    add_extra_one.spec_amount(),
                ),
            ),
            carry_out@ == blocks_of(
                &self.key,
                carry_statuses(
                    pairwise_sum(
                        block_values(old(lhs)@),
                        block_values(rhs@),
                        add_extra_one.spec_amount(),
                    ),
                    self.spec_message_modulus(),
                ),
            ),
            final(lhs)@.len() == rhs@.len(),
            carry_out@.len() == rhs@.len(),
            final(lhs).wf(self),
            all_wf(carry_out@, &self.key),
            old(lhs).spec_block_carries_are_empty() && rhs.spec_block_carries_are_empty()
                ==> is_sum_of_digits(block_values(final(lhs)@), self.spec_message_modulus()),
    {
        // The lowest pair can generate a carry or not, but never propagate one.
        let lut_does_block_generate_carry = self.generate_carry_table();
        let lut_does_block_generate_or_propagate = self.generate_or_propagate_table();
        let n: usize = lhs.blocks.len();
        let ghost before = lhs@;
        let ghost sums = pairwise_sum(
            block_values(before),
            block_values(rhs@),
            add_extra_one.spec_amount(),
        );
        let ghost m = self.spec_message_modulus();
        let left = &lhs.blocks;
        let right = &rhs.blocks;
        let classify = |i: usize| -> (r: (Block, Block))
            requires
                i < n,
            ensures
                r.0 == self.key.spec_block(
                    left@[i as int].value + right@[i as int].value + if i == 0 {
                        add_extra_one.spec_amount()
                    } else {
                        0
                    },
                ),
                r.1 == self.key.spec_block(
                    if i == 0 {
                        generates(r.0.value as int, self.spec_message_modulus())
                    } else {
                        generates_or_propagates(r.0.value as int, self.spec_message_modulus())
                    },
                ),
                r.0.wf(&self.key),
                r.1.wf(&self.key),
            {
                assert(left@[i as int].wf(&self.key));
                assert(right@[i as int].wf(&self.key));
                self.sum_and_classify(
                    i,
                    &left[i],
                    &right[i],
                    add_extra_one,
                    &lut_does_block_generate_carry,
                    &lut_does_block_generate_or_propagate,
                )
            };
        let pairs: Vec<(Block, Block)> = par_tabulate(n, classify);
        proof {
            assert forall|j: int| 0 <= j < n implies (#[trigger] pairs@[j]).0
                == self.key.spec_block(sums[j]) && pairs@[j].1 == self.key.spec_block(
                carry_statuses(sums, m)[j],
            ) && pairs@[j].0.wf(&self.key) && pairs@[j].1.wf(&self.key) by {
                let ju = j as usize;
                assert(call_ensures(classify, (ju,), pairs@[ju as int]));
                assert(before[j].wf(&self.key));
                assert(rhs@[j].wf(&self.key));
            }
        }
        let mut carry_out: Vec<Block> = Vec::with_capacity(n);
        let mut i: usize = 0;
        while i < n
            invariant
                n == before.len(),
                lhs@.len() == n,
                pairs@.len() == n,
                carry_out@.len() == i,
                i <= n,
                forall|j: int|
                    0 <= j < n ==> (#[trigger] pairs@[j]).0 == self.key.spec_block(sums[j])
                        && pairs@[j].1 == self.key.spec_block(carry_statuses(sums, m)[j])
                        && pairs@[j].0.wf(&self.key) && pairs@[j].1.wf(&self.key),
                forall|j: int| 0 <= j < i ==> #[trigger] lhs@[j] == self.key.spec_block(sums[j]),
                forall|j: int|
                    0 <= j < i ==> #[trigger] carry_out@[j] == self.key.spec_block(
                        carry_statuses(sums, m)[j],
                    ),
                forall|j: int| 0 <= j < i ==> (#[trigger] lhs@[j]).wf(&self.key),
                forall|j: int| 0 <= j < i ==> (#[trigger] carry_out@[j]).wf(&self.key),
            decreases n - i,
        {
            let pair: (Block, Block) = pairs[i];
            lhs.blocks.set(i, pair.0);
            carry_out.push(pair.1);
            i = i + 1;
        }
        proof {
            assert(lhs@ =~= blocks_of(&self.key, sums));
            assert(carry_out@ =~= blocks_of(&self.key, carry_statuses(sums, m)));
            assert forall|j: int| 0 <= j < n implies 0 <= #[trigger] block_values(lhs@)[j] by {}
            assert forall|j: int| 0 <= j < n implies #[trigger] block_values(lhs@)[j] == sums[j] by {
                assert(before[j].wf(&self.key));
                assert(rhs@[j].wf(&self.key));
                assert(lhs@[j].wf(&self.key));
            }
            if before.len() == n && all_carries_empty(before) && all_carries_empty(rhs@) {
                assert forall|j: int| 1 <= j < n implies #[trigger] block_values(lhs@)[j] <= 2
                    * m - 2 by {
                    assert(before[j].spec_carry_is_empty());
                    assert(rhs@[j].spec_carry_is_empty());
                    assert(before[j].wf(&self.key));
                    assert(rhs@[j].wf(&self.key));
                }
                if n > 0 {
                    assert(before[0].spec_carry_is_empty());
                    assert(rhs@[0].spec_carry_is_empty());
                    assert(before[0].wf(&self.key));
                    assert(rhs@[0].wf(&self.key));
                    assert(block_values(lhs@)[0] == sums[0]);
                }
            }
        }
        carry_out
    }

    /// What the classifier leaves: the blocks of the sum hold the digit-wise
    /// sums, and the status blocks hold their statuses.
    pub proof fn lemma_classified(
        &self,
        l: Seq<Block>,
        r: Seq<Block>,
        extra: int,
        summed: Seq<Block>,
        statuses: Seq<Block>,
    )
        requires
            self.wf(),
            all_wf(l, &self.key),
            all_wf(r, &self.key),
            l.len() == r.len(),
            0 <= extra <= 1,
            summed == blocks_of(&self.key, pairwise_sum(block_values(l), block_values(r), extra)),
            statuses == blocks_of(
                &self.key,
                carry_statuses(
                    pairwise_sum(block_values(l), block_values(r), extra),
                    self.spec_message_modulus(),
                ),
            ),
            all_wf(statuses, &self.key),
        ensures
            block_values(summed) =~= pairwise_sum(block_values(l), block_values(r), extra),
            block_values(statuses) =~= carry_statuses(
                pairwise_sum(block_values(l), block_values(r), extra),
                self.spec_message_modulus(),
            ),
            self.spec_holds_statuses(statuses),
            self.spec_propagated(summed) =~= self.spec_sum(l, r, extra),
    {
        let sums = pairwise_sum(block_values(l), block_values(r), extra);
        let st = carry_statuses(sums, self.spec_message_modulus());
        assert forall|i: int| 0 <= i < sums.len() implies 0 <= #[trigger] sums[i] <= u64::MAX by {}
        lemma_block_values_of(&self.key, sums);
        assert forall|i: int| 0 <= i < st.len() implies 0 <= #[trigger] st[i] <= u64::MAX by {}
        lemma_block_values_of(&self.key, st);
    }
}

} // verus!
