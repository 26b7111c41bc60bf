//! Addition of radix integers: both operands are normalized where they need
//! it, their blocks are added and classified, a scan resolves which carry
//! enters each block, and every block takes its carry and gives up its carry
//! space.

use crate::block::Block;
use crate::carry::{
    carry_in_status,
    carry_statuses,
    is_sum_of_digits,
    lemma_carry_in_status_is_carry,
    lemma_window_is_carry,
    window,
    AddExtraOne,
};
use crate::digits::{carry_into, pairwise_sum, propagate};
use crate::laws::{
    lemma_add_is_correct,
    lemma_clean_value,
    lemma_full_propagate_keeps_value,
    lemma_propagated_clean_is_identity,
    lemma_sum_is_correct,
    lemma_sum_then_propagate,
};
use crate::parallel::par_tabulate;
use crate::radix::{
    all_carries_empty,
    all_wf,
    block_values,
    blocks_of,
    lemma_block_values_of,
    lemma_propagated_is_clean,
    RadixCiphertext,
    ServerKey,
};
use vstd::arithmetic::div_mod::lemma_small_mod;
use vstd::prelude::*;

verus! {

impl ServerKey {
    /// The total modulus has at least four bits.
    pub open spec fn spec_is_eligible_for_parallel_carryless_add(&self) -> bool {
        self.key.spec_total_modulus() >= 16
    }

    /// Whether the total modulus has the four bits that the parallel path
    /// needs.
    pub fn is_eligible_for_parallel_carryless_add(&self) -> (r: bool)
        requires
            self.wf(),
        ensures
            r == self.spec_is_eligible_for_parallel_carryless_add(),
    {
        let total_modulus: u64 = self.key.total_modulus();
        total_modulus >= 16
    }

    /// The digit-wise sum of `l` and `r` with `extra` added at the lowest
    /// block, then every carry moved upward.
    pub open spec fn spec_sum(&self, l: Seq<Block>, r: Seq<Block>, extra: int) -> Seq<Block> {
        blocks_of(
            &self.key,
            propagate(
                pairwise_sum(block_values(l), block_values(r), extra),
                self.spec_message_modulus(),
            ),
        )
    }

    /// The sum of two radix integers whose carries need not be empty: each is
    /// normalized, then they are added.
    pub open spec fn spec_add(&self, l: Seq<Block>, r: Seq<Block>) -> Seq<Block> {
        self.spec_sum(self.spec_propagated(l), self.spec_propagated(r), 0)
    }

    /// Adds the carry that enters a block and clears the carry space.
    pub fn inject_carry(&self, block: &Block, input_carry: &Block) -> (r: Block)
        requires
            self.wf(),
            block.wf(&self.key),
            input_carry.wf(&self.key),
            block.value + input_carry.value < self.key.spec_total_modulus(),
        ensures
            r == self.key.spec_block(
                (block.value + input_carry.value) % self.spec_message_modulus(),
            ),
            r.wf(&self.key),
            r.spec_carry_is_empty(),
    {
        let mut b: Block = *block;
        self.key.unchecked_add_assign(&mut b, input_carry);
        self.key.message_extract_assign(&mut b);
        b
    }

    /// Hands every block of a digit-wise sum the carry that enters it, and
    /// clears the carry space of every block, each block on its own task.
    pub fn inject_carries(&self, lhs: &mut RadixCiphertext, input_carries: &Vec<Block>)
        requires
            self.wf(),
            old(lhs).wf(self),
            is_sum_of_digits(block_values(old(lhs)@), self.spec_message_modulus()),
            all_wf(input_carries@, &self.key),
            input_carries@.len() == old(lhs)@.len(),
            forall|i: int|
                0 <= i < old(lhs)@.len() ==> (#[trigger] input_carries@[i]).value == carry_into(
                    block_values(old(lhs)@),
                    self.spec_message_modulus(),
                    i as nat,
                ),
        ensures
            final(lhs)@ == self.spec_propagated(old(lhs)@),
            final(lhs).wf(self),
            final(lhs).spec_block_carries_are_empty(),
    {
        let n: usize = lhs.blocks.len();
        let ghost before = lhs@;
        let ghost sums = block_values(before);
        let ghost m = self.spec_message_modulus();
        proof {
            let c = self.key.carry_modulus as int;
            assert(2 * m <= m * c) by (nonlinear_arith)
                requires
                    m >= 2,
                    c >= 2,
            ;
            assert forall|i: int| 0 <= i < n implies (#[trigger] before[i]).value
                + input_carries@[i].value < self.key.spec_total_modulus() by {
                lemma_carry_in_status_is_carry(sums, m, i);
                assert(sums[i] == before[i].value);
                if i == 0 {
                    assert(carry_into(sums, m, 0) == 0);
                }
            }
        }
        let blocks = &lhs.blocks;
        let inject = |i: usize| -> (b: Block)
            requires
                i < n,
            ensures
                b == self.key.spec_block(
                    (blocks@[i as int].value + input_carries@[i as int].value)
                        % self.spec_message_modulus(),
                ),
                b.wf(&self.key),
                b.spec_carry_is_empty(),
            {
                assert(blocks@[i as int].wf(&self.key));
                assert(input_carries@[i as int].wf(&self.key));
                self.inject_carry(&blocks[i], &input_carries[i])
            };
        let out = par_tabulate(n, inject);
        proof {
            assert forall|i: int| 0 <= i < n implies #[trigger] out@[i] == self.key.spec_block(
                propagate(sums, m)[i],
            ) && out@[i].wf(&self.key) && out@[i].spec_carry_is_empty() by {
                let iu = i as usize;
                assert(call_ensures(inject, (iu,), out@[iu as int]));
                assert(sums[i] == before[i].value);
            }
            assert(out@ =~= self.spec_propagated(before));
        }
        lhs.blocks = out;
    }

    /// Adds `rhs` into `lhs`, resolving the carries with the scan that takes
    /// the fewest rounds: about the binary logarithm of the number of
    /// blocks, with up to one merge per block in every round. Both operands
    /// come with empty carries, and `lhs` leaves with empty carries. The
    /// total modulus has to have four bits.
    pub fn unchecked_add_assign_parallelized_low_latency(
        &self,
        lhs: &mut RadixCiphertext,
        rhs: &RadixCiphertext,
        add_extra_one: AddExtraOne,
    )
        requires
            self.wf(),
            self.spec_is_eligible_for_parallel_carryless_add(),
            old(lhs).wf(self),
            rhs.wf(self),
            old(lhs)@.len() == rhs@.len(),
            old(lhs)@.len() > 0,
            old(lhs).spec_block_carries_are_empty(),
            rhs.spec_block_carries_are_empty(),
        ensures
            final(lhs)@ == self.spec_sum(old(lhs)@, rhs@, add_extra_one.spec_amount()),
            final(lhs).wf(self),
            final(lhs).spec_block_carries_are_empty(),
            final(lhs).spec_decrypt(self) == (old(lhs).spec_decrypt(self) + rhs.spec_decrypt(self)
                + add_extra_one.spec_amount()) % self.spec_radix_modulus(rhs@.len()),
    {
        let ghost before = lhs@;
        let ghost m = self.spec_message_modulus();
        let ghost sums = pairwise_sum(
            block_values(before),
            block_values(rhs@),
            add_extra_one.spec_amount(),
        );
        proof {
            self.lemma_clean_sums_fit(lhs@, rhs@, add_extra_one.spec_amount());
        }
        let statuses = self.add_and_generate_init_carry_array(lhs, rhs, add_extra_one);
        let n: usize = statuses.len();
        proof {
            self.lemma_classified(before, rhs@, add_extra_one.spec_amount(), lhs@, statuses@);
        }
        let lut_carry_propagation_sum = self.carry_propagation_table();
        let mut carry_out = self.low_latency_scan(statuses, &lut_carry_propagation_sum);
        let ghost scanned = carry_out@;
        // The carry that leaves block i - 1 is the carry that enters block i.
        let last = carry_out.pop();
        match last {
            Some(block) => {
                carry_out.insert(0, block);
            },
            None => {},
        }
        let zero = self.key.create_trivial(0);
        assert(zero.value == 0) by {
            lemma_small_mod(0, self.key.message_modulus as nat);
        }
        carry_out.set(0, zero);
        proof {
            let st = carry_statuses(sums, m);
            assert forall|i: int| 0 <= i < n implies (#[trigger] carry_out@[i]).value
                == carry_into(block_values(lhs@), m, i as nat) && carry_out@[i].wf(
                &self.key,
            ) by {
                if i >= 1 {
                    assert(carry_out@[i] == scanned[i - 1]);
                    assert(scanned[i - 1].wf(&self.key));
                    assert(block_values(scanned)[i - 1] == window(st, 0, i - 1));
                    lemma_window_is_carry(sums, m, i - 1);
                }
            }
        }
        self.inject_carries(lhs, &carry_out);
        proof {
            self.lemma_sum_decrypts(before, rhs@, add_extra_one.spec_amount());
        }
    }

    /// Adds `rhs` into `lhs`, resolving the carries with the scan that does
    /// the least work: twice the binary logarithm of the number of blocks in
    /// rounds, with at most one merge for every two blocks in a round. Both
    /// operands come with empty carries, and `lhs` leaves with empty carries.
    /// The total modulus has to have four bits; the number of blocks is free.
    pub fn unchecked_add_assign_parallelized_work_efficient(
        &self,
        lhs: &mut RadixCiphertext,
        rhs: &RadixCiphertext,
        add_extra_one: AddExtraOne,
    )
        requires
            self.wf(),
            self.spec_is_eligible_for_parallel_carryless_add(),
            old(lhs).wf(self),
            rhs.wf(self),
            old(lhs)@.len() == rhs@.len(),
            old(lhs)@.len() > 0,
            old(lhs).spec_block_carries_are_empty(),
            rhs.spec_block_carries_are_empty(),
        ensures
            final(lhs)@ == self.spec_sum(old(lhs)@, rhs@, add_extra_one.spec_amount()),
            final(lhs).wf(self),
            final(lhs).spec_block_carries_are_empty(),
            final(lhs).spec_decrypt(self) == (old(lhs).spec_decrypt(self) + rhs.spec_decrypt(self)
                + add_extra_one.spec_amount()) % self.spec_radix_modulus(rhs@.len()),
    {
        let ghost before = lhs@;
        let ghost m = self.spec_message_modulus();
        let ghost sums = pairwise_sum(
            block_values(before),
            block_values(rhs@),
            add_extra_one.spec_amount(),
        );
        proof {
            self.lemma_clean_sums_fit(lhs@, rhs@, add_extra_one.spec_amount());
        }
        let statuses = self.add_and_generate_init_carry_array(lhs, rhs, add_extra_one);
        let n: usize = statuses.len();
        proof {
            self.lemma_classified(before, rhs@, add_extra_one.spec_amount(), lhs@, statuses@);
        }
        let lut_carry_propagation_sum = self.carry_propagation_table();
        // The exclusive scan leaves "no carry" at the lowest block and, at
        // every other block, the carry that enters it: nothing to rotate.
        let carry_out = self.work_efficient_scan(statuses, &lut_carry_propagation_sum);
        proof {
            let st = carry_statuses(sums, m);
            assert forall|i: int| 0 <= i < n implies (#[trigger] carry_out@[i]).value
                == carry_into(block_values(lhs@), m, i as nat) by {
                assert(block_values(carry_out@)[i] == carry_in_status(st, i));
                lemma_carry_in_status_is_carry(sums, m, i);
            }
        }
        self.inject_carries(lhs, &carry_out);
        proof {
            self.lemma_sum_decrypts(before, rhs@, add_extra_one.spec_amount());
        }
    }

    /// The blocks of a sum of operands without carries stand for the sum of
    /// what the operands stand for.
    pub proof fn lemma_sum_decrypts(&self, l: Seq<Block>, r: Seq<Block>, extra: int)
        requires
            self.wf(),
            all_wf(l, &self.key),
            all_wf(r, &self.key),
            all_carries_empty(l),
            all_carries_empty(r),
            l.len() == r.len(),
            l.len() > 0,
            0 <= extra,
        ensures
            self.spec_decrypt_blocks(self.spec_sum(l, r, extra)) == (self.spec_decrypt_blocks(l)
                + self.spec_decrypt_blocks(r) + extra) % self.spec_radix_modulus(l.len()),
    {
        lemma_sum_is_correct(self, l, r, extra);
        lemma_clean_value(self, l);
        lemma_clean_value(self, r);
    }

    /// Normalizes both radix integers, each on its own task.
    pub fn full_propagate_both(
        &self,
        ct_left: &mut RadixCiphertext,
        ct_right: &mut RadixCiphertext,
    )
        requires
            self.wf(),
            old(ct_left).wf(self),
            old(ct_right).wf(self),
        ensures
            final(ct_left)@ == self.spec_propagated(old(ct_left)@),
            final(ct_right)@ == self.spec_propagated(old(ct_right)@),
            final(ct_left).wf(self),
            final(ct_right).wf(self),
            final(ct_left).spec_block_carries_are_empty(),
            final(ct_right).spec_block_carries_are_empty(),
            final(ct_left).spec_decrypt(self) == old(ct_left).spec_decrypt(self),
            final(ct_right).spec_decrypt(self) == old(ct_right).spec_decrypt(self),
    {
        proof {
            lemma_full_propagate_keeps_value(self, ct_left@);
            lemma_full_propagate_keeps_value(self, ct_right@);
        }
        let left = ct_left.clone();
        let right = ct_right.clone();
        let propagate_left = move || -> (r: RadixCiphertext)
            ensures
                r@ == self.spec_propagated(left@),
                r.wf(self),
                r.spec_block_carries_are_empty(),
            { self.full_propagated(left) };
        let propagate_right = move || -> (r: RadixCiphertext)
            ensures
                r@ == self.spec_propagated(right@),
                r.wf(self),
                r.spec_block_carries_are_empty(),
            { self.full_propagated(right) };
        let (new_left, new_right) = rayon::join(propagate_left, propagate_right);
        *ct_left = new_left;
        *ct_right = new_right;
    }

    /// Clears the carries of both operands where they are not empty: the
    /// left one in place, the right one in a copy, which is returned. Where
    /// both need it, the two are normalized on two tasks.
    pub fn normalize_operands(
        &self,
        ct_left: &mut RadixCiphertext,
        ct_right: &RadixCiphertext,
    ) -> (tmp_rhs: Option<RadixCiphertext>)
        requires
            self.wf(),
            old(ct_left).wf(self),
            ct_right.wf(self),
        ensures
            final(ct_left)@ == self.spec_propagated(old(ct_left)@),
            final(ct_left).wf(self),
            final(ct_left).spec_block_carries_are_empty(),
            tmp_rhs.is_some() <==> !ct_right.spec_block_carries_are_empty(),
            tmp_rhs.is_some() ==> tmp_rhs.unwrap()@ == self.spec_propagated(ct_right@),
            tmp_rhs.is_some() ==> tmp_rhs.unwrap().wf(self),
            tmp_rhs.is_some() ==> tmp_rhs.unwrap().spec_block_carries_are_empty(),
    {
        proof {
            lemma_propagated_is_clean(self, ct_left@);
            if ct_left.spec_block_carries_are_empty() {
                lemma_propagated_clean_is_identity(self, ct_left@);
            }
        }
        match (ct_left.block_carries_are_empty(), ct_right.block_carries_are_empty()) {
            (true, true) => None,
            (true, false) => {
                let mut tmp_rhs = ct_right.clone();
                self.full_propagate_parallelized(&mut tmp_rhs);
                Some(tmp_rhs)
            },
            (false, true) => {
                self.full_propagate_parallelized(ct_left);
                None
            },
            (false, false) => {
                let mut tmp_rhs = ct_right.clone();
                self.full_propagate_both(ct_left, &mut tmp_rhs);
                Some(tmp_rhs)
            },
        }
    }

    /// Adds two radix integers. Operands whose carries are not empty are
    /// normalized first, `ct_left` in place. Where the total modulus has four
    /// bits the carries are resolved by the low-latency scan, else the blocks
    /// are added one by one and the result is normalized. `ct_left` leaves
    /// with empty carries.
    pub fn add_assign_parallelized(
        &self,
        ct_left: &mut RadixCiphertext,
        ct_right: &RadixCiphertext,
    )
        requires
            self.wf(),
            old(ct_left).wf(self),
            ct_right.wf(self),
            old(ct_left)@.len() == ct_right@.len(),
            self.spec_is_eligible_for_parallel_carryless_add() ==> ct_right@.len() > 0,
        ensures
            final(ct_left)@ == self.spec_add(old(ct_left)@, ct_right@),
            final(ct_left).wf(self),
            final(ct_left).spec_block_carries_are_empty(),
            final(ct_left).spec_decrypt(self) == (old(ct_left).spec_decrypt(self)
                + ct_right.spec_decrypt(self)) % self.spec_radix_modulus(ct_right@.len()),
    {
        let ghost before = ct_left@;
        let tmp_rhs = self.normalize_operands(ct_left, ct_right);
        let rhs: &RadixCiphertext = match &tmp_rhs {
            Some(normalized) => normalized,
            None => ct_right,
        };
        proof {
            lemma_propagated_is_clean(self, before);
            lemma_propagated_is_clean(self, ct_right@);
            if tmp_rhs.is_none() {
                lemma_propagated_clean_is_identity(self, ct_right@);
            }
            assert(rhs@ == self.spec_propagated(ct_right@));
            lemma_add_is_correct(self, before, ct_right@);
        }
        if self.is_eligible_for_parallel_carryless_add() {
            self.unchecked_add_assign_parallelized_low_latency(ct_left, rhs, AddExtraOne::No);
        } else {
            proof {
                self.lemma_clean_add_is_possible(ct_left@, rhs@);
                self.lemma_plain_sum_propagated(ct_left@, rhs@);
            }
            self.unchecked_add_assign(ct_left, rhs);
            self.full_propagate_parallelized(ct_left);
        }
    }

    /// Adds two radix integers into a new one. See `add_assign_parallelized`.
    pub fn add_parallelized(&self, ct_left: &RadixCiphertext, ct_right: &RadixCiphertext) -> (ct_res:
        RadixCiphertext)
        requires
            self.wf(),
            ct_left.wf(self),
            ct_right.wf(self),
            ct_left@.len() == ct_right@.len(),
            self.spec_is_eligible_for_parallel_carryless_add() ==> ct_right@.len() > 0,
        ensures
            ct_res@ == self.spec_add(ct_left@, ct_right@),
            ct_res.wf(self),
            ct_res.spec_block_carries_are_empty(),
            ct_res.spec_decrypt(self) == (ct_left.spec_decrypt(self) + ct_right.spec_decrypt(self))
                % self.spec_radix_modulus(ct_right@.len()),
    {
        let mut ct_res = ct_left.clone();
        self.add_assign_parallelized(&mut ct_res, ct_right);
        ct_res
    }

    /// Adds two radix integers. Operands whose carries are not empty are
    /// normalized first, `ct_left` in place. Where the total modulus has four
    /// bits the carries are resolved by the work-efficient scan, else the
    /// blocks are added one by one and the result is normalized. `ct_left`
    /// leaves with empty carries.
    pub fn add_assign_parallelized_work_efficient(
        &self,
        ct_left: &mut RadixCiphertext,
        ct_right: &RadixCiphertext,
    )
        requires
            self.wf(),
            old(ct_left).wf(self),
            ct_right.wf(self),
            old(ct_left)@.len() == ct_right@.len(),
            self.spec_is_eligible_for_parallel_carryless_add() ==> ct_right@.len() > 0,
        ensures
            final(ct_left)@ == self.spec_add(old(ct_left)@, ct_right@),
            final(ct_left).wf(self),
            final(ct_left).spec_block_carries_are_empty(),
            final(ct_left).spec_decrypt(self) == (old(ct_left).spec_decrypt(self)
                + ct_right.spec_decrypt(self)) % self.spec_radix_modulus(ct_right@.len()),
    {
        let ghost before = ct_left@;
        let tmp_rhs = self.normalize_operands(ct_left, ct_right);
        let rhs: &RadixCiphertext = match &tmp_rhs {
            Some(normalized) => normalized,
            None => ct_right,
        };
        proof {
            lemma_propagated_is_clean(self, before);
            lemma_propagated_is_clean(self, ct_right@);
            if tmp_rhs.is_none() {
                lemma_propagated_clean_is_identity(self, ct_right@);
            }
            assert(rhs@ == self.spec_propagated(ct_right@));
            lemma_add_is_correct(self, before, ct_right@);
        }
        if self.is_eligible_for_parallel_carryless_add() {
            self.unchecked_add_assign_parallelized_work_efficient(ct_left, rhs, AddExtraOne::No);
        } else {
            proof {
                self.lemma_clean_add_is_possible(ct_left@, rhs@);
                self.lemma_plain_sum_propagated(ct_left@, rhs@);
            }
            self.unchecked_add_assign(ct_left, rhs);
            self.full_propagate_parallelized(ct_left);
        }
    }

    /// Adds two radix integers into a new one, with the work-efficient scan
    /// where the total modulus has four bits. See
    /// `add_assign_parallelized_work_efficient`.
    pub fn add_parallelized_work_efficient(
        &self,
        ct_left: &RadixCiphertext,
        ct_right: &RadixCiphertext,
    ) -> (ct_res: RadixCiphertext)
        requires
            self.wf(),
            ct_left.wf(self),
            ct_right.wf(self),
            ct_left@.len() == ct_right@.len(),
            self.spec_is_eligible_for_parallel_carryless_add() ==> ct_right@.len() > 0,
        ensures
            ct_res@ == self.spec_add(ct_left@, ct_right@),
            ct_res.wf(self),
            ct_res.spec_block_carries_are_empty(),
            ct_res.spec_decrypt(self) == (ct_left.spec_decrypt(self) + ct_right.spec_decrypt(self))
                % self.spec_radix_modulus(ct_right@.len()),
    {
        let mut ct_res = ct_left.clone();
        self.add_assign_parallelized_work_efficient(&mut ct_res, ct_right);
        ct_res
    }

    /// What the pre-check of the eager additions does to an operand: where
    /// the plain add is not possible, the operand is normalized.
    pub open spec fn spec_smart_operand(&self, l: Seq<Block>, r: Seq<Block>, s: Seq<Block>) -> Seq<
        Block,
    > {
        if self.spec_is_add_possible(l, r) {
            s
        } else {
            self.spec_propagated(s)
        }
    }

    /// Adds two radix integers, normalizing both first, each on its own
    /// task, where the plain block-wise add would take some block past the
    /// total modulus. The blocks are then added one by one and the result is
    /// normalized, so `ct_left` leaves with empty carries.
    pub fn smart_add_assign_parallelized(
        &self,
        ct_left: &mut RadixCiphertext,
        ct_right: &mut RadixCiphertext,
    )
        requires
            self.wf(),
            old(ct_left).wf(self),
            old(ct_right).wf(self),
            old(ct_left)@.len() == old(ct_right)@.len(),
        ensures
            final(ct_left)@ == self.spec_add(old(ct_left)@, old(ct_right)@),
            final(ct_left).wf(self),
            final(ct_left).spec_block_carries_are_empty(),
            final(ct_left).spec_decrypt(self) == (old(ct_left).spec_decrypt(self) + old(
                ct_right,
            ).spec_decrypt(self)) % self.spec_radix_modulus(old(ct_right)@.len()),
            final(ct_right)@ == self.spec_smart_operand(
                old(ct_left)@,
                old(ct_right)@,
                old(ct_right)@,
            ),
            final(ct_right).wf(self),
            final(ct_right).spec_decrypt(self) == old(ct_right).spec_decrypt(self),
    {
        let ghost l = ct_left@;
        let ghost r = ct_right@;
        if !self.is_add_possible(ct_left, ct_right) {
            self.full_propagate_both(ct_left, ct_right);
        }
        proof {
            self.lemma_smart_operands(l, r);
        }
        self.unchecked_add_assign(ct_left, ct_right);
        self.full_propagate_parallelized(ct_left);
    }

    /// Adds two radix integers into a new one, normalizing both first, each
    /// on its own task, where the plain block-wise add would take some block
    /// past the total modulus. The result has empty carries.
    pub fn smart_add_parallelized(
        &self,
        ct_left: &mut RadixCiphertext,
        ct_right: &mut RadixCiphertext,
    ) -> (ct_res: RadixCiphertext)
        requires
            self.wf(),
            old(ct_left).wf(self),
            old(ct_right).wf(self),
            old(ct_left)@.len() == old(ct_right)@.len(),
        ensures
            ct_res@ == self.spec_add(old(ct_left)@, old(ct_right)@),
            ct_res.wf(self),
            ct_res.spec_block_carries_are_empty(),
            ct_res.spec_decrypt(self) == (old(ct_left).spec_decrypt(self) + old(
                ct_right,
            ).spec_decrypt(self)) % self.spec_radix_modulus(old(ct_right)@.len()),
            final(ct_left)@ == self.spec_smart_operand(
                old(ct_left)@,
                old(ct_right)@,
                old(ct_left)@,
            ),
            final(ct_right)@ == self.spec_smart_operand(
                old(ct_left)@,
                old(ct_right)@,
                old(ct_right)@,
            ),
            final(ct_left).wf(self),
            final(ct_right).wf(self),
            final(ct_left).spec_decrypt(self) == old(ct_left).spec_decrypt(self),
            final(ct_right).spec_decrypt(self) == old(ct_right).spec_decrypt(self),
    {
        let ghost l = ct_left@;
        let ghost r = ct_right@;
        if !self.is_add_possible(ct_left, ct_right) {
            self.full_propagate_both(ct_left, ct_right);
        }
        proof {
            self.lemma_smart_operands(l, r);
        }
        let mut ct_res = ct_left.clone();
        self.unchecked_add_assign(&mut ct_res, ct_right);
        self.full_propagate_parallelized(&mut ct_res);
        ct_res
    }

    /// Two radix integers without carries can always be added block by
    /// block, even with one more at the lowest block: no sum reaches the
    /// total modulus.
    pub proof fn lemma_clean_sums_fit(&self, l: Seq<Block>, r: Seq<Block>, extra: int)
        requires
            self.wf(),
            all_wf(l, &self.key),
            all_wf(r, &self.key),
            all_carries_empty(l),
            all_carries_empty(r),
            l.len() == r.len(),
            extra <= 1,
        ensures
            forall|i: int|
                0 <= i < r.len() ==> (#[trigger] l[i]).value + r[i].value + (if i == 0 {
                    extra
                } else {
                    0
                }) < self.key.spec_total_modulus(),
    {
        let m = self.key.message_modulus as int;
        let c = self.key.carry_modulus as int;
        assert(2 * m <= m * c) by (nonlinear_arith)
            requires
                m >= 2,
                c >= 2,
        ;
        assert forall|i: int| 0 <= i < r.len() implies (#[trigger] l[i]).value + r[i].value + (if i
            == 0 {
            extra
        } else {
            0
        }) < self.key.spec_total_modulus() by {
            assert(l[i].wf(&self.key) && l[i].spec_carry_is_empty());
            assert(r[i].wf(&self.key) && r[i].spec_carry_is_empty());
        }
    }

    /// Two radix integers without carries can always be added block by
    /// block: no sum of two digits reaches the total modulus.
    pub proof fn lemma_clean_add_is_possible(&self, l: Seq<Block>, r: Seq<Block>)
        requires
            self.wf(),
            all_wf(l, &self.key),
            all_wf(r, &self.key),
            all_carries_empty(l),
            all_carries_empty(r),
            l.len() == r.len(),
        ensures
            self.spec_is_add_possible(l, r),
    {
        let m = self.key.message_modulus as int;
        let c = self.key.carry_modulus as int;
        assert(2 * m <= m * c) by (nonlinear_arith)
            requires
                m >= 2,
                c >= 2,
        ;
        assert forall|i: int| 0 <= i < l.len() implies (#[trigger] l[i]).value + r[i].value
            < self.key.spec_total_modulus() by {
            assert(l[i].wf(&self.key) && l[i].spec_carry_is_empty());
            assert(r[i].wf(&self.key) && r[i].spec_carry_is_empty());
        }
    }

    /// The plain block-wise sum of two radix integers, normalized, is the
    /// sum of the two.
    pub proof fn lemma_plain_sum_propagated(&self, l: Seq<Block>, r: Seq<Block>)
        requires
            self.wf(),
            all_wf(l, &self.key),
            all_wf(r, &self.key),
            l.len() == r.len(),
            self.spec_is_add_possible(l, r),
        ensures
            self.spec_propagated(self.spec_unchecked_sum(l, r)) =~= self.spec_sum(l, r, 0),
    {
        let plain = pairwise_sum(block_values(l), block_values(r), 0);
        assert forall|i: int| 0 <= i < plain.len() implies 0 <= #[trigger] plain[i]
            <= u64::MAX by {
            assert(l[i].value + r[i].value < self.key.spec_total_modulus());
        }
        lemma_block_values_of(&self.key, plain);
    }

    /// After the pre-check of the eager additions, the plain add is
    /// possible, and its normalized result is the sum of the operands as
    /// they came. Neither operand stands for another integer than before.
    pub proof fn lemma_smart_operands(&self, l: Seq<Block>, r: Seq<Block>)
        requires
            self.wf(),
            all_wf(l, &self.key),
            all_wf(r, &self.key),
            l.len() == r.len(),
        ensures
            ({
                let sl = self.spec_smart_operand(l, r, l);
                let sr = self.spec_smart_operand(l, r, r);
                &&& sl.len() == l.len()
                &&& sr.len() == r.len()
                &&& all_wf(sl, &self.key)
                &&& all_wf(sr, &self.key)
                &&& self.spec_is_add_possible(sl, sr)
                &&& self.spec_propagated(self.spec_unchecked_sum(sl, sr)) =~= self.spec_add(l, r)
                &&& self.spec_decrypt_blocks(sl) == self.spec_decrypt_blocks(l)
                &&& self.spec_decrypt_blocks(sr) == self.spec_decrypt_blocks(r)
            }),
            all_wf(self.spec_add(l, r), &self.key),
            all_carries_empty(self.spec_add(l, r)),
            self.spec_decrypt_blocks(self.spec_add(l, r)) == (self.spec_decrypt_blocks(l)
                + self.spec_decrypt_blocks(r)) % self.spec_radix_modulus(l.len()),
    {
        lemma_add_is_correct(self, l, r);
        if self.spec_is_add_possible(l, r) {
            lemma_sum_then_propagate(self, l, r);
        } else {
            let pl = self.spec_propagated(l);
            let pr = self.spec_propagated(r);
            lemma_propagated_is_clean(self, l);
            lemma_propagated_is_clean(self, r);
            lemma_full_propagate_keeps_value(self, l);
            lemma_full_propagate_keeps_value(self, r);
            self.lemma_clean_add_is_possible(pl, pr);
            lemma_sum_then_propagate(self, pl, pr);
            lemma_propagated_clean_is_identity(self, pl);
            lemma_propagated_clean_is_identity(self, pr);
            assert(self.spec_add(pl, pr) == self.spec_add(l, r));
        }
    }
}

} // verus!
