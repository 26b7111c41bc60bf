//! Blocks and the key that evaluates on them.
//!
//! A block is one digit of a radix integer. Its encoded value lives below the
//! total modulus (message modulus times carry modulus): the part below the
//! message modulus is the digit proper, the part above it is carry space.
//!
//! This module states what each block operation does to the encoded value:
//! an addition adds, a lookup table maps. An operation that would take a
//! value past the total modulus has no meaning, so each operation demands
//! that its result stays below it, and the callers in this library prove
//! that it does.

use vstd::prelude::*;

verus! {

/// The modulus parameters under which blocks are evaluated.
#[derive(Clone, Copy, Debug, PartialEq, Eq, Structural)]
pub struct EvaluationKey {
    pub message_modulus: u64,
    pub carry_modulus: u64,
}

/// One digit of a radix integer, together with the moduli it was made under.
#[derive(Clone, Copy, Debug, PartialEq, Eq, Structural)]
pub struct Block {
    pub value: u64,
    pub message_modulus: u64,
    pub carry_modulus: u64,
}

/// A function over the total modulus, tabulated: entry `x` is the image of `x`.
#[derive(Debug)]
pub struct LookupTable {
    pub entries: Vec<u64>,
}

/// A table for a function of two blocks. The pair `(left, right)` is looked up
/// at `left * right_modulus + right`.
#[derive(Debug)]
pub struct BivariateLookupTable {
    pub table: LookupTable,
    pub right_modulus: u64,
}

/// `e` is what `f` may return on `x`, reduced below `total`.
pub open spec fn tabulated_entry<F: Fn(u64) -> u64>(f: F, x: u64, total: u64, e: u64) -> bool {
    exists|y: u64| call_ensures(f, (x,), y) && e == y % total
}

/// `e` is what `f` may return on `(left, right)`, reduced below `total`.
pub open spec fn tabulated_pair_entry<F: Fn(u64, u64) -> u64>(
    f: F,
    left: u64,
    right: u64,
    total: u64,
    e: u64,
) -> bool {
    exists|y: u64| call_ensures(f, (left, right), y) && e == y % total
}

impl Block {
    /// The block belongs to `key` and its value is below the total modulus.
    pub open spec fn wf(&self, key: &EvaluationKey) -> bool {
        &&& self.message_modulus == key.message_modulus
        &&& self.carry_modulus == key.carry_modulus
        &&& self.value < key.spec_total_modulus()
    }

    /// The value lies below the message modulus: the carry space holds zero.
    pub open spec fn spec_carry_is_empty(&self) -> bool {
        self.value < self.message_modulus
    }

    /// Whether the carry space of the block holds zero.
    pub fn carry_is_empty(&self) -> (r: bool)
        ensures
            r == self.spec_carry_is_empty(),
    {
        self.value < self.message_modulus
    }
}

impl LookupTable {
    /// One entry per value below the total modulus, each below it too.
    pub open spec fn wf(&self, key: &EvaluationKey) -> bool {
        &&& self.entries@.len() == key.spec_total_modulus()
        &&& forall|x: int|
            0 <= x < self.entries@.len() ==> #[trigger] self.entries@[x] < key.spec_total_modulus()
    }
}

impl BivariateLookupTable {
    /// A well-formed table with a packing factor of at least 1.
    pub open spec fn wf(&self, key: &EvaluationKey) -> bool {
        &&& self.table.wf(key)
        &&& self.right_modulus >= 1
    }
}

impl EvaluationKey {
    /// Both moduli are at least 2 and the total modulus fits in 32 bits.
    pub open spec fn wf(&self) -> bool {
        &&& self.message_modulus >= 2
        &&& self.carry_modulus >= 2
        &&& self.message_modulus * self.carry_modulus <= u32::MAX
    }

    /// Message modulus times carry modulus.
    pub open spec fn spec_total_modulus(&self) -> int {
        self.message_modulus * self.carry_modulus
    }

    /// A block of this key with the given value.
    pub open spec fn spec_block(&self, value: int) -> Block {
        Block {
            value: value as u64,
            message_modulus: self.message_modulus,
            carry_modulus: self.carry_modulus,
        }
    }

    /// The key with the given moduli, where they make a well-formed key.
    pub fn new(message_modulus: u64, carry_modulus: u64) -> (r: Option<EvaluationKey>)
        ensures
            r.is_some() <==> (EvaluationKey { message_modulus, carry_modulus }).wf(),
            r.is_some() ==> r.unwrap() == (EvaluationKey { message_modulus, carry_modulus }),
    {
        if message_modulus < 2 || carry_modulus < 2 {
            return None;
        }
        if message_modulus > 0xffff_ffff || carry_modulus > 0xffff_ffff {
            assert(message_modulus * carry_modulus > u32::MAX) by (nonlinear_arith)
                requires
                    message_modulus >= 2,
                    carry_modulus >= 2,
                    message_modulus > 0xffff_ffff || carry_modulus > 0xffff_ffff,
            ;
            return None;
        }
        assert(message_modulus * carry_modulus <= 0xffff_ffff * 0xffff_ffff) by (nonlinear_arith)
            requires
                message_modulus <= 0xffff_ffff,
                carry_modulus <= 0xffff_ffff,
        ;
        if message_modulus * carry_modulus > 0xffff_ffff {
            return None;
        }
        Some(EvaluationKey { message_modulus, carry_modulus })
    }

    /// Message modulus times carry modulus.
    pub fn total_modulus(&self) -> (r: u64)
        requires
            self.wf(),
        ensures
            r == self.spec_total_modulus(),
            4 <= r <= u32::MAX,
    {
        assert(self.message_modulus * self.carry_modulus >= 4) by (nonlinear_arith)
            requires
                self.message_modulus >= 2,
                self.carry_modulus >= 2,
        ;
        self.message_modulus * self.carry_modulus
    }

    /// The block that encodes `value` reduced below the message modulus, with
    /// an empty carry.
    pub fn create_trivial(&self, value: u64) -> (r: Block)
        requires
            self.wf(),
        ensures
            r == self.spec_block(value as int % self.message_modulus as int),
            r.wf(self),
            r.spec_carry_is_empty(),
    {
        let digit: u64 = value % self.message_modulus;
        assert(digit < self.message_modulus * self.carry_modulus) by (nonlinear_arith)
            requires
                digit < self.message_modulus,
                self.carry_modulus >= 2,
        ;
        Block {
            value: digit,
            message_modulus: self.message_modulus,
            carry_modulus: self.carry_modulus,
        }
    }

    /// Overwrites `ct` with the trivial block for `value`.
    pub fn create_trivial_assign(&self, ct: &mut Block, value: u64)
        requires
            self.wf(),
        ensures
            *final(ct) == self.spec_block(value as int % self.message_modulus as int),
            final(ct).wf(self),
    {
        *ct = self.create_trivial(value);
    }

    /// Adds `rhs` into `lhs`. The sum has to stay below the total modulus.
    pub fn unchecked_add_assign(&self, lhs: &mut Block, rhs: &Block)
        requires
            self.wf(),
            old(lhs).wf(self),
            rhs.wf(self),
            old(lhs).value + rhs.value < self.spec_total_modulus(),
        ensures
            *final(lhs) == self.spec_block(old(lhs).value + rhs.value),
            final(lhs).wf(self),
    {
        lhs.value = lhs.value + rhs.value;
    }

    /// Adds the clear `scalar` into `ct`. The sum has to stay below the total
    /// modulus.
    pub fn unchecked_scalar_add_assign(&self, ct: &mut Block, scalar: u8)
        requires
            self.wf(),
            old(ct).wf(self),
            old(ct).value + scalar < self.spec_total_modulus(),
        ensures
            *final(ct) == self.spec_block(old(ct).value + scalar),
            final(ct).wf(self),
    {
        ct.value = ct.value + scalar as u64;
    }

    /// The digit of `ct`: its value below the message modulus, carry cleared.
    pub fn message_extract(&self, ct: &Block) -> (r: Block)
        requires
            self.wf(),
            ct.wf(self),
        ensures
            r == self.spec_block(ct.value as int % self.message_modulus as int),
            r.wf(self),
            r.spec_carry_is_empty(),
    {
        self.create_trivial(ct.value)
    }

    /// Clears the carry of `ct` in place.
    pub fn message_extract_assign(&self, ct: &mut Block)
        requires
            self.wf(),
            old(ct).wf(self),
        ensures
            *final(ct) == self.spec_block(old(ct).value as int % self.message_modulus as int),
            final(ct).wf(self),
            final(ct).spec_carry_is_empty(),
    {
        *ct = self.message_extract(ct);
    }

    /// The carry of `ct`: its value divided by the message modulus.
    pub fn carry_extract(&self, ct: &Block) -> (r: Block)
        requires
            self.wf(),
            ct.wf(self),
        ensures
            r == self.spec_block(ct.value as int / self.message_modulus as int),
            r.wf(self),
            r.value < self.carry_modulus,
    {
        let carry: u64 = ct.value / self.message_modulus;
        proof {
            let m = self.message_modulus as int;
            let c = self.carry_modulus as int;
            let v = ct.value as int;
            assert(v / m < c) by (nonlinear_arith)
                requires
                    0 <= v < m * c,
                    m >= 2,
            ;
            assert(c <= m * c) by (nonlinear_arith)
                requires
                    m >= 2,
                    c >= 2,
            ;
        }
        Block {
            value: carry,
            message_modulus: self.message_modulus,
            carry_modulus: self.carry_modulus,
        }
    }

    /// Tabulates `f` over the total modulus. Each entry is what `f` returned
    /// on its index, reduced below the total modulus.
    pub fn generate_accumulator<F: Fn(u64) -> u64>(&self, f: F) -> (acc: LookupTable)
        requires
            self.wf(),
            forall|x: u64| x < self.spec_total_modulus() ==> call_requires(f, (x,)),
        ensures
            acc.wf(self),
            forall|x: u64|
                x < self.spec_total_modulus() ==> tabulated_entry(
                    f,
                    x,
                    self.spec_total_modulus() as u64,
                    #[trigger] acc.entries@[x as int],
                ),
    {
        let total: u64 = self.total_modulus();
        let mut entries: Vec<u64> = Vec::new();
        let mut x: u64 = 0;
        while x < total
            invariant
                total == self.spec_total_modulus(),
                total >= 4,
                x <= total,
                entries@.len() == x,
                forall|z: u64| z < total ==> call_requires(f, (z,)),
                forall|z: int| 0 <= z < x ==> #[trigger] entries@[z] < total,
                forall|z: u64| z < x ==> tabulated_entry(f, z, total, #[trigger] entries@[z as int]),
            decreases total - x,
        {
            let y: u64 = f(x);
            entries.push(y % total);
            x = x + 1;
        }
        LookupTable { entries }
    }

    /// Tabulates a function of two values, packed with the message modulus:
    /// the entry at `left * message_modulus + right` is what `f` returned on
    /// `(left, right)`, reduced below the total modulus.
    pub fn generate_accumulator_bivariate<F: Fn(u64, u64) -> u64>(&self, f: F) -> (acc:
        BivariateLookupTable)
        requires
            self.wf(),
            forall|a: u64, b: u64| call_requires(f, (a, b)),
        ensures
            acc.wf(self),
            acc.right_modulus == self.message_modulus,
            forall|x: u64|
                x < self.spec_total_modulus() ==> tabulated_pair_entry(
                    f,
                    x / self.message_modulus,
                    x % self.message_modulus,
                    self.spec_total_modulus() as u64,
                    #[trigger] acc.table.entries@[x as int],
                ),
    {
        self.generate_accumulator_bivariate_with_factor(f, self.message_modulus)
    }

    /// Tabulates a function of two values, packed with `factor`: the entry
    /// at `left * factor + right` is what `f` returned on `(left, right)`,
    /// reduced below the total modulus. A small factor leaves room for more
    /// left values below the total modulus.
    pub fn generate_accumulator_bivariate_with_factor<F: Fn(u64, u64) -> u64>(
        &self,
        f: F,
        factor: u64,
    ) -> (acc: BivariateLookupTable)
        requires
            self.wf(),
            factor >= 1,
            forall|a: u64, b: u64| call_requires(f, (a, b)),
        ensures
            acc.wf(self),
            acc.right_modulus == factor,
            forall|x: u64|
                x < self.spec_total_modulus() ==> tabulated_pair_entry(
                    f,
                    x / factor,
                    x % factor,
                    self.spec_total_modulus() as u64,
                    #[trigger] acc.table.entries@[x as int],
                ),
    {
        let total: u64 = self.total_modulus();
        let mut entries: Vec<u64> = Vec::new();
        let mut x: u64 = 0;
        while x < total
            invariant
                total == self.spec_total_modulus(),
                total >= 4,
                factor >= 1,
                x <= total,
                entries@.len() == x,
                forall|a: u64, b: u64| call_requires(f, (a, b)),
                forall|z: int| 0 <= z < x ==> #[trigger] entries@[z] < total,
                forall|z: u64|
                    z < x ==> tabulated_pair_entry(
                        f,
                        z / factor,
                        z % factor,
                        total,
                        #[trigger] entries@[z as int],
                    ),
            decreases total - x,
        {
            let y: u64 = f(x / factor, x % factor);
            entries.push(y % total);
            x = x + 1;
        }
        let table = LookupTable { entries };
        BivariateLookupTable { table, right_modulus: factor }
    }

    /// Evaluates the table on the value of `ct`.
    pub fn apply_lookup_table(&self, ct: &Block, acc: &LookupTable) -> (r: Block)
        requires
            self.wf(),
            ct.wf(self),
            acc.wf(self),
        ensures
            r == self.spec_block(acc.entries@[ct.value as int] as int),
            r.wf(self),
    {
        let value: u64 = acc.entries[ct.value as usize];
        Block {
            value,
            message_modulus: self.message_modulus,
            carry_modulus: self.carry_modulus,
        }
    }

    /// Where the pair `(left, right)` is looked up in a bivariate table that
    /// packs with `factor`.
    pub open spec fn spec_packed(factor: int, left: int, right: int) -> int {
        left * factor + right
    }

    /// Evaluates the bivariate table on the pair of values. The right value
    /// has to be below the table's packing factor, and the packed pair below
    /// the total modulus.
    pub fn unchecked_apply_lookup_table_bivariate(
        &self,
        ct_left: &Block,
        ct_right: &Block,
        acc: &BivariateLookupTable,
    ) -> (r: Block)
        requires
            self.wf(),
            ct_left.wf(self),
            ct_right.wf(self),
            acc.wf(self),
            ct_right.value < acc.right_modulus,
            Self::spec_packed(
                acc.right_modulus as int,
                ct_left.value as int,
                ct_right.value as int,
            )
                < self.spec_total_modulus(),
        ensures
            r == self.spec_block(
                acc.table.entries@[Self::spec_packed(
                acc.right_modulus as int,
                ct_left.value as int,
                ct_right.value as int,
            )] as int,
            ),
            r.wf(self),
    {
        assert(ct_left.value * acc.right_modulus >= 0) by (nonlinear_arith);
        let index: u64 = ct_left.value * acc.right_modulus + ct_right.value;
        let value: u64 = acc.table.entries[index as usize];
        Block {
            value,
            message_modulus: self.message_modulus,
            carry_modulus: self.carry_modulus,
        }
    }

    /// As `unchecked_apply_lookup_table_bivariate`, with the result written
    /// over the left block.
    pub fn unchecked_apply_lookup_table_bivariate_assign(
        &self,
        ct_left: &mut Block,
        ct_right: &Block,
        acc: &BivariateLookupTable,
    )
        requires
            self.wf(),
            old(ct_left).wf(self),
            ct_right.wf(self),
            acc.wf(self),
            ct_right.value < acc.right_modulus,
            Self::spec_packed(
                acc.right_modulus as int,
                old(ct_left).value as int,
                ct_right.value as int,
            )
                < self.spec_total_modulus(),
        ensures
            *final(ct_left) == self.spec_block(
                acc.table.entries@[Self::spec_packed(
                acc.right_modulus as int,
                old(ct_left).value as int,
                ct_right.value as int,
            )] as int,
            ),
            final(ct_left).wf(self),
    {
        *ct_left = self.unchecked_apply_lookup_table_bivariate(ct_left, ct_right, acc);
    }
}

} // verus!
