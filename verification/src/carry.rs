//! Carry statuses and the operator that merges them.
//!
//! Each block of a digit-wise sum either generates a carry, propagates the
//! carry it receives, or does neither. Merging the statuses from the least
//! significant block upward tells which carry leaves each block.

use crate::digits::{carry_into, is_natural};
use vstd::arithmetic::div_mod::{lemma_basic_div, lemma_fundamental_div_mod_converse};
use vstd::prelude::*;

verus! {

/// Whether an addition adds one more at the lowest block, as a subtraction
/// written as an addition needs.
#[derive(Clone, Copy, Debug, PartialEq, Eq, Structural)]
pub enum AddExtraOne {
    Yes,
    No,
}

/// What a block does with carries.
#[derive(Clone, Copy, Debug, PartialEq, Eq, Structural)]
pub enum OutputCarry {
    /// The block neither generates nor propagates a carry.
    NoCarry,
    /// The block generates a carry.
    Generated,
    /// The block passes on the carry it receives, if any.
    Propagated,
}

/// The code of "no carry".
pub open spec fn code_none() -> int {
    0
}

/// The code of "generates a carry".
pub open spec fn code_generated() -> int {
    1
}

/// The code of "propagates the carry it receives".
pub open spec fn code_propagated() -> int {
    2
}

/// `x` is the code of a carry status.
pub open spec fn is_status(x: int) -> bool {
    0 <= x <= 2
}

/// Every element of `st` is the code of a carry status.
pub open spec fn all_statuses(st: Seq<int>) -> bool {
    forall|i: int| 0 <= i < st.len() ==> is_status(#[trigger] st[i])
}

/// The status of the more significant block `msb` merged over that of the
/// blocks below it, `lsb`: a propagating block takes whatever comes from
/// below, any other block keeps its own status.
pub open spec fn merge(msb: int, lsb: int) -> int {
    if msb == code_propagated() {
        lsb
    } else {
        msb
    }
}

/// Status of the lowest block, which receives no carry: it generates or does
/// nothing.
pub open spec fn generates(sum: int, modulus: int) -> int {
    if sum >= modulus {
        code_generated()
    } else {
        code_none()
    }
}

/// Status of a block above the lowest.
pub open spec fn generates_or_propagates(sum: int, modulus: int) -> int {
    if sum >= modulus {
        code_generated()
    } else if sum == modulus - 1 {
        code_propagated()
    } else {
        code_none()
    }
}

/// The initial status of every block of the digit-wise sum `sums`.
pub open spec fn carry_statuses(sums: Seq<int>, modulus: int) -> Seq<int> {
    Seq::new(
        sums.len(),
        |i: int|
            if i == 0 {
                generates(sums[i], modulus)
            } else {
                generates_or_propagates(sums[i], modulus)
            },
    )
}

/// The statuses of positions `lo ..= hi` merged into one, the most
/// significant outermost.
pub open spec fn window(st: Seq<int>, lo: int, hi: int) -> int
    decreases hi - lo,
{
    if hi <= lo {
        st[hi]
    } else {
        merge(st[hi], window(st, lo, hi - 1))
    }
}

/// The carry that enters position `i` after an exclusive scan seeded with
/// "no carry".
pub open spec fn carry_in_status(st: Seq<int>, i: int) -> int {
    if i <= 0 {
        code_none()
    } else {
        merge(window(st, 0, i - 1), code_none())
    }
}

impl AddExtraOne {
    /// What is added at the lowest block: 1 or 0.
    pub open spec fn spec_amount(&self) -> int {
        match self {
            AddExtraOne::Yes => 1,
            AddExtraOne::No => 0,
        }
    }

    /// What is added at the lowest block: 1 or 0.
    pub fn amount(&self) -> (r: u8)
        ensures
            r == self.spec_amount(),
    {
        match self {
            AddExtraOne::Yes => 1,
            AddExtraOne::No => 0,
        }
    }
}

impl OutputCarry {
    /// The number that stands for the status inside a block.
    pub open spec fn spec_code(&self) -> int {
        match self {
            OutputCarry::NoCarry => code_none(),
            OutputCarry::Generated => code_generated(),
            OutputCarry::Propagated => code_propagated(),
        }
    }

    /// The number that stands for the status inside a block.
    pub fn code(&self) -> (r: u64)
        ensures
            r == self.spec_code(),
            is_status(r as int),
    {
        match self {
            OutputCarry::NoCarry => 0,
            OutputCarry::Generated => 1,
            OutputCarry::Propagated => 2,
        }
    }
}

/// Merges two status codes: `lsb` if `msb` propagates, else `msb`.
pub fn prefix_sum_carry_propagation(msb: u64, lsb: u64) -> (r: u64)
    ensures
        r == merge(msb as int, lsb as int),
{
    if msb == OutputCarry::Propagated.code() {
        lsb
    } else {
        msb
    }
}

/// The status code of the lowest block of a sum.
pub fn does_block_generate_carry(x: u64, modulus: u64) -> (r: u64)
    ensures
        r == generates(x as int, modulus as int),
{
    if x >= modulus {
        OutputCarry::Generated.code()
    } else {
        OutputCarry::NoCarry.code()
    }
}

/// The status code of a block above the lowest.
pub fn does_block_generate_or_propagate(x: u64, modulus: u64) -> (r: u64)
    requires
        modulus >= 1,
    ensures
        r == generates_or_propagates(x as int, modulus as int),
{
    if x >= modulus {
        OutputCarry::Generated.code()
    } else if x == modulus - 1 {
        OutputCarry::Propagated.code()
    } else {
        OutputCarry::NoCarry.code()
    }
}

/// Merging is associative.
pub proof fn lemma_merge_associative(a: int, b: int, c: int)
    ensures
        merge(merge(a, b), c) == merge(a, merge(b, c)),
{
}

/// Merged statuses are statuses.
pub proof fn lemma_window_is_status(st: Seq<int>, lo: int, hi: int)
    requires
        all_statuses(st),
        0 <= lo <= hi < st.len(),
    ensures
        is_status(window(st, lo, hi)),
    decreases hi - lo,
{
    if hi > lo {
        lemma_window_is_status(st, lo, hi - 1);
    }
}

/// A window depends only on the statuses of its positions.
pub proof fn lemma_window_agree(a: Seq<int>, b: Seq<int>, lo: int, hi: int)
    requires
        0 <= lo <= hi,
        hi < a.len(),
        hi < b.len(),
        forall|i: int| lo <= i <= hi ==> a[i] == b[i],
    ensures
        window(a, lo, hi) == window(b, lo, hi),
    decreases hi - lo,
{
    if hi > lo {
        lemma_window_agree(a, b, lo, hi - 1);
    }
}

/// A window is its upper part merged over its lower part, wherever it is cut.
pub proof fn lemma_window_split(st: Seq<int>, lo: int, mid: int, hi: int)
    requires
        lo <= mid < hi,
    ensures
        merge(window(st, mid + 1, hi), window(st, lo, mid)) == window(st, lo, hi),
    decreases hi - mid,
{
    if hi > mid + 1 {
        lemma_window_split(st, lo, mid, hi - 1);
    }
}

/// The digit-wise sum of two sequences without carries, perhaps with one
/// more at position 0.
pub open spec fn is_sum_of_digits(sums: Seq<int>, modulus: int) -> bool {
    &&& is_natural(sums)
    &&& sums.len() > 0 ==> sums[0] <= 2 * modulus - 1
    &&& forall|i: int| 1 <= i < sums.len() ==> #[trigger] sums[i] <= 2 * modulus - 2
}

/// The statuses of positions `0 ..= i`, merged, say whether a carry leaves
/// position `i`: the merged status is "generated" exactly when the carry into
/// position `i + 1` is 1, and "none" when it is 0.
pub proof fn lemma_window_is_carry(sums: Seq<int>, modulus: int, i: int)
    requires
        modulus >= 1,
        is_sum_of_digits(sums, modulus),
        0 <= i < sums.len(),
    ensures
        window(carry_statuses(sums, modulus), 0, i) == carry_into(sums, modulus, (i + 1) as nat),
        0 <= carry_into(sums, modulus, (i + 1) as nat) <= 1,
    decreases i,
{
    let st = carry_statuses(sums, modulus);
    if i == 0 {
        assert(carry_into(sums, modulus, 0) == 0);
        let t = sums[0];
        if t >= modulus {
            lemma_fundamental_div_mod_converse(t, modulus, 1, t - modulus);
        } else {
            lemma_basic_div(t, modulus);
        }
        assert(carry_into(sums, modulus, 1) == t / modulus);
    } else {
        lemma_window_is_carry(sums, modulus, i - 1);
        let c = carry_into(sums, modulus, i as nat);
        let t = sums[i] + c;
        assert(carry_into(sums, modulus, (i + 1) as nat) == t / modulus);
        if t >= modulus {
            lemma_fundamental_div_mod_converse(t, modulus, 1, t - modulus);
        } else {
            lemma_basic_div(t, modulus);
        }
        assert(window(st, 0, i) == merge(st[i], window(st, 0, i - 1)));
    }
}

/// After an exclusive scan seeded with "no carry", position `i` holds the
/// carry that enters it.
pub proof fn lemma_carry_in_status_is_carry(sums: Seq<int>, modulus: int, i: int)
    requires
        modulus >= 1,
        is_sum_of_digits(sums, modulus),
        0 <= i < sums.len(),
    ensures
        carry_in_status(carry_statuses(sums, modulus), i) == carry_into(sums, modulus, i as nat),
        0 <= carry_into(sums, modulus, i as nat) <= 1,
{
    if i > 0 {
        lemma_window_is_carry(sums, modulus, i - 1);
    }
}

} // verus!
