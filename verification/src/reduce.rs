//! Pairwise reduction of a sequence of radix integers under a binary
//! operator.
//!
//! In every round the elements are paired up consecutively and each pair is
//! combined, all pairs at once; where the count is odd the first element
//! waits for the next round. The rounds go on until one element is left.
//!
//! The operator is the caller's. What it may be called on, and what it may
//! return, is taken from its own contract and stated here as two relations
//! on block sequences.

use crate::block::Block;
use crate::parallel::par_tabulate;
use crate::radix::{RadixCiphertext, ServerKey};
use vstd::prelude::*;

verus! {

/// A radix integer that is either borrowed from the caller or owned by the
/// reduction.
pub enum CiphertextCow<'a> {
    Borrowed(&'a RadixCiphertext),
    Owned(RadixCiphertext),
}

impl<'a> CiphertextCow<'a> {
    /// The radix integer, wherever it lives.
    pub open spec fn spec_as_ref(&self) -> RadixCiphertext {
        match self {
            CiphertextCow::Borrowed(b) => **b,
            CiphertextCow::Owned(o) => *o,
        }
    }

    /// The radix integer, wherever it lives.
    pub fn as_ref(&self) -> (r: &RadixCiphertext)
        ensures
            *r == self.spec_as_ref(),
    {
        match self {
            CiphertextCow::Borrowed(b) => b,
            CiphertextCow::Owned(o) => o,
        }
    }
}

/// The blocks of each radix integer behind a sequence of borrows.
pub open spec fn ref_views(s: Seq<&RadixCiphertext>) -> Seq<Seq<Block>> {
    Seq::new(s.len(), |i: int| s[i]@)
}

/// The blocks of each radix integer of a sequence, borrowed or owned.
pub open spec fn cow_views(s: Seq<CiphertextCow>) -> Seq<Seq<Block>> {
    Seq::new(s.len(), |i: int| s[i].spec_as_ref()@)
}

/// The number of elements that wait for the next round: 1 where the count is
/// odd, else 0.
pub open spec fn untouched_prefix(len: nat) -> int {
    (len % 2) as int
}

/// The left operand of pair `j` of a round over `s`.
pub open spec fn pair_left(s: Seq<Seq<Block>>, j: int) -> Seq<Block> {
    s[untouched_prefix(s.len()) + 2 * j]
}

/// The right operand of pair `j` of a round over `s`.
pub open spec fn pair_right(s: Seq<Seq<Block>>, j: int) -> Seq<Block> {
    s[untouched_prefix(s.len()) + 2 * j + 1]
}

/// The operator may be called on every pair of a round over `s`.
pub open spec fn round_callable(
    callable: spec_fn(Seq<Block>, Seq<Block>) -> bool,
    s: Seq<Seq<Block>>,
) -> bool {
    forall|j: int| 0 <= j < s.len() / 2 ==> callable(#[trigger] pair_left(s, j), pair_right(s, j))
}

/// `next` is what one round may make of `s`: the first element as it is
/// where the count is odd, then what the operator returned on each pair, in
/// the order of the pairs.
pub open spec fn is_round(
    step: spec_fn(Seq<Block>, Seq<Block>, Seq<Block>) -> bool,
    s: Seq<Seq<Block>>,
    next: Seq<Seq<Block>>,
) -> bool {
    &&& next.len() == untouched_prefix(s.len()) + s.len() / 2
    &&& s.len() % 2 == 1 ==> next[0] == s[0]
    &&& forall|j: int|
        0 <= j < s.len() / 2 ==> step(
            #[trigger] pair_left(s, j),
            pair_right(s, j),
            next[untouched_prefix(s.len()) + j],
        )
}

/// The operator may be called on every pair of every round of the reduction
/// of `s`, whatever it returns on the way.
pub open spec fn spec_reducible(
    callable: spec_fn(Seq<Block>, Seq<Block>) -> bool,
    step: spec_fn(Seq<Block>, Seq<Block>, Seq<Block>) -> bool,
    s: Seq<Seq<Block>>,
) -> bool
    decreases s.len(),
{
    s.len() <= 1 || (round_callable(callable, s) && forall|next: Seq<Seq<Block>>| #[trigger]
        is_round(step, s, next) ==> spec_reducible(callable, step, next))
}

/// `r` is what the reduction of `s` may return: the one element where there
/// is one, else what the reduction of some round's outcome may return.
pub open spec fn spec_reduces_to(
    step: spec_fn(Seq<Block>, Seq<Block>, Seq<Block>) -> bool,
    s: Seq<Seq<Block>>,
    r: Seq<Block>,
) -> bool
    decreases s.len(),
{
    if s.len() == 0 {
        false
    } else if s.len() == 1 {
        r == s[0]
    } else {
        exists|next: Seq<Seq<Block>>| #[trigger]
            is_round(step, s, next) && spec_reduces_to(step, next, r)
    }
}

/// Whether an operator that borrows its operands may be called on radix
/// integers with the blocks `a` and `b`.
pub open spec fn borrowing_callable<F>(op: F, key: &ServerKey) -> spec_fn(
    Seq<Block>,
    Seq<Block>,
) -> bool where F: Fn(&ServerKey, &RadixCiphertext, &RadixCiphertext) -> RadixCiphertext {
    |a: Seq<Block>, b: Seq<Block>|
        forall|x: RadixCiphertext, y: RadixCiphertext|
            x@ == a && y@ == b ==> #[trigger] call_requires(op, (key, &x, &y))
}

/// Whether an operator that borrows its operands may return a radix integer
/// with the blocks `r` on radix integers with the blocks `a` and `b`.
pub open spec fn borrowing_step<F>(op: F, key: &ServerKey) -> spec_fn(
    Seq<Block>,
    Seq<Block>,
    Seq<Block>,
) -> bool where F: Fn(&ServerKey, &RadixCiphertext, &RadixCiphertext) -> RadixCiphertext {
    |a: Seq<Block>, b: Seq<Block>, r: Seq<Block>|
        exists|x: RadixCiphertext, y: RadixCiphertext, res: RadixCiphertext|
            x@ == a && y@ == b && res@ == r && #[trigger] call_ensures(op, (key, &x, &y), res)
}

/// A radix integer that is either borrowed from the caller, who sees what
/// the operator does to it, or owned by the reduction.
pub enum CiphertextCowMut<'a> {
    Borrowed(&'a mut RadixCiphertext),
    Owned(RadixCiphertext),
}

impl<'a> CiphertextCowMut<'a> {
    /// The radix integer as it is now, wherever it lives.
    pub open spec fn spec_as_ref(&self) -> RadixCiphertext {
        match self {
            CiphertextCowMut::Borrowed(b) => **b,
            CiphertextCowMut::Owned(o) => *o,
        }
    }

    /// The radix integer as it is now, wherever it lives.
    pub fn as_ref(&self) -> (r: &RadixCiphertext)
        ensures
            *r == self.spec_as_ref(),
    {
        match self {
            CiphertextCowMut::Borrowed(b) => b,
            CiphertextCowMut::Owned(o) => o,
        }
    }
}

/// `t` is element `j` of `s`.
pub open spec fn is_at<T>(s: Seq<T>, j: int, t: T) -> bool {
    0 <= j < s.len() && s[j] == t
}

/// What the operator left in the copy of element `i` of a round, where
/// `all` holds, for every pair, what the operator returned and what it left
/// in the two copies.
pub open spec fn operand_after(
    all: Seq<(RadixCiphertext, RadixCiphertext, RadixCiphertext)>,
    prefix: int,
    i: int,
) -> RadixCiphertext {
    if (i - prefix) % 2 == 0 {
        all[(i - prefix) / 2].1
    } else {
        all[(i - prefix) / 2].2
    }
}

/// `c` is the borrow `b`.
pub open spec fn is_borrow(c: CiphertextCowMut, b: &mut RadixCiphertext) -> bool {
    c == CiphertextCowMut::Borrowed(b)
}

/// The blocks of each radix integer behind a sequence of mutable borrows, as
/// they are now.
pub open spec fn mut_ref_views(s: Seq<&mut RadixCiphertext>) -> Seq<Seq<Block>> {
    Seq::new(s.len(), |i: int| (*s[i])@)
}

/// The blocks of each radix integer of a sequence, borrowed or owned, as
/// they are now.
pub open spec fn cow_mut_views(s: Seq<CiphertextCowMut>) -> Seq<Seq<Block>> {
    Seq::new(s.len(), |i: int| s[i].spec_as_ref()@)
}

/// Whether an operator that may change its operands may be called on radix
/// integers with the blocks `a` and `b`.
pub open spec fn mutating_callable<F>(op: F, key: &ServerKey) -> spec_fn(
    Seq<Block>,
    Seq<Block>,
) -> bool where
    F: Fn(&ServerKey, &mut RadixCiphertext, &mut RadixCiphertext) -> RadixCiphertext,
 {
    |a: Seq<Block>, b: Seq<Block>|
        forall|x: &mut RadixCiphertext, y: &mut RadixCiphertext|
            (*x)@ == a && (*y)@ == b ==> #[trigger] call_requires(op, (key, x, y))
}

/// Whether an operator that may change its operands may return a radix
/// integer with the blocks `r` on radix integers with the blocks `a` and
/// `b`, whatever it leaves in them.
pub open spec fn mutating_step<F>(op: F, key: &ServerKey) -> spec_fn(
    Seq<Block>,
    Seq<Block>,
    Seq<Block>,
) -> bool where
    F: Fn(&ServerKey, &mut RadixCiphertext, &mut RadixCiphertext) -> RadixCiphertext,
 {
    |a: Seq<Block>, b: Seq<Block>, r: Seq<Block>|
        exists|x: &mut RadixCiphertext, y: &mut RadixCiphertext, res: RadixCiphertext|
            (*x)@ == a && (*y)@ == b && res@ == r && #[trigger] call_ensures(
                op,
                (key, x, y),
                res,
            )
}

/// The operator was called on pair `j` of a round over `s`, got the
/// references `operands[..]` to the two elements of the pair, and returned a
/// radix integer with the blocks that stand in `next` for the pair.
pub open spec fn pair_call<F>(
    op: F,
    key: &ServerKey,
    s: Seq<Seq<Block>>,
    operands: Seq<&mut RadixCiphertext>,
    next: Seq<Seq<Block>>,
    j: int,
) -> bool where
    F: Fn(&ServerKey, &mut RadixCiphertext, &mut RadixCiphertext) -> RadixCiphertext,
 {
    let left = untouched_prefix(s.len()) + 2 * j;
    let right = untouched_prefix(s.len()) + 2 * j + 1;
    &&& (*operands[left])@ == s[left]
    &&& (*operands[right])@ == s[right]
    &&& exists|res: RadixCiphertext|
        res@ == next[untouched_prefix(s.len()) + j] && #[trigger] call_ensures(
            op,
            (key, operands[left], operands[right]),
            res,
        )
}

/// `next` is what one round of calls made of `s`, where `operands` are the
/// references that the operator got to the elements it was called on.
pub open spec fn round_calls<F>(
    op: F,
    key: &ServerKey,
    s: Seq<Seq<Block>>,
    operands: Seq<&mut RadixCiphertext>,
    next: Seq<Seq<Block>>,
) -> bool where
    F: Fn(&ServerKey, &mut RadixCiphertext, &mut RadixCiphertext) -> RadixCiphertext,
 {
    &&& operands.len() == s.len()
    &&& next.len() == untouched_prefix(s.len()) + s.len() / 2
    &&& s.len() % 2 == 1 ==> next[0] == s[0]
    &&& forall|j: int| 0 <= j < s.len() / 2 ==> #[trigger] pair_call(op, key, s, operands, next, j)
}

/// Where the count is odd, the first element waits for the next round: the
/// operator gets at it through the reference of a later round.
pub open spec fn carried_over(
    len: nat,
    operands: Seq<&mut RadixCiphertext>,
    next_operands: Seq<&mut RadixCiphertext>,
) -> bool {
    len % 2 == 1 ==> operands[0] == next_operands[0]
}

/// `r` is what the reduction of `s` may return under an operator that may
/// change its operands, and `operands` are the references through which the
/// operator got at each element of `s`: in the round in which the element
/// was paired, or, for the one element of a sequence of one, never.
pub open spec fn spec_mut_reduces_to<F>(
    op: F,
    key: &ServerKey,
    s: Seq<Seq<Block>>,
    r: Seq<Block>,
    operands: Seq<&mut RadixCiphertext>,
) -> bool where
    F: Fn(&ServerKey, &mut RadixCiphertext, &mut RadixCiphertext) -> RadixCiphertext,

    decreases s.len(),
{
    if s.len() == 0 {
        false
    } else if s.len() == 1 {
        r == s[0] && operands.len() == 1
    } else {
        exists|next: Seq<Seq<Block>>, next_operands: Seq<&mut RadixCiphertext>|
            {
                &&& #[trigger] round_calls(op, key, s, operands, next)
                &&& #[trigger] carried_over(s.len(), operands, next_operands)
                &&& spec_mut_reduces_to(op, key, next, r, next_operands)
            }
    }
}

/// Any outcome of the reduction of what a round made of `s` is an outcome of
/// the reduction of `s`.
pub proof fn lemma_round_reduces(
    step: spec_fn(Seq<Block>, Seq<Block>, Seq<Block>) -> bool,
    s: Seq<Seq<Block>>,
    next: Seq<Seq<Block>>,
    r: Seq<Block>,
)
    requires
        s.len() >= 2,
        is_round(step, s, next),
        spec_reduces_to(step, next, r),
    ensures
        spec_reduces_to(step, s, r),
{
}

/// In a reduction of two or more elements, the operator got at every element
/// exactly through the reference that the trace holds for it: the reference
/// pointed at the element as it was, and it was an operand of one call.
pub proof fn lemma_trace_calls_every_operand<F>(
    op: F,
    key: &ServerKey,
    s: Seq<Seq<Block>>,
    r: Seq<Block>,
    operands: Seq<&mut RadixCiphertext>,
    i: int,
) where F: Fn(&ServerKey, &mut RadixCiphertext, &mut RadixCiphertext) -> RadixCiphertext
    requires
        spec_mut_reduces_to(op, key, s, r, operands),
        s.len() >= 2,
        0 <= i < s.len(),
    ensures
        operands.len() == s.len(),
        (*operands[i])@ == s[i],
        exists|x: &mut RadixCiphertext, y: &mut RadixCiphertext, res: RadixCiphertext|
            #[trigger] call_ensures(op, (key, x, y), res) && (x == operands[i] || y == operands[i]),
    decreases s.len(),
{
    let (next, next_operands) = choose|
        next: Seq<Seq<Block>>,
        next_operands: Seq<&mut RadixCiphertext>,
    |
        {
            &&& #[trigger] round_calls(op, key, s, operands, next)
            &&& #[trigger] carried_over(s.len(), operands, next_operands)
            &&& spec_mut_reduces_to(op, key, next, r, next_operands)
        };
    let p = untouched_prefix(s.len());
    if i >= p {
        let j = (i - p) / 2;
        assert(pair_call(op, key, s, operands, next, j));
        assert(i == p + 2 * j || i == p + 2 * j + 1);
    } else {
        lemma_trace_calls_every_operand(op, key, next, r, next_operands, 0);
    }
}

/// An operator and a borrow of it were called in the same ways.
pub proof fn lemma_mut_reduces_by_ref<F>(
    op: F,
    key: &ServerKey,
    s: Seq<Seq<Block>>,
    r: Seq<Block>,
    operands: Seq<&mut RadixCiphertext>,
) where F: Fn(&ServerKey, &mut RadixCiphertext, &mut RadixCiphertext) -> RadixCiphertext
    requires
        spec_mut_reduces_to(&op, key, s, r, operands),
    ensures
        spec_mut_reduces_to(op, key, s, r, operands),
    decreases s.len(),
{
    if s.len() > 1 {
        let (next, next_operands) = choose|
            next: Seq<Seq<Block>>,
            next_operands: Seq<&mut RadixCiphertext>,
        |
            {
                &&& #[trigger] round_calls(&op, key, s, operands, next)
                &&& #[trigger] carried_over(s.len(), operands, next_operands)
                &&& spec_mut_reduces_to(&op, key, next, r, next_operands)
            };
        assert forall|j: int| 0 <= j < s.len() / 2 implies #[trigger] pair_call(
            op,
            key,
            s,
            operands,
            next,
            j,
        ) by {
            assert(pair_call(&op, key, s, operands, next, j));
        }
        lemma_mut_reduces_by_ref(op, key, next, r, next_operands);
        assert(round_calls(op, key, s, operands, next));
        assert(carried_over(s.len(), operands, next_operands));
    }
}

/// What a reduction returned through a given trace of calls is an outcome of
/// the reduction under the operator's relation.
pub proof fn lemma_trace_reduces<F>(
    op: F,
    key: &ServerKey,
    s: Seq<Seq<Block>>,
    r: Seq<Block>,
    operands: Seq<&mut RadixCiphertext>,
) where F: Fn(&ServerKey, &mut RadixCiphertext, &mut RadixCiphertext) -> RadixCiphertext
    requires
        spec_mut_reduces_to(op, key, s, r, operands),
    ensures
        spec_reduces_to(mutating_step(op, key), s, r),
    decreases s.len(),
{
    if s.len() > 1 {
        let step = mutating_step(op, key);
        let (next, next_operands) = choose|
            next: Seq<Seq<Block>>,
            next_operands: Seq<&mut RadixCiphertext>,
        |
            {
                &&& #[trigger] round_calls(op, key, s, operands, next)
                &&& #[trigger] carried_over(s.len(), operands, next_operands)
                &&& spec_mut_reduces_to(op, key, next, r, next_operands)
            };
        assert forall|j: int| 0 <= j < s.len() / 2 implies step(
            #[trigger] pair_left(s, j),
            pair_right(s, j),
            next[untouched_prefix(s.len()) + j],
        ) by {
            assert(pair_call(op, key, s, operands, next, j));
        }
        assert(is_round(step, s, next));
        lemma_trace_reduces(op, key, next, r, next_operands);
    }
}

/// A trace of calls stays one when the reference to the first element, which
/// no call of an odd round got, is exchanged.
pub proof fn lemma_round_calls_ignore_prefix<F>(
    op: F,
    key: &ServerKey,
    s: Seq<Seq<Block>>,
    operands: Seq<&mut RadixCiphertext>,
    next: Seq<Seq<Block>>,
    first: &mut RadixCiphertext,
) where F: Fn(&ServerKey, &mut RadixCiphertext, &mut RadixCiphertext) -> RadixCiphertext
    requires
        s.len() % 2 == 1,
        round_calls(op, key, s, operands, next),
    ensures
        round_calls(op, key, s, operands.update(0, first), next),
{
    let changed = operands.update(0, first);
    assert forall|j: int| 0 <= j < s.len() / 2 implies #[trigger] pair_call(
        op,
        key,
        s,
        changed,
        next,
        j,
    ) by {
        assert(pair_call(op, key, s, operands, next, j));
    }
}

impl ServerKey {
    /// One round of the reduction: leaves the first element where the count
    /// is odd, and replaces every following pair by what the operator
    /// returns on it, each pair on its own task.
    pub fn reduce_round<'a, F>(&self, ct_seq: Vec<CiphertextCow<'a>>, op: &F) -> (next: Vec<
        CiphertextCow<'a>,
    >) where F: Fn(&ServerKey, &RadixCiphertext, &RadixCiphertext) -> RadixCiphertext + Sync
        requires
            ct_seq@.len() >= 2,
            round_callable(borrowing_callable(op, self), cow_views(ct_seq@)),
        ensures
            is_round(borrowing_step(op, self), cow_views(ct_seq@), cow_views(next@)),
    {
        let len: usize = ct_seq.len();
        let half: usize = len / 2;
        // if the number of elements is odd, the first element is skipped
        let untouched_prefix: usize = len % 2;
        let ghost before = cow_views(ct_seq@);
        let ghost step = borrowing_step(op, self);
        let items = &ct_seq;
        let combine = |j: usize| -> (r: RadixCiphertext)
            requires
                j < half,
            ensures
                call_ensures(
                    op,
                    (
                        self,
                        &items@[untouched_prefix + 2 * j].spec_as_ref(),
                        &items@[untouched_prefix + 2 * j + 1].spec_as_ref(),
                    ),
                    r,
                ),
            {
                assert(borrowing_callable(op, self)(
                    pair_left(cow_views(items@), j as int),
                    pair_right(cow_views(items@), j as int),
                ));
                op(
                    self,
                    items[untouched_prefix + 2 * j].as_ref(),
                    items[untouched_prefix + 2 * j + 1].as_ref(),
                )
            };
        let mut results: Vec<RadixCiphertext> = par_tabulate(half, combine);
        proof {
            assert forall|j: int| 0 <= j < half implies step(
                #[trigger] pair_left(before, j),
                pair_right(before, j),
                results@[j]@,
            ) by {
                let ju = j as usize;
                assert(call_ensures(combine, (ju,), results@[ju as int]));
            }
        }
        let ghost combined = results@;
        let mut next = ct_seq;
        next.truncate(untouched_prefix);
        assert(untouched_prefix == 1 ==> cow_views(next@)[0] == before[0]);
        let mut k: usize = 0;
        while k < half
            invariant
                k <= half,
                half == combined.len(),
                results@.len() == half - k,
                next@.len() == untouched_prefix + k,
                untouched_prefix <= 1,
                untouched_prefix == 1 ==> cow_views(next@)[0] == before[0],
                forall|j: int| 0 <= j < half - k ==> results@[j] == combined[k + j],
                forall|j: int|
                    0 <= j < k ==> #[trigger] cow_views(next@)[untouched_prefix + j]
                        == combined[j]@,
            decreases half - k,
        {
            let result = results.remove(0);
            let ghost grown = next@;
            next.push(CiphertextCow::Owned(result));
            assert forall|j: int| 0 <= j < k + 1 implies #[trigger] cow_views(
                next@,
            )[untouched_prefix + j] == combined[j]@ by {
                if j < k {
                    assert(cow_views(grown)[untouched_prefix + j] == combined[j]@);
                }
            }
            k = k + 1;
        }
        proof {
            assert forall|j: int| 0 <= j < half implies step(
                #[trigger] pair_left(before, j),
                pair_right(before, j),
                cow_views(next@)[(before.len() % 2) as int + j],
            ) by {
                assert(cow_views(next@)[untouched_prefix + j] == combined[j]@);
            }
        }
        next
    }

    /// Runs the rounds of a reduction until one element is left.
    pub fn reduce_impl<'a, F>(&self, ct_seq: Vec<CiphertextCow<'a>>, op: &F) -> (r: Option<
        RadixCiphertext,
    >) where F: Fn(&ServerKey, &RadixCiphertext, &RadixCiphertext) -> RadixCiphertext + Sync
        requires
            spec_reducible(
                borrowing_callable(op, self),
                borrowing_step(op, self),
                cow_views(ct_seq@),
            ),
        ensures
            r.is_none() <==> ct_seq@.len() == 0,
            r.is_some() ==> spec_reduces_to(
                borrowing_step(op, self),
                cow_views(ct_seq@),
                r.unwrap()@,
            ),
    {
        if ct_seq.len() == 0 {
            return None;
        }
        let ghost items = cow_views(ct_seq@);
        let ghost callable = borrowing_callable(op, self);
        let ghost step = borrowing_step(op, self);
        let mut ct_seq = ct_seq;
        // every round halves the number of terms, combining consecutive
        // terms of the sequence
        while ct_seq.len() > 1
            invariant
                ct_seq@.len() >= 1,
                callable == borrowing_callable(op, self),
                step == borrowing_step(op, self),
                spec_reducible(callable, step, cow_views(ct_seq@)),
                forall|r: Seq<Block>| #[trigger]
                    spec_reduces_to(step, cow_views(ct_seq@), r) ==> spec_reduces_to(
                        step,
                        items,
                        r,
                    ),
            decreases ct_seq@.len(),
        {
            let ghost before = cow_views(ct_seq@);
            ct_seq = self.reduce_round(ct_seq, op);
            proof {
                let after = cow_views(ct_seq@);
                assert(is_round(step, before, after));
                assert forall|r: Seq<Block>| #[trigger]
                    spec_reduces_to(step, after, r) implies spec_reduces_to(step, items, r) by {
                    lemma_round_reduces(step, before, after, r);
                }
            }
        }
        let ghost last = cow_views(ct_seq@);
        let sum = ct_seq.pop().unwrap();
        let result = match sum {
            CiphertextCow::Borrowed(b) => b.clone(),
            CiphertextCow::Owned(o) => o,
        };
        assert(result@ == last[0]);
        assert(spec_reduces_to(step, last, result@));
        Some(result)
    }

    /// Reduces a sequence of radix integers to one under `op`, which only
    /// borrows its operands. Returns nothing for an empty sequence, and a
    /// copy of the element for a sequence of one. `op` must be associative
    /// for the result not to depend on the pairing.
    pub fn default_binary_op_seq_parallelized<F>(
        &self,
        ct_seq: Vec<&RadixCiphertext>,
        op: F,
    ) -> (r: Option<RadixCiphertext>) where
        F: Fn(&ServerKey, &RadixCiphertext, &RadixCiphertext) -> RadixCiphertext + Sync,

        requires
            spec_reducible(
                borrowing_callable(op, self),
                borrowing_step(op, self),
                ref_views(ct_seq@),
            ),
        ensures
            r.is_none() <==> ct_seq@.len() == 0,
            r.is_some() ==> spec_reduces_to(
                borrowing_step(op, self),
                ref_views(ct_seq@),
                r.unwrap()@,
            ),
            ct_seq@.len() == 1 ==> r.unwrap()@ == ct_seq@[0]@,
    {
        let ghost items = ref_views(ct_seq@);
        let n: usize = ct_seq.len();
        let mut cows: Vec<CiphertextCow> = Vec::with_capacity(n);
        let mut i: usize = 0;
        while i < n
            invariant
                n == ct_seq@.len(),
                i <= n,
                cows@.len() == i,
                forall|j: int| 0 <= j < i ==> #[trigger] cows@[j].spec_as_ref() == *ct_seq@[j],
            decreases n - i,
        {
            cows.push(CiphertextCow::Borrowed(ct_seq[i]));
            i = i + 1;
        }
        proof {
            assert(cow_views(cows@) =~= items);
            assert(borrowing_callable(&op, self) =~= borrowing_callable(op, self));
            assert(borrowing_step(&op, self) =~= borrowing_step(op, self));
        }
        self.reduce_impl(cows, &op)
    }

    /// Calls `op` on copies of two radix integers, and returns what it
    /// returned together with what it left in the two copies.
    pub fn combine_mut<F>(&self, left: &CiphertextCowMut, right: &CiphertextCowMut, op: &F) -> (t: (
        RadixCiphertext,
        RadixCiphertext,
        RadixCiphertext,
    )) where F: Fn(&ServerKey, &mut RadixCiphertext, &mut RadixCiphertext) -> RadixCiphertext
        requires
            mutating_callable(op, self)(left.spec_as_ref()@, right.spec_as_ref()@),
        ensures
            exists|x: &mut RadixCiphertext, y: &mut RadixCiphertext|
                (*x)@ == left.spec_as_ref()@ && (*y)@ == right.spec_as_ref()@ && *final(x) == t.1
                    && *final(y) == t.2 && #[trigger] call_ensures(op, (self, x, y), t.0),
    {
        let mut first = left.as_ref().clone();
        let mut second = right.as_ref().clone();
        let result = op(self, &mut first, &mut second);
        let ghost returned = result;
        let t = (result, first, second);
        assert(t.0 == returned);
        assert(exists|x: &mut RadixCiphertext, y: &mut RadixCiphertext|
            (*x)@ == left.spec_as_ref()@ && (*y)@ == right.spec_as_ref()@ && *final(x) == t.1
                && *final(y) == t.2 && #[trigger] call_ensures(op, (self, x, y), returned));
        t
    }

    /// One round of the reduction under an operator that may change its
    /// operands: leaves the first element where the count is odd, and
    /// replaces every following pair by what the operator returns on it,
    /// each pair on its own task. What the operator left in an operand that
    /// is borrowed from the caller is written back to the caller.
    pub fn smart_reduce_round<'a, F>(&self, ct_seq: Vec<CiphertextCowMut<'a>>, op: &F) -> (next:
        Vec<CiphertextCowMut<'a>>) where
        F: Fn(&ServerKey, &mut RadixCiphertext, &mut RadixCiphertext) -> RadixCiphertext + Sync,

        requires
            ct_seq@.len() >= 2,
            round_callable(mutating_callable(op, self), cow_mut_views(ct_seq@)),
        ensures
            is_round(mutating_step(op, self), cow_mut_views(ct_seq@), cow_mut_views(next@)),
            ct_seq@.len() % 2 == 1 ==> next@[0] == ct_seq@[0],
            (exists|operands: Seq<&mut RadixCiphertext>|
                {
                    &&& #[trigger] round_calls(
                        op,
                        self,
                        cow_mut_views(ct_seq@),
                        operands,
                        cow_mut_views(next@),
                    )
                    &&& forall|i: int, b: &mut RadixCiphertext|
                        ct_seq@.len() % 2 <= i < ct_seq@.len() && #[trigger] is_borrow(
                            ct_seq@[i],
                            b,
                        ) ==> *final(b) == *final(operands[i])
                }),
    {
        let len: usize = ct_seq.len();
        let half: usize = len / 2;
        // if the number of elements is odd, the first element is skipped
        let untouched_prefix: usize = len % 2;
        let ghost orig = ct_seq@;
        let ghost before = cow_mut_views(ct_seq@);
        let ghost step = mutating_step(op, self);
        let items = &ct_seq;
        let combine = |j: usize| -> (t: (RadixCiphertext, RadixCiphertext, RadixCiphertext))
            requires
                j < half,
            ensures
                exists|x: &mut RadixCiphertext, y: &mut RadixCiphertext|
                    (*x)@ == items@[untouched_prefix + 2 * j].spec_as_ref()@ && (*y)@
                        == items@[untouched_prefix + 2 * j + 1].spec_as_ref()@ && *final(x)
                        == t.1 && *final(y) == t.2 && #[trigger] call_ensures(
                        op,
                        (self, x, y),
                        t.0,
                    ),
            {
                assert(mutating_callable(op, self)(
                    pair_left(cow_mut_views(items@), j as int),
                    pair_right(cow_mut_views(items@), j as int),
                ));
                self.combine_mut(
                    &items[untouched_prefix + 2 * j],
                    &items[untouched_prefix + 2 * j + 1],
                    op,
                )
            };
        let mut triples: Vec<(RadixCiphertext, RadixCiphertext, RadixCiphertext)> = par_tabulate(
            half,
            combine,
        );
        let ghost all = triples@;
        proof {
            assert forall|j: int, t: (RadixCiphertext, RadixCiphertext, RadixCiphertext)| #[trigger]
                is_at(all, j, t) implies exists|x: &mut RadixCiphertext, y: &mut RadixCiphertext|
                (*x)@ == orig[untouched_prefix + 2 * j].spec_as_ref()@ && (*y)@
                    == orig[untouched_prefix + 2 * j + 1].spec_as_ref()@ && *final(x) == t.1
                    && *final(y) == t.2 && #[trigger] call_ensures(op, (self, x, y), t.0) by {
                let ju = j as usize;
                assert(call_ensures(combine, (ju,), triples@[ju as int]));
            }
        }
        let mut rest = ct_seq;
        let mut next: Vec<CiphertextCowMut<'a>> = Vec::with_capacity(untouched_prefix + half);
        if untouched_prefix == 1 {
            let first = rest.remove(0);
            next.push(first);
        }
        let mut k: usize = 0;
        while k < half
            invariant
                k <= half,
                half == all.len(),
                len == orig.len(),
                half == len / 2,
                untouched_prefix == len % 2,
                before == cow_mut_views(orig),
                triples@.len() == half - k,
                rest@.len() == len - untouched_prefix - 2 * k,
                next@.len() == untouched_prefix + k,
                untouched_prefix == 1 ==> next@[0] == orig[0],
                forall|j: int| 0 <= j < half - k ==> triples@[j] == all[k + j],
                forall|j: int|
                    0 <= j < rest@.len() ==> rest@[j] == orig[untouched_prefix + 2 * k + j],
                forall|j: int|
                    0 <= j < k ==> #[trigger] cow_mut_views(next@)[untouched_prefix + j]
                        == all[j].0@,
                forall|j: int, t: (RadixCiphertext, RadixCiphertext, RadixCiphertext)| #[trigger]
                    is_at(all, j, t) ==> exists|x: &mut RadixCiphertext, y: &mut RadixCiphertext|
                        (*x)@ == orig[untouched_prefix + 2 * j].spec_as_ref()@ && (*y)@
                            == orig[untouched_prefix + 2 * j + 1].spec_as_ref()@ && *final(x)
                            == t.1 && *final(y) == t.2 && #[trigger] call_ensures(
                            op,
                            (self, x, y),
                            t.0,
                        ),
                forall|i: int, b: &mut RadixCiphertext|
                    untouched_prefix <= i < untouched_prefix + 2 * k && #[trigger] is_borrow(
                        orig[i],
                        b,
                    ) ==> *final(b) == operand_after(all, untouched_prefix as int, i),
            decreases half - k,
        {
            let triple = triples.remove(0);
            let (result, left_after, right_after) = triple;
            let ghost t = all[k as int];
            assert(t.0 == result && t.1 == left_after && t.2 == right_after);
            assert(is_at(all, k as int, t));
            let left = rest.remove(0);
            let right = rest.remove(0);
            assert(left == orig[untouched_prefix + 2 * k]);
            assert(right == orig[untouched_prefix + 2 * k + 1]);
            match left {
                CiphertextCowMut::Borrowed(b) => {
                    *b = left_after;
                },
                CiphertextCowMut::Owned(_) => {},
            }
            match right {
                CiphertextCowMut::Borrowed(b) => {
                    *b = right_after;
                },
                CiphertextCowMut::Owned(_) => {},
            }
            let ghost grown = next@;
            next.push(CiphertextCowMut::Owned(result));
            assert forall|j: int| 0 <= j < k + 1 implies #[trigger] cow_mut_views(
                next@,
            )[untouched_prefix + j] == all[j].0@ by {
                if j < k {
                    assert(cow_mut_views(grown)[untouched_prefix + j] == all[j].0@);
                }
            }
            k = k + 1;
        }
        proof {
            assert forall|j: int| 0 <= j < half implies step(
                #[trigger] pair_left(before, j),
                pair_right(before, j),
                cow_mut_views(next@)[(before.len() % 2) as int + j],
            ) by {
                assert(cow_mut_views(next@)[untouched_prefix + j] == all[j].0@);
                assert(is_at(all, j, all[j]));
            }
            let p = untouched_prefix as int;
            let operands = Seq::new(
                len as nat,
                |i: int|
                    {
                        let j = (i - p) / 2;
                        let pair = choose|x: &mut RadixCiphertext, y: &mut RadixCiphertext|
                            (*x)@ == orig[p + 2 * j].spec_as_ref()@ && (*y)@ == orig[p + 2 * j
                                + 1].spec_as_ref()@ && *final(x) == all[j].1 && *final(y)
                                == all[j].2 && #[trigger] call_ensures(op, (self, x, y), all[j].0);
                        if (i - p) % 2 == 0 {
                            pair.0
                        } else {
                            pair.1
                        }
                    },
            );
            assert forall|j: int| 0 <= j < half implies #[trigger] pair_call(
                op,
                self,
                before,
                operands,
                cow_mut_views(next@),
                j,
            ) by {
                assert(is_at(all, j, all[j]));
                assert(cow_mut_views(next@)[untouched_prefix + j] == all[j].0@);
                assert((p + 2 * j - p) / 2 == j && (p + 2 * j - p) % 2 == 0);
                assert((p + 2 * j + 1 - p) / 2 == j && (p + 2 * j + 1 - p) % 2 == 1);
            }
            assert(round_calls(op, self, before, operands, cow_mut_views(next@)));
            assert forall|i: int, b: &mut RadixCiphertext|
                p <= i < len && #[trigger] is_borrow(orig[i], b) implies *final(b)
                == *final(operands[i]) by {
                let j = (i - p) / 2;
                assert(is_at(all, j, all[j]));
                assert(i == p + 2 * j || i == p + 2 * j + 1);
            }
        }
        next
    }

    /// Runs the rounds of a reduction under an operator that may change its
    /// operands, until one element is left.
    pub fn smart_reduce_impl<'a, F>(&self, ct_seq: Vec<CiphertextCowMut<'a>>, op: &F) -> (r:
        Option<RadixCiphertext>) where
        F: Fn(&ServerKey, &mut RadixCiphertext, &mut RadixCiphertext) -> RadixCiphertext + Sync,

        requires
            spec_reducible(
                mutating_callable(op, self),
                mutating_step(op, self),
                cow_mut_views(ct_seq@),
            ),
        ensures
            r.is_none() <==> ct_seq@.len() == 0,
            r.is_some() ==> spec_reduces_to(
                mutating_step(op, self),
                cow_mut_views(ct_seq@),
                r.unwrap()@,
            ),
            r.is_some() ==> (exists|operands: Seq<&mut RadixCiphertext>|
                {
                    &&& #[trigger] spec_mut_reduces_to(
                        op,
                        self,
                        cow_mut_views(ct_seq@),
                        r.unwrap()@,
                        operands,
                    )
                    &&& forall|i: int, b: &mut RadixCiphertext|
                        0 <= i < ct_seq@.len() && ct_seq@.len() >= 2 && #[trigger] is_borrow(
                            ct_seq@[i],
                            b,
                        ) ==> *final(b) == *final(operands[i])
                }),
            forall|b: &mut RadixCiphertext|
                ct_seq@.len() == 1 && #[trigger] is_borrow(ct_seq@[0], b) ==> *final(b) == *b,
    {
        if ct_seq.len() == 0 {
            return None;
        }
        let ghost orig = ct_seq@;
        let ghost items = cow_mut_views(ct_seq@);
        let ghost callable = mutating_callable(op, self);
        let ghost step = mutating_step(op, self);
        let mut ct_seq = ct_seq;
        // every round halves the number of terms, combining consecutive
        // terms of the sequence
        while ct_seq.len() > 1
            invariant
                ct_seq@.len() >= 1,
                callable == mutating_callable(op, self),
                step == mutating_step(op, self),
                items == cow_mut_views(orig),
                spec_reducible(callable, step, cow_mut_views(ct_seq@)),
                orig.len() == 1 ==> ct_seq@ == orig,
                forall|r: Seq<Block>| #[trigger]
                    spec_reduces_to(step, cow_mut_views(ct_seq@), r) ==> spec_reduces_to(
                        step,
                        items,
                        r,
                    ),
                forall|r: Seq<Block>, held: Seq<&mut RadixCiphertext>|
                    {
                        &&& #[trigger] spec_mut_reduces_to(
                            op,
                            self,
                            cow_mut_views(ct_seq@),
                            r,
                            held,
                        )
                        &&& forall|i: int, b: &mut RadixCiphertext|
                            0 <= i < ct_seq@.len() && #[trigger] is_borrow(ct_seq@[i], b)
                                ==> *final(b) == *final(held[i])
                    } ==> exists|operands: Seq<&mut RadixCiphertext>|
                        {
                            &&& #[trigger] spec_mut_reduces_to(op, self, items, r, operands)
                            &&& forall|i: int, b: &mut RadixCiphertext|
                                0 <= i < orig.len() && orig.len() >= 2 && #[trigger] is_borrow(
                                    orig[i],
                                    b,
                                ) ==> *final(b) == *final(operands[i])
                        },
            decreases ct_seq@.len(),
        {
            let ghost before = cow_mut_views(ct_seq@);
            let ghost seen = ct_seq@;
            ct_seq = self.smart_reduce_round(ct_seq, op);
            proof {
                let after = cow_mut_views(ct_seq@);
                assert(is_round(step, before, after));
                assert forall|r: Seq<Block>| #[trigger]
                    spec_reduces_to(step, after, r) implies spec_reduces_to(step, items, r) by {
                    lemma_round_reduces(step, before, after, r);
                }
                let met = choose|operands: Seq<&mut RadixCiphertext>|
                    {
                        &&& #[trigger] round_calls(op, self, before, operands, after)
                        &&& forall|i: int, b: &mut RadixCiphertext|
                            seen.len() % 2 <= i < seen.len() && #[trigger] is_borrow(seen[i], b)
                                ==> *final(b) == *final(operands[i])
                    };
                assert forall|r: Seq<Block>, held: Seq<&mut RadixCiphertext>|
                    {
                        &&& #[trigger] spec_mut_reduces_to(op, self, after, r, held)
                        &&& forall|i: int, b: &mut RadixCiphertext|
                            0 <= i < ct_seq@.len() && #[trigger] is_borrow(ct_seq@[i], b)
                                ==> *final(b) == *final(held[i])
                    } implies exists|operands: Seq<&mut RadixCiphertext>|
                    {
                        &&& #[trigger] spec_mut_reduces_to(op, self, items, r, operands)
                        &&& forall|i: int, b: &mut RadixCiphertext|
                            0 <= i < orig.len() && orig.len() >= 2 && #[trigger] is_borrow(
                                orig[i],
                                b,
                            ) ==> *final(b) == *final(operands[i])
                    } by {
                    let earlier = if seen.len() % 2 == 1 {
                        met.update(0, held[0])
                    } else {
                        met
                    };
                    if seen.len() % 2 == 1 {
                        lemma_round_calls_ignore_prefix(op, self, before, met, after, held[0]);
                    }
                    assert(round_calls(op, self, before, earlier, after));
                    assert(carried_over(before.len(), earlier, held));
                    assert(spec_mut_reduces_to(op, self, before, r, earlier));
                    assert forall|i: int, b: &mut RadixCiphertext|
                        0 <= i < seen.len() && #[trigger] is_borrow(seen[i], b) implies *final(b)
                        == *final(earlier[i]) by {
                        if i < seen.len() % 2 {
                            assert(is_borrow(ct_seq@[0], b));
                        }
                    }
                }
            }
        }
        let ghost last = ct_seq@;
        proof {
            let r = cow_mut_views(last)[0];
            let held = seq![
                if last[0] is Borrowed {
                    last[0]->Borrowed_0
                } else {
                    arbitrary()
                },
            ];
            assert(spec_mut_reduces_to(op, self, cow_mut_views(last), r, held));
            assert forall|i: int, b: &mut RadixCiphertext|
                0 <= i < last.len() && #[trigger] is_borrow(last[i], b) implies *final(b)
                == *final(held[i]) by {
                assert(b == last[0]->Borrowed_0);
            }
            assert(exists|operands: Seq<&mut RadixCiphertext>|
                {
                    &&& #[trigger] spec_mut_reduces_to(op, self, items, r, operands)
                    &&& forall|i: int, b: &mut RadixCiphertext|
                        0 <= i < orig.len() && orig.len() >= 2 && #[trigger] is_borrow(orig[i], b)
                            ==> *final(b) == *final(operands[i])
                });
        }
        let sum = ct_seq.pop().unwrap();
        let result = match sum {
            CiphertextCowMut::Borrowed(b) => b.clone(),
            CiphertextCowMut::Owned(o) => o,
        };
        assert(result@ == cow_mut_views(last)[0]);
        assert(spec_reduces_to(step, cow_mut_views(last), result@));
        let ghost returned = result@;
        assert(exists|operands: Seq<&mut RadixCiphertext>|
            {
                &&& #[trigger] spec_mut_reduces_to(op, self, items, returned, operands)
                &&& forall|i: int, b: &mut RadixCiphertext|
                    0 <= i < orig.len() && orig.len() >= 2 && #[trigger] is_borrow(orig[i], b)
                        ==> *final(b) == *final(operands[i])
            });
        let out = Some(result);
        assert(out.unwrap()@ == returned);
        out
    }

    /// Reduces a sequence of radix integers to one under `op`, which may
    /// change its operands: a borrowed radix integer holds afterwards what
    /// the one call of `op` that got it left in it. Returns nothing for an
    /// empty sequence, and a copy of the element for a sequence of one, which
    /// stays as it is. `op` must be associative for the result not to depend
    /// on the pairing.
    pub fn smart_binary_op_seq_parallelized<F>(
        &self,
        ct_seq: Vec<&mut RadixCiphertext>,
        op: F,
    ) -> (r: Option<RadixCiphertext>) where
        F: Fn(&ServerKey, &mut RadixCiphertext, &mut RadixCiphertext) -> RadixCiphertext + Sync,

        requires
            spec_reducible(
                mutating_callable(op, self),
                mutating_step(op, self),
                mut_ref_views(ct_seq@),
            ),
        ensures
            r.is_none() <==> ct_seq@.len() == 0,
            r.is_some() ==> spec_reduces_to(
                mutating_step(op, self),
                mut_ref_views(ct_seq@),
                r.unwrap()@,
            ),
            r.is_some() ==> (exists|operands: Seq<&mut RadixCiphertext>|
                {
                    &&& #[trigger] spec_mut_reduces_to(
                        op,
                        self,
                        mut_ref_views(ct_seq@),
                        r.unwrap()@,
                        operands,
                    )
                    &&& forall|i: int|
                        0 <= i < ct_seq@.len() && ct_seq@.len() >= 2 ==> *final(#[trigger] ct_seq@[i])
                            == *final(operands[i])
                }),
            ct_seq@.len() == 1 ==> r.unwrap()@ == (*ct_seq@[0])@ && *final(ct_seq@[0])
                == *ct_seq@[0],
    {
        let ghost orig = ct_seq@;
        let ghost items = mut_ref_views(ct_seq@);
        let n: usize = ct_seq.len();
        let mut refs = ct_seq;
        let mut cows: Vec<CiphertextCowMut> = Vec::with_capacity(n);
        while refs.len() > 0
            invariant
                orig.len() == n,
                cows@.len() + refs@.len() == n,
                forall|j: int| 0 <= j < cows@.len() ==> (#[trigger] cows@[j]) is Borrowed,
                forall|j: int, b: &mut RadixCiphertext|
                    0 <= j < cows@.len() && #[trigger] is_borrow(cows@[j], b) ==> *b == *orig[j]
                        && *final(b) == *final(orig[j]),
                forall|j: int| 0 <= j < refs@.len() ==> refs@[j] == orig[cows@.len() + j],
            decreases refs@.len(),
        {
            let ghost k = cows@.len() as int;
            let ghost wrapped = cows@;
            let b = refs.remove(0);
            assert(b == orig[k]);
            cows.push(CiphertextCowMut::Borrowed(b));
            assert forall|j: int, b: &mut RadixCiphertext|
                0 <= j < cows@.len() && #[trigger] is_borrow(cows@[j], b) implies *b == *orig[j]
                && *final(b) == *final(orig[j]) by {
                if j < k {
                    assert(is_borrow(wrapped[j], b));
                }
            }
        }
        let ghost wrapped = cows@;
        proof {
            assert(cow_mut_views(cows@) =~= items) by {
                assert forall|j: int| 0 <= j < n implies #[trigger] cow_mut_views(cows@)[j]
                    == items[j] by {
                    assert(cows@[j] is Borrowed);
                    assert(is_borrow(cows@[j], cows@[j]->Borrowed_0));
                }
            }
            assert(mutating_callable(&op, self) =~= mutating_callable(op, self));
            assert(mutating_step(&op, self) =~= mutating_step(op, self));
        }
        let r = self.smart_reduce_impl(cows, &op);
        proof {
            if orig.len() == 1 {
                assert(wrapped[0] is Borrowed);
                assert(is_borrow(wrapped[0], wrapped[0]->Borrowed_0));
            }
            if r.is_some() {
                let operands = choose|operands: Seq<&mut RadixCiphertext>|
                    {
                        &&& #[trigger] spec_mut_reduces_to(&op, self, items, r.unwrap()@, operands)
                        &&& forall|i: int, b: &mut RadixCiphertext|
                            0 <= i < wrapped.len() && wrapped.len() >= 2 && #[trigger] is_borrow(
                                wrapped[i],
                                b,
                            ) ==> *final(b) == *final(operands[i])
                    };
                lemma_mut_reduces_by_ref(op, self, items, r.unwrap()@, operands);
                assert forall|i: int|
                    0 <= i < orig.len() && orig.len() >= 2 implies *final(#[trigger] orig[i])
                    == *final(operands[i]) by {
                    assert(wrapped[i] is Borrowed);
                    assert(is_borrow(wrapped[i], wrapped[i]->Borrowed_0));
                }
            }
        }
        r
    }
}

} // verus!
