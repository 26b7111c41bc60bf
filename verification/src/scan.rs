//! The prefix scan over carry statuses, in two forms: one with few rounds
//! and much work, one with little work and twice the rounds.

use crate::block::{tabulated_pair_entry, BivariateLookupTable, Block, EvaluationKey};
use crate::carry::{
    all_statuses,
    carry_in_status,
    is_status,
    lemma_window_agree,
    lemma_window_is_status,
    lemma_window_split,
    merge,
    prefix_sum_carry_propagation,
    window,
};
use crate::parallel::par_tabulate;
use crate::radix::{all_wf, block_values, ServerKey};
use vstd::arithmetic::div_mod::{
    lemma_breakdown,
    lemma_fundamental_div_mod,
    lemma_fundamental_div_mod_converse,
    lemma_mod_bound,
    lemma_small_mod,
};
use vstd::prelude::*;

verus! {

/// Every position holds the merged status of all positions up to it.
pub open spec fn inclusive_scan(st: Seq<int>) -> Seq<int> {
    Seq::new(st.len(), |i: int| window(st, 0, i))
}

/// Every position holds the carry that enters it.
pub open spec fn exclusive_scan(st: Seq<int>) -> Seq<int> {
    Seq::new(st.len(), |i: int| carry_in_status(st, i))
}

/// The lowest position of the window that ends at `i` and spans `space`
/// positions, cut off at 0.
pub open spec fn reach(i: int, space: int) -> int {
    if i - space + 1 > 0 {
        i - space + 1
    } else {
        0
    }
}

/// Every position holds the merged status of the `space` positions that end
/// at it.
pub open spec fn windowed_scan(st: Seq<int>, space: int) -> Seq<int> {
    Seq::new(st.len(), |i: int| window(st, reach(i, space), i))
}

/// One round of the low-latency scan: every position from `space` on merges
/// over the position `space` below it, all read before any is written.
pub open spec fn low_latency_round(cur: Seq<int>, space: int) -> Seq<int> {
    Seq::new(
        cur.len(),
        |i: int|
            if i >= space {
                merge(cur[i], cur[i - space])
            } else {
                cur[i]
            },
    )
}

/// A round of the low-latency scan doubles the span of every window.
pub proof fn lemma_low_latency_round(st: Seq<int>, space: int, next: int)
    requires
        1 <= space,
        next == 2 * space || (next == st.len() && st.len() <= 2 * space),
    ensures
        low_latency_round(windowed_scan(st, space), space) =~= windowed_scan(st, next),
{
    let cur = windowed_scan(st, space);
    assert forall|i: int| 0 <= i < st.len() implies #[trigger] low_latency_round(cur, space)[i]
        == windowed_scan(st, next)[i] by {
        if i >= space {
            lemma_window_split(st, reach(i - space, space), i - space, i);
        }
    }
}

/// A round whose distance reaches past the end finds nothing to merge.
pub proof fn lemma_low_latency_round_past_end(cur: Seq<int>, space: int)
    requires
        space >= cur.len(),
    ensures
        low_latency_round(cur, space) =~= cur,
{
}

/// Windows that span the whole sequence make the inclusive scan.
pub proof fn lemma_windowed_scan_complete(st: Seq<int>, space: int)
    requires
        space >= st.len(),
    ensures
        windowed_scan(st, space) =~= inclusive_scan(st),
{
}

/// Windows of one position are the statuses themselves.
pub proof fn lemma_windowed_scan_start(st: Seq<int>)
    ensures
        windowed_scan(st, 1) =~= st,
{
}

/// `n` is 1, 2, 4, 8, ...
pub open spec fn spec_is_power_of_two(n: int) -> bool
    decreases n,
{
    if n <= 1 {
        n == 1
    } else {
        n % 2 == 0 && spec_is_power_of_two(n / 2)
    }
}

/// Whether `n` is a power of two.
pub fn is_power_of_two(n: usize) -> (r: bool)
    ensures
        r == spec_is_power_of_two(n as int),
{
    let mut m: usize = n;
    while m > 1 && m % 2 == 0
        invariant
            spec_is_power_of_two(m as int) == spec_is_power_of_two(n as int),
        decreases m,
    {
        m = m / 2;
    }
    m == 1
}

/// The size of the largest tree node of at most `h` positions that ends just
/// before position `x`: the largest power of two up to `h` that divides `x`.
pub open spec fn node_size(x: int, h: int) -> int
    decreases h,
{
    if h <= 1 {
        1
    } else if x % h == 0 {
        h
    } else {
        node_size(x, h / 2)
    }
}

/// The array once the up-sweep has built the nodes of up to `h` positions:
/// the last position of every node holds the merged status of the node.
pub open spec fn up_swept(st: Seq<int>, h: int) -> Seq<int> {
    Seq::new(st.len(), |p: int| window(st, p - node_size(p + 1, h) + 1, p))
}

/// One step of the up-sweep: the last position of every node of `2 * half`
/// positions merges over the last position of the node's lower half.
pub open spec fn up_sweep_round(cur: Seq<int>, half: int) -> Seq<int> {
    Seq::new(
        cur.len(),
        |p: int|
            if (p + 1) % (2 * half) == 0 {
                merge(cur[p], cur[p - half])
            } else {
                cur[p]
            },
    )
}

/// The array once the down-sweep has come down to nodes of `h` positions:
/// the last position of every such node holds the carry that enters the
/// node, every other position still holds what the up-sweep left there.
pub open spec fn down_swept(st: Seq<int>, h: int) -> Seq<int> {
    Seq::new(
        st.len(),
        |p: int|
            if (p + 1) % h == 0 {
                carry_in_status(st, p - h + 1)
            } else {
                window(st, p - node_size(p + 1, h) + 1, p)
            },
    )
}

/// One step of the down-sweep on nodes of `stride` positions: the carry into
/// the node goes to its lower half, and the lower half's status merged over
/// that carry goes to its upper half.
pub open spec fn down_sweep_round(cur: Seq<int>, stride: int) -> Seq<int> {
    Seq::new(
        cur.len(),
        |p: int|
            if (p + 1) % stride == 0 {
                merge(cur[p - stride / 2], cur[p])
            } else if (p + 1) % stride == stride / 2 {
                cur[p + stride / 2]
            } else {
                cur[p]
            },
    )
}

/// Twice a power of two is a power of two.
pub proof fn lemma_power_of_two_double(n: int)
    requires
        spec_is_power_of_two(n),
    ensures
        spec_is_power_of_two(2 * n),
{
    assert((2 * n) / 2 == n);
}

/// Between a power of two and its double lies no other power of two.
pub proof fn lemma_power_of_two_next(h: int, n: int)
    requires
        spec_is_power_of_two(h),
        spec_is_power_of_two(n),
        h < n,
    ensures
        2 * h <= n,
    decreases h,
{
    if h > 1 {
        lemma_power_of_two_next(h / 2, n / 2);
    }
}

/// A power of two divides every power of two that is not smaller.
pub proof fn lemma_power_of_two_divides(h: int, n: int)
    requires
        spec_is_power_of_two(h),
        spec_is_power_of_two(n),
        h <= n,
    ensures
        n % h == 0,
    decreases n,
{
    if h == n {
        lemma_fundamental_div_mod_converse(n, h, 1, 0);
    } else {
        lemma_power_of_two_next(h, n);
        lemma_power_of_two_divides(h, n / 2);
        let a = n / 2;
        lemma_fundamental_div_mod(a, h);
        let q = a / h;
        assert(n == (2 * q) * h + 0) by (nonlinear_arith)
            requires
                n == 2 * a,
                a == h * q,
        ;
        lemma_fundamental_div_mod_converse(n, h, 2 * q, 0);
    }
}

/// What `x` leaves modulo `2 * half`, from what it leaves modulo `half`.
pub proof fn lemma_mod_of_double(x: int, half: int)
    requires
        0 <= x,
        1 <= half,
    ensures
        x % half == 0 <==> (x % (2 * half) == 0 || x % (2 * half) == half),
        0 <= x % (2 * half) < 2 * half,
{
    lemma_breakdown(x, half, 2);
    lemma_mod_bound(x, half);
    lemma_mod_bound(x, 2 * half);
    let bit = (x / half) % 2;
    assert(half * 2 == 2 * half);
    assert(half * bit == 0 || half * bit == half) by (nonlinear_arith)
        requires
            bit == 0 || bit == 1,
    ;
}

/// A positive multiple of `h` is at least `h`, and `h` below it lies the
/// multiple before.
pub proof fn lemma_multiple_before(x: int, h: int)
    requires
        0 < x,
        0 < h,
        x % h == 0,
    ensures
        x >= h,
        (x - h) % h == 0,
{
    if x < h {
        lemma_small_mod(x as nat, h as nat);
    }
    lemma_fundamental_div_mod(x, h);
    let q = x / h;
    assert(x - h == (q - 1) * h + 0) by (nonlinear_arith)
        requires
            x == h * q,
    ;
    lemma_fundamental_div_mod_converse(x - h, h, q - 1, 0);
}

/// Half a node below a multiple of `2 * half` lies the middle of that node,
/// and half a node above the middle of a node lies its end.
pub proof fn lemma_middle_of_node(x: int, half: int)
    requires
        0 < x,
        1 <= half,
    ensures
        x % (2 * half) == 0 ==> x >= 2 * half && (x - half) % (2 * half) == half,
        x % (2 * half) == half ==> (x + half) % (2 * half) == 0,
{
    let h = 2 * half;
    lemma_fundamental_div_mod(x, h);
    let q = x / h;
    if x % h == 0 {
        lemma_multiple_before(x, h);
        assert(x - half == (q - 1) * h + half) by (nonlinear_arith)
            requires
                x == h * q,
                h == 2 * half,
        ;
        lemma_fundamental_div_mod_converse(x - half, h, q - 1, half);
    }
    if x % h == half {
        assert(x + half == (q + 1) * h + 0) by (nonlinear_arith)
            requires
                x == h * q + half,
                h == 2 * half,
        ;
        lemma_fundamental_div_mod_converse(x + half, h, q + 1, 0);
    }
}

/// Above a position that is no multiple of `h`, the next multiple of `h` is
/// still within a length that `h` divides.
pub proof fn lemma_next_multiple_within(x: int, h: int, n: int)
    requires
        0 < h,
        0 <= x <= n,
        n % h == 0,
        x % h != 0,
    ensures
        x - x % h + h <= n,
{
    lemma_fundamental_div_mod(x, h);
    lemma_fundamental_div_mod(n, h);
    lemma_mod_bound(x, h);
    let q = x / h;
    let big = n / h;
    assert(q < big) by (nonlinear_arith)
        requires
            x == h * q + x % h,
            n == h * big,
            0 < x % h,
            x <= n,
            0 < h,
    ;
    assert(h * q + h <= h * big) by (nonlinear_arith)
        requires
            q + 1 <= big,
            0 < h,
    ;
}

/// A node of `h` positions that ends just before `x` is the largest there.
pub proof fn lemma_node_size_of_multiple(x: int, h: int)
    requires
        1 <= h,
        x % h == 0,
    ensures
        node_size(x, h) == h,
{
}

/// A step of the up-sweep doubles the size of the nodes that are built.
pub proof fn lemma_up_sweep_round(st: Seq<int>, half: int)
    requires
        1 <= half,
    ensures
        up_sweep_round(up_swept(st, half), half) =~= up_swept(st, 2 * half),
{
    let cur = up_swept(st, half);
    assert forall|p: int| 0 <= p < st.len() implies #[trigger] up_sweep_round(cur, half)[p]
        == up_swept(st, 2 * half)[p] by {
        let x = p + 1;
        assert((2 * half) / 2 == half);
        if x % (2 * half) == 0 {
            lemma_mod_of_double(x, half);
            lemma_multiple_before(x, 2 * half);
            lemma_multiple_before(x, half);
            lemma_node_size_of_multiple(x, half);
            lemma_node_size_of_multiple(x - half, half);
            lemma_window_split(st, p - 2 * half + 1, p - half, p);
        }
    }
}

/// Before the up-sweep every position holds its own status.
pub proof fn lemma_up_sweep_start(st: Seq<int>)
    ensures
        up_swept(st, 1) =~= st,
{
}

/// Once the up-sweep is complete, the status at the root gives way to "no
/// carry", and the down-sweep can start from the whole array as one node.
pub proof fn lemma_down_sweep_start(st: Seq<int>)
    requires
        st.len() >= 1,
    ensures
        up_swept(st, st.len() as int).update(st.len() - 1, 0) =~= down_swept(st, st.len() as int),
{
    let n = st.len() as int;
    assert forall|p: int| 0 <= p < n implies #[trigger] up_swept(st, n).update(n - 1, 0)[p]
        == down_swept(st, n)[p] by {
        if p == n - 1 {
            lemma_fundamental_div_mod_converse(n, n, 1, 0);
        } else {
            lemma_small_mod((p + 1) as nat, n as nat);
        }
    }
}

/// A step of the down-sweep halves the size of the nodes whose incoming
/// carry is known.
pub proof fn lemma_down_sweep_round(st: Seq<int>, half: int)
    requires
        1 <= half,
        (st.len() as int) % (2 * half) == 0,
    ensures
        down_sweep_round(down_swept(st, 2 * half), 2 * half) =~= down_swept(st, half),
{
    let h = 2 * half;
    let n = st.len() as int;
    let cur = down_swept(st, h);
    assert(h / 2 == half);
    assert forall|p: int| 0 <= p < n implies #[trigger] down_sweep_round(cur, h)[p] == down_swept(
        st,
        half,
    )[p] by {
        let x = p + 1;
        lemma_mod_of_double(x, half);
        lemma_middle_of_node(x, half);
        if x % h == 0 {
            let k = x - h;
            lemma_mod_of_double(x - half, half);
            lemma_node_size_of_multiple(x - half, half);
            assert(cur[p - half] == window(st, k, p - half));
            assert(cur[p] == carry_in_status(st, k));
            if k > 0 {
                lemma_window_split(st, 0, k - 1, p - half);
            }
        } else if x % h == half {
            lemma_next_multiple_within(x, h, n);
            assert(cur[p + half] == carry_in_status(st, p - half + 1));
        }
    }
}

/// When the down-sweep has come down to single positions, every position
/// holds the carry that enters it.
pub proof fn lemma_down_sweep_complete(st: Seq<int>)
    ensures
        down_swept(st, 1) =~= exclusive_scan(st),
{
    assert forall|p: int| 0 <= p < st.len() implies #[trigger] down_swept(st, 1)[p]
        == exclusive_scan(st)[p] by {
        assert((p + 1) % 1 == 0);
    }
}

/// A node that ends just before `x` has at least one position and at most `x`.
pub proof fn lemma_node_size_bounds(x: int, h: int)
    requires
        1 <= x,
        1 <= h,
    ensures
        1 <= node_size(x, h) <= x,
    decreases h,
{
    if h > 1 {
        if x % h == 0 {
            lemma_multiple_before(x, h);
        } else {
            lemma_node_size_bounds(x, h / 2);
        }
    }
}

/// Every position of a down-swept array holds a status.
pub proof fn lemma_down_swept_statuses(st: Seq<int>, h: int)
    requires
        all_statuses(st),
        1 <= h,
    ensures
        all_statuses(down_swept(st, h)),
{
    assert forall|p: int| 0 <= p < st.len() implies is_status(#[trigger] down_swept(st, h)[p]) by {
        if (p + 1) % h == 0 {
            lemma_multiple_before(p + 1, h);
            if p - h + 1 > 0 {
                lemma_window_is_status(st, 0, p - h);
            }
        } else {
            lemma_node_size_bounds(p + 1, h);
            lemma_window_is_status(st, p - node_size(p + 1, h) + 1, p);
        }
    }
}

/// The number of carry statuses, and the factor with which the merge table
/// packs a pair of them.
pub const CARRY_STATUSES: u64 = 3;

/// The table packs a pair of statuses with the number of statuses and
/// merges any two of them.
pub open spec fn is_merge_table(key: &ServerKey, lut: &BivariateLookupTable) -> bool {
    &&& lut.right_modulus == CARRY_STATUSES
    &&& forall|a: int, b: int|
        is_status(a) && is_status(b) ==> lut.table.entries@[#[trigger] EvaluationKey::spec_packed(
            CARRY_STATUSES as int,
            a,
            b,
        )] == merge(a, b)
}

/// A pair of statuses packs into a value below the total modulus, from which
/// both can be read back.
pub proof fn lemma_status_pair_fits(key: &ServerKey, a: int, b: int)
    requires
        key.wf(),
        key.spec_is_eligible_for_parallel_carryless_add(),
        is_status(a),
        is_status(b),
    ensures
        b < CARRY_STATUSES,
        0 <= EvaluationKey::spec_packed(CARRY_STATUSES as int, a, b)
            < key.key.spec_total_modulus(),
        EvaluationKey::spec_packed(CARRY_STATUSES as int, a, b) / (CARRY_STATUSES as int) == a,
        EvaluationKey::spec_packed(CARRY_STATUSES as int, a, b) % (CARRY_STATUSES as int) == b,
{
    lemma_fundamental_div_mod_converse(a * 3 + b, 3, a, b);
}

impl ServerKey {
    /// The table of the merge operator on carry statuses. A pair of statuses
    /// is packed with the number of statuses, not with the message modulus,
    /// so that it fits below every total modulus of four bits.
    pub fn carry_propagation_table(&self) -> (lut: BivariateLookupTable)
        requires
            self.wf(),
        ensures
            lut.wf(&self.key),
            lut.right_modulus == CARRY_STATUSES,
            self.spec_is_eligible_for_parallel_carryless_add() ==> is_merge_table(self, &lut),
    {
        let lut = self.key.generate_accumulator_bivariate_with_factor(
            prefix_sum_carry_propagation,
            CARRY_STATUSES,
        );
        proof {
            if self.spec_is_eligible_for_parallel_carryless_add() {
                self.lemma_merge_table(&lut);
            }
        }
        lut
    }

    /// A table that tabulates the merge operator merges any two statuses,
    /// where the total modulus has four bits.
    pub proof fn lemma_merge_table(&self, lut: &BivariateLookupTable)
        requires
            self.wf(),
            self.spec_is_eligible_for_parallel_carryless_add(),
            lut.wf(&self.key),
            lut.right_modulus == CARRY_STATUSES,
            forall|x: u64|
                x < self.key.spec_total_modulus() ==> tabulated_pair_entry(
                    prefix_sum_carry_propagation,
                    x / CARRY_STATUSES,
                    x % CARRY_STATUSES,
                    self.key.spec_total_modulus() as u64,
                    #[trigger] lut.table.entries@[x as int],
                ),
        ensures
            is_merge_table(self, lut),
    {
        let total = self.key.spec_total_modulus() as u64;
        assert forall|a: int, b: int| is_status(a) && is_status(b) implies lut.table.entries@[
        #[trigger] EvaluationKey::spec_packed(CARRY_STATUSES as int, a, b)] == merge(a, b) by {
            lemma_status_pair_fits(self, a, b);
            let x = EvaluationKey::spec_packed(CARRY_STATUSES as int, a, b) as u64;
            let e = lut.table.entries@[x as int];
            let left = x / CARRY_STATUSES;
            let right = x % CARRY_STATUSES;
            assert(tabulated_pair_entry(prefix_sum_carry_propagation, left, right, total, e));
            let y = choose|y: u64|
                call_ensures(prefix_sum_carry_propagation, (left, right), y) && e == y % total;
            assert(y == merge(a, b));
            lemma_small_mod(y as nat, total as nat);
        }
    }

    /// The blocks are well-formed and each holds a carry status.
    pub open spec fn spec_holds_statuses(&self, s: Seq<Block>) -> bool {
        &&& all_wf(s, &self.key)
        &&& all_statuses(block_values(s))
    }

    /// Merges the status in `msb` over the status in `lsb` with one lookup.
    pub fn merge_statuses(&self, msb: &Block, lsb: &Block, lut: &BivariateLookupTable) -> (r: Block)
        requires
            self.wf(),
            self.spec_is_eligible_for_parallel_carryless_add(),
            msb.wf(&self.key),
            lsb.wf(&self.key),
            is_status(msb.value as int),
            is_status(lsb.value as int),
            lut.wf(&self.key),
            is_merge_table(self, lut),
        ensures
            r == self.key.spec_block(merge(msb.value as int, lsb.value as int)),
            r.wf(&self.key),
            is_status(r.value as int),
    {
        proof {
            lemma_status_pair_fits(self, msb.value as int, lsb.value as int);
        }
        self.key.unchecked_apply_lookup_table_bivariate(msb, lsb, lut)
    }

    /// One round of the low-latency scan, every merge on its own task. The
    /// round reads `current` and writes a new array, so no merge sees the
    /// result of another.
    pub fn low_latency_round(
        &self,
        current: &Vec<Block>,
        space: usize,
        lut: &BivariateLookupTable,
    ) -> (out: Vec<Block>)
        requires
            self.wf(),
            self.spec_holds_statuses(current@),
            lut.wf(&self.key),
            self.spec_is_eligible_for_parallel_carryless_add(),
            is_merge_table(self, lut),
            space >= 1,
        ensures
            out@.len() == current@.len(),
            block_values(out@) == low_latency_round(block_values(current@), space as int),
            self.spec_holds_statuses(out@),
    {
        let n: usize = current.len();
        let step = |i: usize| -> (b: Block)
            requires
                i < n,
            ensures
                b.wf(&self.key),
                b.value == low_latency_round(block_values(current@), space as int)[i as int],
            {
                assert(current@[i as int].wf(&self.key));
                assert(is_status(block_values(current@)[i as int]));
                if i >= space {
                    assert(current@[i - space].wf(&self.key));
                    assert(is_status(block_values(current@)[i - space]));
                    self.merge_statuses(&current[i], &current[i - space], lut)
                } else {
                    current[i]
                }
            };
        let out = par_tabulate(n, step);
        proof {
            let cur = block_values(current@);
            assert forall|i: int| 0 <= i < n implies (#[trigger] out@[i]).wf(&self.key)
                && out@[i].value == low_latency_round(cur, space as int)[i] by {
                let iu = i as usize;
                assert(call_ensures(step, (iu,), out@[iu as int]));
            }
            assert(block_values(out@) =~= low_latency_round(cur, space as int));
            assert forall|i: int| 0 <= i < n implies is_status(#[trigger] block_values(out@)[i]) by {
                assert(is_status(cur[i]));
                if i >= space {
                    assert(is_status(cur[i - space]));
                }
            }
        }
        out
    }

    /// The inclusive scan of the statuses: afterwards every block holds the
    /// merged status of all blocks up to it. Each round doubles the distance
    /// over which statuses have been merged; the last round, whose distance
    /// reaches the length, finds nothing left to merge.
    pub fn low_latency_scan(&self, statuses: Vec<Block>, lut: &BivariateLookupTable) -> (out: Vec<
        Block,
    >)
        requires
            self.wf(),
            self.spec_holds_statuses(statuses@),
            lut.wf(&self.key),
            self.spec_is_eligible_for_parallel_carryless_add(),
            is_merge_table(self, lut),
        ensures
            out@.len() == statuses@.len(),
            block_values(out@) == inclusive_scan(block_values(statuses@)),
            self.spec_holds_statuses(out@),
    {
        let n: usize = statuses.len();
        let ghost st = block_values(statuses@);
        let mut carry_out = statuses;
        let mut space: usize = 1;
        proof {
            lemma_windowed_scan_start(st);
        }
        while space < n
            invariant
                self.wf(),
                lut.wf(&self.key),
                self.spec_is_eligible_for_parallel_carryless_add(),
                is_merge_table(self, lut),
                st.len() == n,
                carry_out@.len() == n,
                all_statuses(st),
                1 <= space,
                self.spec_holds_statuses(carry_out@),
                block_values(carry_out@) == windowed_scan(st, space as int),
            decreases n - space,
        {
            let next: usize = if space < n - space {
                2 * space
            } else {
                n
            };
            proof {
                lemma_low_latency_round(st, space as int, next as int);
            }
            carry_out = self.low_latency_round(&carry_out, space, lut);
            space = next;
        }
        proof {
            lemma_windowed_scan_complete(st, space as int);
            lemma_low_latency_round_past_end(block_values(carry_out@), space as int);
        }
        carry_out = self.low_latency_round(&carry_out, space, lut);
        carry_out
    }

    /// One step of the up-sweep, every merge on its own task. Each task
    /// writes one position of the new array, so no two tasks share a slot.
    pub fn up_sweep_round(
        &self,
        current: &Vec<Block>,
        half: usize,
        lut: &BivariateLookupTable,
    ) -> (out: Vec<Block>)
        requires
            self.wf(),
            self.spec_is_eligible_for_parallel_carryless_add(),
            self.spec_holds_statuses(current@),
            lut.wf(&self.key),
            is_merge_table(self, lut),
            half >= 1,
            2 * half <= current@.len(),
        ensures
            out@.len() == current@.len(),
            block_values(out@) == up_sweep_round(block_values(current@), half as int),
            self.spec_holds_statuses(out@),
    {
        let n: usize = current.len();
        let stride: usize = 2 * half;
        let step = |p: usize| -> (b: Block)
            requires
                p < n,
            ensures
                b.wf(&self.key),
                b.value == up_sweep_round(block_values(current@), half as int)[p as int],
            {
                assert(current@[p as int].wf(&self.key));
                assert(is_status(block_values(current@)[p as int]));
                if (p + 1) % stride == 0 {
                    proof {
                        lemma_multiple_before(p + 1, stride as int);
                    }
                    assert(current@[p - half].wf(&self.key));
                    assert(is_status(block_values(current@)[p - half]));
                    self.merge_statuses(&current[p], &current[p - half], lut)
                } else {
                    current[p]
                }
            };
        let out = par_tabulate(n, step);
        proof {
            let cur = block_values(current@);
            assert forall|p: int| 0 <= p < n implies (#[trigger] out@[p]).wf(&self.key)
                && out@[p].value == up_sweep_round(cur, half as int)[p] by {
                let pu = p as usize;
                assert(call_ensures(step, (pu,), out@[pu as int]));
            }
            assert(block_values(out@) =~= up_sweep_round(cur, half as int));
            assert forall|p: int| 0 <= p < n implies is_status(#[trigger] block_values(out@)[p]) by {
                assert(is_status(cur[p]));
                if (p + 1) % (2 * half) == 0 {
                    lemma_multiple_before(p + 1, 2 * half);
                    assert(is_status(cur[p - half]));
                }
            }
        }
        out
    }

    /// One step of the down-sweep on nodes of `stride` positions, every
    /// merge on its own task. The operands keep their order: the status of
    /// the lower half is merged over the carry that enters the node.
    pub fn down_sweep_round(
        &self,
        current: &Vec<Block>,
        stride: usize,
        lut: &BivariateLookupTable,
    ) -> (out: Vec<Block>)
        requires
            self.wf(),
            self.spec_is_eligible_for_parallel_carryless_add(),
            self.spec_holds_statuses(current@),
            lut.wf(&self.key),
            is_merge_table(self, lut),
            stride >= 2,
            stride % 2 == 0,
            current@.len() % (stride as nat) == 0,
        ensures
            out@.len() == current@.len(),
            block_values(out@) == down_sweep_round(block_values(current@), stride as int),
            self.spec_holds_statuses(out@),
    {
        let n: usize = current.len();
        let half: usize = stride / 2;
        let step = |p: usize| -> (b: Block)
            requires
                p < n,
            ensures
                b.wf(&self.key),
                is_status(b.value as int),
                b.value == down_sweep_round(block_values(current@), stride as int)[p as int],
            {
                assert(current@[p as int].wf(&self.key));
                assert(is_status(block_values(current@)[p as int]));
                let r: usize = (p + 1) % stride;
                if r == 0 {
                    proof {
                        lemma_multiple_before(p + 1, stride as int);
                    }
                    assert(current@[p - half].wf(&self.key));
                    assert(is_status(block_values(current@)[p - half]));
                    self.merge_statuses(&current[p - half], &current[p], lut)
                } else if r == half {
                    proof {
                        lemma_next_multiple_within(p + 1, stride as int, n as int);
                    }
                    assert(current@[p + half].wf(&self.key));
                    assert(is_status(block_values(current@)[p + half]));
                    current[p + half]
                } else {
                    current[p]
                }
            };
        let out = par_tabulate(n, step);
        proof {
            let cur = block_values(current@);
            assert forall|p: int| 0 <= p < n implies (#[trigger] out@[p]).wf(&self.key)
                && out@[p].value == down_sweep_round(cur, stride as int)[p] && is_status(
                out@[p].value as int,
            ) by {
                let pu = p as usize;
                assert(call_ensures(step, (pu,), out@[pu as int]));
            }
            assert(block_values(out@) =~= down_sweep_round(cur, stride as int));
        }
        out
    }

    /// The exclusive scan of a complete tree of statuses, seeded with "no
    /// carry": afterwards every block holds the carry that enters it. The
    /// length has to be a power of two.
    pub fn complete_tree_scan(&self, statuses: Vec<Block>, lut: &BivariateLookupTable) -> (out:
        Vec<Block>)
        requires
            self.wf(),
            self.spec_holds_statuses(statuses@),
            lut.wf(&self.key),
            self.spec_is_eligible_for_parallel_carryless_add(),
            is_merge_table(self, lut),
            spec_is_power_of_two(statuses@.len() as int),
        ensures
            out@.len() == statuses@.len(),
            block_values(out@) == exclusive_scan(block_values(statuses@)),
            self.spec_holds_statuses(out@),
    {
        let n: usize = statuses.len();
        let ghost st = block_values(statuses@);
        let mut carry_out = statuses;
        // Up-sweep phase
        let mut half: usize = 1;
        proof {
            lemma_up_sweep_start(st);
        }
        while half < n
            invariant
                self.wf(),
                lut.wf(&self.key),
                self.spec_is_eligible_for_parallel_carryless_add(),
                is_merge_table(self, lut),
                st.len() == n,
                all_statuses(st),
                spec_is_power_of_two(n as int),
                spec_is_power_of_two(half as int),
                1 <= half <= n,
                carry_out@.len() == n,
                self.spec_holds_statuses(carry_out@),
                block_values(carry_out@) == up_swept(st, half as int),
            decreases n - half,
        {
            proof {
                lemma_power_of_two_next(half as int, n as int);
                lemma_power_of_two_double(half as int);
                lemma_up_sweep_round(st, half as int);
            }
            carry_out = self.up_sweep_round(&carry_out, half, lut);
            half = 2 * half;
        }
        // Down-sweep phase
        let zero = self.key.create_trivial(0);
        assert(zero.value == 0) by {
            lemma_small_mod(0, self.key.message_modulus as nat);
        }
        carry_out.set(n - 1, zero);
        proof {
            lemma_down_sweep_start(st);
            assert(block_values(carry_out@) =~= up_swept(st, n as int).update(n - 1, 0));
            lemma_down_swept_statuses(st, n as int);
        }
        let mut stride: usize = n;
        while stride > 1
            invariant
                self.wf(),
                lut.wf(&self.key),
                self.spec_is_eligible_for_parallel_carryless_add(),
                is_merge_table(self, lut),
                st.len() == n,
                all_statuses(st),
                spec_is_power_of_two(n as int),
                spec_is_power_of_two(stride as int),
                1 <= stride <= n,
                carry_out@.len() == n,
                all_wf(carry_out@, &self.key),
                block_values(carry_out@) == down_swept(st, stride as int),
            decreases stride,
        {
            proof {
                lemma_power_of_two_divides(stride as int, n as int);
                lemma_down_sweep_round(st, (stride / 2) as int);
                lemma_down_swept_statuses(st, stride as int);
                lemma_down_swept_statuses(st, (stride / 2) as int);
            }
            carry_out = self.down_sweep_round(&carry_out, stride, lut);
            stride = stride / 2;
        }
        proof {
            lemma_down_sweep_complete(st);
            lemma_down_swept_statuses(st, 1);
        }
        carry_out
    }
    /// The exclusive scan of the statuses, seeded with "no carry":
    /// afterwards every block holds the carry that enters it. The scan runs
    /// on a complete tree: where the length is no power of two, the array is
    /// filled up to the next one with "no carry" at the upper end, which no
    /// carry into a lower position depends on, and cut back afterwards.
    pub fn work_efficient_scan(&self, statuses: Vec<Block>, lut: &BivariateLookupTable) -> (out:
        Vec<Block>)
        requires
            self.wf(),
            self.spec_holds_statuses(statuses@),
            lut.wf(&self.key),
            self.spec_is_eligible_for_parallel_carryless_add(),
            is_merge_table(self, lut),
        ensures
            out@.len() == statuses@.len(),
            block_values(out@) == exclusive_scan(block_values(statuses@)),
            self.spec_holds_statuses(out@),
    {
        let n: usize = statuses.len();
        let ghost given = statuses@;
        let ghost st = block_values(given);
        let zero = self.key.create_trivial(0);
        assert(zero.value == 0) by {
            lemma_small_mod(0, self.key.message_modulus as nat);
        }
        let mut tree = statuses;
        while !is_power_of_two(tree.len())
            invariant
                self.wf(),
                zero.wf(&self.key),
                zero.value == 0,
                tree@.len() >= n,
                n == given.len(),
                self.spec_holds_statuses(tree@),
                forall|i: int| 0 <= i < n ==> tree@[i] == given[i],
            decreases usize::MAX - tree@.len(),
        {
            let ghost before = tree@;
            tree.push(zero);
            assert forall|i: int| 0 <= i < tree@.len() implies (#[trigger] tree@[i]).wf(
                &self.key,
            ) && is_status(block_values(tree@)[i]) by {
                if i < before.len() {
                    assert(before[i].wf(&self.key));
                    assert(is_status(block_values(before)[i]));
                }
            }
            assert(tree.len() <= usize::MAX);
        }
        let ghost padded = block_values(tree@);
        let mut out = self.complete_tree_scan(tree, lut);
        let ghost scanned = out@;
        out.truncate(n);
        proof {
            assert forall|i: int| 0 <= i < n implies #[trigger] block_values(out@)[i]
                == exclusive_scan(st)[i] by {
                assert(block_values(scanned)[i] == carry_in_status(padded, i));
                if i > 0 {
                    assert forall|j: int| 0 <= j <= i - 1 implies padded[j] == st[j] by {
                        assert(tree@.len() >= n);
                    }
                    lemma_window_agree(padded, st, 0, i - 1);
                }
            }
            assert(block_values(out@) =~= exclusive_scan(st));
            assert forall|i: int| 0 <= i < n implies (#[trigger] out@[i]).wf(&self.key)
                && is_status(block_values(out@)[i]) by {
                assert(scanned[i].wf(&self.key));
                assert(is_status(block_values(scanned)[i]));
            }
        }
        out
    }
}

} // verus!
