//! The linear panel's growth distribution: given the panel's available
//! primary-axis extent and each child's desired extent and growth policy,
//! assign every child a final primary extent.
//!
//! Children are bucketed by growth. When there is no slack, every child gets
//! exactly its desired extent (overflow is permitted). When slack exists and
//! some child fills, weighted children are folded into the fit bucket and
//! the filling children split all slack. Only when every child is fitted do
//! the fitted children absorb the slack themselves. Integer slack is split
//! without loss: a share's remainder goes to the earliest children, and
//! weighted shares are cumulative-rounded, so the assigned extents always
//! sum to exactly `max(available, required)`.

use vstd::prelude::*;
use vstd::arithmetic::div_mod::{
    lemma_fundamental_div_mod, lemma_mod_division_less_than_divisor, lemma_div_of0,
    lemma_div_is_ordered, lemma_div_pos_is_pos, lemma_div_multiples_vanish, lemma_div_nonincreasing,
};
use vstd::arithmetic::mul::lemma_mul_inequality;
use crate::geometry::{MAX_DESIRED, MAX_SIZE, TREE_CAP};
use crate::layout::Growth;

verus! {

/// One linear panel child as the distribution algorithm sees it: its
/// desired primary extent and its growth policy.
#[derive(Clone, Copy, PartialEq, Eq, Structural, Debug)]
pub struct LinearEntry {
    pub desired: i64,
    pub growth: Growth,
}

pub open spec fn entry_ok(e: LinearEntry) -> bool {
    0 <= e.desired <= MAX_DESIRED
}

pub open spec fn entries_ok(s: Seq<LinearEntry>) -> bool {
    &&& s.len() <= TREE_CAP
    &&& forall|i: int| 0 <= i < s.len() ==> entry_ok(#[trigger] s[i])
}

/// Sum of desired extents of the first `n` entries.
pub open spec fn sum_desired_prefix(s: Seq<LinearEntry>, n: int) -> int
    decreases n,
{
    if n <= 0 {
        0
    } else {
        sum_desired_prefix(s, n - 1) + s[n - 1].desired
    }
}

/// The space the children ask for together.
pub open spec fn spec_required(s: Seq<LinearEntry>) -> int {
    sum_desired_prefix(s, s.len() as int)
}

/// Number of `Fill` entries among the first `n`.
pub open spec fn count_fill_prefix(s: Seq<LinearEntry>, n: int) -> int
    decreases n,
{
    if n <= 0 {
        0
    } else {
        count_fill_prefix(s, n - 1) + if s[n - 1].growth is Fill { 1int } else { 0 }
    }
}

pub open spec fn count_fill(s: Seq<LinearEntry>) -> int {
    count_fill_prefix(s, s.len() as int)
}

pub open spec fn weight_of(g: Growth) -> int {
    match g {
        Growth::Val(w) => w as int,
        _ => 0,
    }
}

/// Sum of weights of `Val` entries among the first `n`.
pub open spec fn weight_prefix(s: Seq<LinearEntry>, n: int) -> int
    decreases n,
{
    if n <= 0 {
        0
    } else {
        weight_prefix(s, n - 1) + weight_of(s[n - 1].growth)
    }
}

pub open spec fn total_weight(s: Seq<LinearEntry>) -> int {
    weight_prefix(s, s.len() as int)
}

/// The slack left after every child's desired extent is granted.
pub open spec fn spec_avail(s: Seq<LinearEntry>, a: int) -> int {
    a - spec_required(s)
}

/// The slack granted to entry `i` on top of its desired extent.
///
/// With no slack nothing is granted. With slack and at least one `Fill`
/// child, the filling children split the slack evenly by fill rank, the
/// earliest taking the remainder. Otherwise weighted children split the
/// slack by cumulative-rounded weight. Otherwise every child is fitted and
/// they split the slack evenly by position.
pub open spec fn spec_extra(s: Seq<LinearEntry>, a: int, i: int) -> int {
    let av = spec_avail(s, a);
    if av <= 0 {
        0
    } else if count_fill(s) > 0 {
        if s[i].growth is Fill {
            av / count_fill(s)
                + if count_fill_prefix(s, i) < av % count_fill(s) { 1int } else { 0 }
        } else {
            0
        }
    } else if total_weight(s) > 0 {
        match s[i].growth {
            Growth::Val(_) => av * weight_prefix(s, i + 1) / total_weight(s)
                - av * weight_prefix(s, i) / total_weight(s),
            _ => 0,
        }
    } else {
        av / s.len() as int + if i < av % s.len() as int { 1int } else { 0 }
    }
}

/// The final primary extent assigned to entry `i`.
pub open spec fn spec_extent(s: Seq<LinearEntry>, a: int, i: int) -> int {
    s[i].desired + spec_extra(s, a, i)
}

/// Sum of the extents assigned to the first `n` entries.
pub open spec fn sum_extents_prefix(s: Seq<LinearEntry>, a: int, n: int) -> int
    decreases n,
{
    if n <= 0 {
        0
    } else {
        sum_extents_prefix(s, a, n - 1) + spec_extent(s, a, n - 1)
    }
}

proof fn lemma_sum_desired_bounds(s: Seq<LinearEntry>, n: int)
    requires
        entries_ok(s),
        0 <= n <= s.len(),
    ensures
        0 <= sum_desired_prefix(s, n) <= n * MAX_DESIRED,
    decreases n,
{
    if n > 0 {
        lemma_sum_desired_bounds(s, n - 1);
        assert((n - 1) * MAX_DESIRED + MAX_DESIRED == n * MAX_DESIRED) by (nonlinear_arith);
    }
}

/// Bounds on the requirement of a well-formed entry sequence.
pub proof fn lemma_required_bounds(s: Seq<LinearEntry>)
    requires
        entries_ok(s),
    ensures
        0 <= spec_required(s) <= MAX_SIZE,
{
    lemma_sum_desired_bounds(s, s.len() as int);
    assert(s.len() as int * MAX_DESIRED <= TREE_CAP * MAX_DESIRED) by (nonlinear_arith)
        requires s.len() <= TREE_CAP;
}

proof fn lemma_count_fill_bounds(s: Seq<LinearEntry>, n: int)
    requires
        0 <= n <= s.len(),
    ensures
        0 <= count_fill_prefix(s, n) <= n,
    decreases n,
{
    if n > 0 {
        lemma_count_fill_bounds(s, n - 1);
    }
}

proof fn lemma_weight_prefix_nonneg(s: Seq<LinearEntry>, n: int)
    ensures
        0 <= weight_prefix(s, n),
    decreases n,
{
    if n > 0 {
        lemma_weight_prefix_nonneg(s, n - 1);
    }
}

proof fn lemma_weight_prefix_monotone(s: Seq<LinearEntry>, m: int, n: int)
    requires
        0 <= m <= n,
    ensures
        0 <= weight_prefix(s, m) <= weight_prefix(s, n),
    decreases n,
{
    lemma_weight_prefix_nonneg(s, m);
    if n > 0 && m <= n - 1 {
        lemma_weight_prefix_monotone(s, m, n - 1);
    }
}

/// With no slack, every entry keeps exactly its desired extent.
proof fn lemma_sum_no_slack(s: Seq<LinearEntry>, a: int, n: int)
    requires
        spec_avail(s, a) <= 0,
        0 <= n <= s.len(),
    ensures
        sum_extents_prefix(s, a, n) == sum_desired_prefix(s, n),
    decreases n,
{
    if n > 0 {
        lemma_sum_no_slack(s, a, n - 1);
    }
}

/// With slack and filling children present, the extents of the first `n`
/// entries exceed their desired sum by exactly the shares handed to the
/// fills seen so far.
proof fn lemma_sum_fill(s: Seq<LinearEntry>, a: int, n: int)
    requires
        spec_avail(s, a) > 0,
        count_fill(s) > 0,
        0 <= n <= s.len(),
    ensures
        sum_extents_prefix(s, a, n) == sum_desired_prefix(s, n)
            + count_fill_prefix(s, n) * (spec_avail(s, a) / count_fill(s))
            + (if count_fill_prefix(s, n) <= spec_avail(s, a) % count_fill(s) {
                count_fill_prefix(s, n)
            } else {
                spec_avail(s, a) % count_fill(s)
            }),
    decreases n,
{
    lemma_mod_division_less_than_divisor(spec_avail(s, a), count_fill(s));
    if n > 0 {
        lemma_sum_fill(s, a, n - 1);
        lemma_count_fill_bounds(s, n - 1);
        let av = spec_avail(s, a);
        let nf = count_fill(s);
        let k0 = count_fill_prefix(s, n - 1);
        let k1 = count_fill_prefix(s, n);
        if s[n - 1].growth is Fill {
            assert(k1 == k0 + 1);
            let q = av / nf;
            assert(k1 * q == k0 * q + q) by (nonlinear_arith)
                requires k1 == k0 + 1;
        } else {
            assert(k1 == k0);
        }
    }
}

/// With slack, no fills, and positive total weight, the extents of the
/// first `n` entries exceed their desired sum by the cumulative-rounded
/// weighted share.
proof fn lemma_sum_val(s: Seq<LinearEntry>, a: int, n: int)
    requires
        spec_avail(s, a) > 0,
        count_fill(s) == 0,
        total_weight(s) > 0,
        0 <= n <= s.len(),
    ensures
        sum_extents_prefix(s, a, n) == sum_desired_prefix(s, n)
            + spec_avail(s, a) * weight_prefix(s, n) / total_weight(s),
    decreases n,
{
    let av = spec_avail(s, a);
    let w = total_weight(s);
    if n <= 0 {
        assert(av * 0 == 0) by (nonlinear_arith);
        lemma_div_of0(w);
    } else {
        lemma_sum_val(s, a, n - 1);
        match s[n - 1].growth {
            Growth::Val(_) => {},
            _ => {
                assert(weight_prefix(s, n) == weight_prefix(s, n - 1));
            },
        }
    }
}

/// With slack and every entry fitted, the extents of the first `n` entries
/// exceed their desired sum by the evenly split shares of positions below
/// `n`.
proof fn lemma_sum_fit(s: Seq<LinearEntry>, a: int, n: int)
    requires
        spec_avail(s, a) > 0,
        count_fill(s) == 0,
        total_weight(s) == 0,
        s.len() > 0,
        0 <= n <= s.len(),
    ensures
        sum_extents_prefix(s, a, n) == sum_desired_prefix(s, n)
            + n * (spec_avail(s, a) / s.len() as int)
            + (if n <= spec_avail(s, a) % s.len() as int {
                n
            } else {
                spec_avail(s, a) % s.len() as int
            }),
    decreases n,
{
    lemma_mod_division_less_than_divisor(spec_avail(s, a), s.len() as int);
    if n > 0 {
        lemma_sum_fit(s, a, n - 1);
        let av = spec_avail(s, a);
        let len = s.len() as int;
        let q = av / len;
        let rem = av % len;
        assert(n * q == (n - 1) * q + q) by (nonlinear_arith);
        assert(spec_extra(s, a, n - 1) == q + if n - 1 < rem { 1int } else { 0 });
        assert(sum_extents_prefix(s, a, n)
            == sum_extents_prefix(s, a, n - 1) + spec_extent(s, a, n - 1));
        assert(sum_desired_prefix(s, n) == sum_desired_prefix(s, n - 1) + s[n - 1].desired);
        assert((if n <= rem { n } else { rem })
            == (if n - 1 <= rem { n - 1 } else { rem }) + (if n - 1 < rem { 1int } else { 0 }));
        assert(sum_extents_prefix(s, a, n) == sum_desired_prefix(s, n)
            + n * q + (if n <= rem { n } else { rem }));
    } else {
        assert(sum_extents_prefix(s, a, 0) == 0);
        assert(sum_desired_prefix(s, 0) == 0);
        let q = spec_avail(s, a) / s.len() as int;
        assert(0 * q == 0) by (nonlinear_arith);
    }
}

/// The assigned primary extents always account for the whole panel: their
/// sum is exactly the required space when there is no slack (overflow is
/// permitted), and exactly the available space otherwise — no gaps, no
/// overlap.
pub proof fn lemma_linear_extents_sum(s: Seq<LinearEntry>, a: int)
    requires
        entries_ok(s),
        s.len() > 0,
    ensures
        sum_extents_prefix(s, a, s.len() as int) == if spec_avail(s, a) <= 0 {
            spec_required(s)
        } else {
            a
        },
{
    let av = spec_avail(s, a);
    let n = s.len() as int;
    lemma_count_fill_bounds(s, n);
    if av <= 0 {
        lemma_sum_no_slack(s, a, n);
    } else if count_fill(s) > 0 {
        let nf = count_fill(s);
        lemma_count_fill_bounds(s, n);
        lemma_sum_fill(s, a, n);
        lemma_fundamental_div_mod(av, nf);
        lemma_mod_division_less_than_divisor(av, nf);
        assert(sum_extents_prefix(s, a, n) == spec_required(s) + nf * (av / nf) + av % nf);
    } else if total_weight(s) > 0 {
        let w = total_weight(s);
        lemma_sum_val(s, a, n);
        assert(av * w == w * av) by (nonlinear_arith);
        lemma_div_multiples_vanish(av, w);
    } else {
        lemma_weight_prefix_monotone(s, 0, n);
        lemma_sum_fit(s, a, n);
        lemma_fundamental_div_mod(av, n);
        lemma_mod_division_less_than_divisor(av, n);
    }
}

/// If a fill entry exists before `n`, the fill count of the prefix is
/// positive.
proof fn lemma_fill_seen(s: Seq<LinearEntry>, i: int, n: int)
    requires
        0 <= i < n <= s.len(),
        s[i].growth is Fill,
    ensures
        count_fill_prefix(s, n) >= count_fill_prefix(s, i + 1) >= 1,
    decreases n,
{
    lemma_count_fill_bounds(s, i);
    if n > i + 1 {
        lemma_fill_seen(s, i, n - 1);
    }
}

/// Whenever any sibling fills, weighted growth is suppressed: every child
/// that is not the filling one keeps exactly its desired extent, and a sole
/// `Fill` child receives all of the slack.
pub proof fn lemma_linear_single_fill(s: Seq<LinearEntry>, a: int, k: int)
    requires
        entries_ok(s),
        spec_avail(s, a) > 0,
        count_fill(s) == 1,
        0 <= k < s.len(),
        s[k].growth is Fill,
    ensures
        spec_extent(s, a, k) == s[k].desired + spec_avail(s, a),
        forall|i: int| 0 <= i < s.len() && i != k ==> spec_extent(s, a, i) == s[i].desired,
{
    let av = spec_avail(s, a);
    let n = s.len() as int;
    // no other entry fills, else the fill count would reach 2
    assert forall|i: int| 0 <= i < s.len() && i != k implies !(s[i].growth is Fill) by {
        if s[i].growth is Fill {
            let lo = if i < k { i } else { k };
            let hi = if i < k { k } else { i };
            lemma_fill_seen(s, lo, hi);
            assert(count_fill_prefix(s, hi + 1) == count_fill_prefix(s, hi) + 1);
            lemma_fill_seen(s, hi, n);
        }
    }
    // the sole fill has rank zero
    assert(count_fill_prefix(s, k) == 0) by {
        lemma_count_fill_bounds(s, k);
        if count_fill_prefix(s, k) > 0 {
            assert(count_fill_prefix(s, k + 1) == count_fill_prefix(s, k) + 1);
            lemma_fill_seen(s, k, n);
        }
    }
    assert(av % 1 == 0 && av / 1 == av) by {
        lemma_fundamental_div_mod(av, 1);
        lemma_mod_division_less_than_divisor(av, 1);
    }
}

/// The extents granted never go below the desired extent and never exceed
/// it by more than the slack.
pub proof fn lemma_extra_bounds(s: Seq<LinearEntry>, a: int, i: int)
    requires
        entries_ok(s),
        0 <= i < s.len(),
    ensures
        0 <= spec_extra(s, a, i),
        spec_extra(s, a, i) <= if spec_avail(s, a) > 0 { spec_avail(s, a) } else { 0 },
{
    let av = spec_avail(s, a);
    if av <= 0 {
    } else if count_fill(s) > 0 {
        let nf = count_fill(s);
        lemma_count_fill_bounds(s, s.len() as int);
        if s[i].growth is Fill {
            lemma_div_pos_is_pos(av, nf);
            lemma_fundamental_div_mod(av, nf);
            lemma_mod_division_less_than_divisor(av, nf);
            // av / nf + 1 <= av: with q = av / nf and r = av % nf,
            // av == nf * q + r, so q + 1 <= av unless the share is exact
            if count_fill_prefix(s, i) < av % nf {
                // a remainder exists, so nf >= 2 or r >= 1; either way
                // nf * q + r >= q + 1
                lemma_count_fill_bounds(s, i);
                assert(nf * (av / nf) >= 1 * (av / nf)) by (nonlinear_arith)
                    requires nf >= 1, av / nf >= 0;
            } else {
                assert(nf * (av / nf) >= 1 * (av / nf)) by (nonlinear_arith)
                    requires nf >= 1, av / nf >= 0;
            }
        }
    } else if total_weight(s) > 0 {
        let w = total_weight(s);
        match s[i].growth {
            Growth::Val(_) => {
                lemma_weight_prefix_monotone(s, i, i + 1);
                lemma_weight_prefix_monotone(s, i + 1, s.len() as int);
                lemma_mul_inequality(weight_prefix(s, i), weight_prefix(s, i + 1), av);
                lemma_mul_inequality(weight_prefix(s, i + 1), w, av);
                assert(av * weight_prefix(s, i) == weight_prefix(s, i) * av) by (nonlinear_arith);
                assert(av * weight_prefix(s, i + 1) == weight_prefix(s, i + 1) * av)
                    by (nonlinear_arith);
                assert(av * w == w * av) by (nonlinear_arith);
                lemma_div_is_ordered(av * weight_prefix(s, i), av * weight_prefix(s, i + 1), w);
                lemma_div_is_ordered(av * weight_prefix(s, i + 1), av * w, w);
                lemma_div_multiples_vanish(av, w);
                lemma_weight_prefix_monotone(s, 0, i);
                lemma_mul_inequality(0, weight_prefix(s, i), av);
                assert(av * 0 == 0) by (nonlinear_arith);
                lemma_div_pos_is_pos(av * weight_prefix(s, i), w);
            },
            _ => {},
        }
    } else {
        let len = s.len() as int;
        lemma_div_pos_is_pos(av, len);
        lemma_fundamental_div_mod(av, len);
        lemma_mod_division_less_than_divisor(av, len);
        assert(len * (av / len) >= 1 * (av / len)) by (nonlinear_arith)
            requires len >= 1, av / len >= 0;
    }
}

proof fn lemma_sum_extents_nonneg(s: Seq<LinearEntry>, a: int, n: int)
    requires
        entries_ok(s),
        0 <= n <= s.len(),
    ensures
        0 <= sum_extents_prefix(s, a, n),
    decreases n,
{
    if n > 0 {
        lemma_sum_extents_nonneg(s, a, n - 1);
        lemma_extra_bounds(s, a, n - 1);
    }
}

/// Partial sums of extents are nonnegative and grow monotonically.
pub proof fn lemma_sum_extents_monotone(s: Seq<LinearEntry>, a: int, m: int, n: int)
    requires
        entries_ok(s),
        0 <= m <= n <= s.len(),
    ensures
        0 <= sum_extents_prefix(s, a, m) <= sum_extents_prefix(s, a, n),
    decreases n,
{
    lemma_sum_extents_nonneg(s, a, m);
    if n > 0 && m <= n - 1 {
        lemma_sum_extents_monotone(s, a, m, n - 1);
        lemma_extra_bounds(s, a, n - 1);
    }
}

/// Computes the final primary extent of every entry.
pub fn linear_extents(a: i64, entries: &Vec<LinearEntry>) -> (r: Vec<i64>)
    requires
        0 <= a <= MAX_SIZE,
        entries_ok(entries@),
    ensures
        r@.len() == entries@.len(),
        forall|i: int| 0 <= i < r@.len() ==> r@[i] == spec_extent(entries@, a as int, i),
{
    let s = Ghost(entries@);
    let len = entries.len();
    let mut required: i64 = 0;
    let mut n_fill: usize = 0;
    let mut w_total: u64 = 0;
    let mut i: usize = 0;
    while i < len
        invariant
            entries_ok(s@),
            s@ == entries@,
            len == entries@.len(),
            0 <= i <= len,
            required == sum_desired_prefix(s@, i as int),
            n_fill == count_fill_prefix(s@, i as int),
            w_total == weight_prefix(s@, i as int),
        decreases len - i,
    {
        proof {
            lemma_sum_desired_bounds(s@, i as int);
            lemma_sum_desired_bounds(s@, i + 1);
            lemma_count_fill_bounds(s@, i as int);
            lemma_weight_prefix_monotone(s@, i as int, i + 1);
            lemma_weight_prefix_bound(s@, i + 1);
            assert((i + 1) * MAX_DESIRED <= TREE_CAP * MAX_DESIRED) by (nonlinear_arith)
                requires 0 <= i, i + 1 <= TREE_CAP;
            assert((i + 1) * (u32::MAX as int) <= TREE_CAP * (u32::MAX as int))
                by (nonlinear_arith)
                requires 0 <= i, i + 1 <= TREE_CAP;
        }
        required = required + entries[i].desired;
        match entries[i].growth {
            Growth::Fill => {
                n_fill = n_fill + 1;
            },
            Growth::Val(w) => {
                w_total = w_total + (w as u64);
            },
            Growth::Fit => {},
        }
        i = i + 1;
    }
    proof {
        lemma_required_bounds(s@);
    }
    let av: i64 = a - required;
    let mut r: Vec<i64> = Vec::new();
    let mut fill_seen: usize = 0;
    let mut cw: u64 = 0;
    let mut i: usize = 0;
    while i < len
        invariant
            entries_ok(s@),
            s@ == entries@,
            len == entries@.len(),
            0 <= i <= len,
            0 <= a <= MAX_SIZE,
            av == spec_avail(s@, a as int),
            n_fill == count_fill(s@),
            w_total == total_weight(s@),
            fill_seen == count_fill_prefix(s@, i as int),
            cw == weight_prefix(s@, i as int),
            r@.len() == i,
            forall|j: int| 0 <= j < i ==> r@[j] == spec_extent(s@, a as int, j),
        decreases len - i,
    {
        proof {
            lemma_required_bounds(s@);
            lemma_count_fill_bounds(s@, i as int);
            lemma_weight_prefix_bound(s@, i + 1);
            lemma_weight_prefix_monotone(s@, i as int, i + 1);
            lemma_weight_prefix_monotone(s@, i + 1, s@.len() as int);
            lemma_extra_bounds(s@, a as int, i as int);
            assert((i + 1) * (u32::MAX as int) <= TREE_CAP * (u32::MAX as int))
                by (nonlinear_arith)
                requires 0 <= i, i + 1 <= TREE_CAP;
        }
        let desired = entries[i].desired;
        let extra: i64;
        if av <= 0 {
            extra = 0;
        } else if n_fill > 0 {
            match entries[i].growth {
                Growth::Fill => {
                    proof {
                        lemma_div_nonincreasing(av as int, n_fill as int);
                        lemma_div_pos_is_pos(av as int, n_fill as int);
                        lemma_mod_division_less_than_divisor(av as int, n_fill as int);
                    }
                    let avu = av as u64;
                    let q = avu / (n_fill as u64);
                    let rem = avu % (n_fill as u64);
                    extra = (q + if (fill_seen as u64) < rem { 1 } else { 0 }) as i64;
                },
                _ => {
                    extra = 0;
                },
            }
        } else if w_total > 0 {
            match entries[i].growth {
                Growth::Val(w) => {
                    proof {
                        assert((i + 1) * (u32::MAX as int) <= TREE_CAP * (u32::MAX as int))
                            by (nonlinear_arith)
                            requires 0 <= i, i + 1 <= TREE_CAP;
                        assert((av as int) * (weight_prefix(s@, i + 1))
                            <= MAX_SIZE * (TREE_CAP * (u32::MAX as int))) by (nonlinear_arith)
                            requires
                                0 < av as int <= MAX_SIZE,
                                0 <= weight_prefix(s@, i + 1) <= TREE_CAP * (u32::MAX as int);
                        assert((av as int) * (weight_prefix(s@, i as int))
                            <= MAX_SIZE * (TREE_CAP * (u32::MAX as int))) by (nonlinear_arith)
                            requires
                                0 < av as int <= MAX_SIZE,
                                0 <= weight_prefix(s@, i as int) <= TREE_CAP * (u32::MAX as int),
                        ;
                        assert(0 <= (av as int) * (weight_prefix(s@, i as int)))
                            by (nonlinear_arith)
                            requires 0 < av as int, 0 <= weight_prefix(s@, i as int);
                        assert(0 <= (av as int) * (weight_prefix(s@, i + 1))) by (nonlinear_arith)
                            requires 0 < av as int, 0 <= weight_prefix(s@, i + 1);
                    }
                    let cw1 = cw + (w as u64);
                    let e1 = ((av as u128) * (cw1 as u128)) / (w_total as u128);
                    let e0 = ((av as u128) * (cw as u128)) / (w_total as u128);
                    proof {
                        let avi = av as int;
                        let wt = w_total as int;
                        lemma_mul_inequality(cw as int, cw1 as int, avi);
                        lemma_mul_inequality(cw1 as int, wt, avi);
                        assert(avi * (cw as int) == (cw as int) * avi) by (nonlinear_arith);
                        assert(avi * (cw1 as int) == (cw1 as int) * avi) by (nonlinear_arith);
                        assert(avi * wt == wt * avi) by (nonlinear_arith);
                        lemma_div_is_ordered(avi * (cw as int), avi * (cw1 as int), wt);
                        lemma_div_is_ordered(avi * (cw1 as int), avi * wt, wt);
                        lemma_div_multiples_vanish(avi, wt);
                        lemma_mul_inequality(0, cw as int, avi);
                        assert(avi * 0 == 0) by (nonlinear_arith);
                        lemma_div_pos_is_pos(avi * (cw as int), wt);
                    }
                    extra = (e1 - e0) as i64;
                },
                _ => {
                    extra = 0;
                },
            }
        } else {
            proof {
                lemma_div_nonincreasing(av as int, len as int);
                lemma_div_pos_is_pos(av as int, len as int);
                lemma_mod_division_less_than_divisor(av as int, len as int);
            }
            let avu = av as u64;
            let q = avu / (len as u64);
            let rem = avu % (len as u64);
            extra = (q + if (i as u64) < rem { 1 } else { 0 }) as i64;
        }
        r.push(desired + extra);
        match entries[i].growth {
            Growth::Fill => {
                fill_seen = fill_seen + 1;
            },
            Growth::Val(w) => {
                cw = cw + (w as u64);
            },
            Growth::Fit => {},
        }
        i = i + 1;
    }
    r
}

proof fn lemma_weight_prefix_bound(s: Seq<LinearEntry>, n: int)
    requires
        0 <= n <= s.len(),
    ensures
        weight_prefix(s, n) <= n * (u32::MAX as int),
    decreases n,
{
    if n > 0 {
        lemma_weight_prefix_bound(s, n - 1);
        assert((n - 1) * (u32::MAX as int) + (u32::MAX as int) == n * (u32::MAX as int))
            by (nonlinear_arith);
    }
}

} // verus!
