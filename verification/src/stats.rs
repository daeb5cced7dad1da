//! The statistics engine: exact minimum, maximum, sum, sum of squares,
//! nearest-rank percentiles, sample variance and the z-score outlier test,
//! all over unsigned integer elapsed-time values.

use vstd::prelude::*;

verus! {

/// Sum of a sequence of elapsed values, as an unbounded integer.
pub open spec fn sum_spec(s: Seq<u128>) -> int
    decreases s.len(),
{
    if s.len() == 0 {
        0
    } else {
        sum_spec(s.drop_last()) + s.last()
    }
}

/// Minimum of a sequence; 0 when the sequence is empty.
pub open spec fn min_spec(s: Seq<u128>) -> u128
    decreases s.len(),
{
    if s.len() == 0 {
        0u128
    } else if s.len() == 1 {
        s.last()
    } else if s.last() < min_spec(s.drop_last()) {
        s.last()
    } else {
        min_spec(s.drop_last())
    }
}

/// Maximum of a sequence; 0 when the sequence is empty.
pub open spec fn max_spec(s: Seq<u128>) -> u128
    decreases s.len(),
{
    if s.len() == 0 {
        0u128
    } else if s.len() == 1 {
        s.last()
    } else if s.last() > max_spec(s.drop_last()) {
        s.last()
    } else {
        max_spec(s.drop_last())
    }
}

/// The minimum is a lower bound for every element, and is attained.
pub proof fn lemma_min_spec(s: Seq<u128>)
    requires
        s.len() > 0,
    ensures
        forall|i: int| 0 <= i < s.len() ==> min_spec(s) <= #[trigger] s[i],
        s.contains(min_spec(s)),
    decreases s.len(),
{
    if s.len() > 1 {
        lemma_min_spec(s.drop_last());
        assert forall|i: int| 0 <= i < s.len() implies min_spec(s) <= #[trigger] s[i] by {
            if i < s.len() - 1 {
                assert(s.drop_last()[i] == s[i]);
            }
        }
        if min_spec(s) != s.last() {
            let j = choose|j: int| 0 <= j < s.drop_last().len() && s.drop_last()[j] == min_spec(
                s.drop_last(),
            );
            assert(s[j] == min_spec(s));
        }
    }
}

/// The maximum is an upper bound for every element, and is attained.
pub proof fn lemma_max_spec(s: Seq<u128>)
    requires
        s.len() > 0,
    ensures
        forall|i: int| 0 <= i < s.len() ==> #[trigger] s[i] <= max_spec(s),
        s.contains(max_spec(s)),
    decreases s.len(),
{
    if s.len() > 1 {
        lemma_max_spec(s.drop_last());
        assert forall|i: int| 0 <= i < s.len() implies #[trigger] s[i] <= max_spec(s) by {
            if i < s.len() - 1 {
                assert(s.drop_last()[i] == s[i]);
            }
        }
        if max_spec(s) != s.last() {
            let j = choose|j: int| 0 <= j < s.drop_last().len() && s.drop_last()[j] == max_spec(
                s.drop_last(),
            );
            assert(s[j] == max_spec(s));
        }
    }
}

/// Every element lies between the minimum and the maximum: for all value
/// lists, the computed minimum is at most every element and every element is
/// at most the computed maximum.
pub proof fn lemma_extrema_bound(s: Seq<u128>)
    requires
        s.len() > 0,
    ensures
        forall|i: int| 0 <= i < s.len() ==> min_spec(s) <= #[trigger] s[i] <= max_spec(s),
{
    lemma_min_spec(s);
    lemma_max_spec(s);
}

proof fn lemma_take_one_more(s: Seq<u128>, i: int)
    requires
        0 <= i < s.len(),
    ensures
        s.take(i + 1).drop_last() =~= s.take(i),
        s.take(i + 1).last() == s[i],
{
}

/// Smallest element of a value list; 0 for an empty list.
pub fn compute_min(values: &[u128]) -> (r: u128)
    ensures
        r == min_spec(values@),
        values@.len() == 0 ==> r == 0,
        forall|i: int| 0 <= i < values@.len() ==> r <= #[trigger] values@[i],
        values@.len() > 0 ==> values@.contains(r),
{
    let n: usize = values.len();
    if n == 0 {
        return 0;
    }
    let mut r: u128 = values[0];
    assert(values@.take(1).len() == 1 && values@.take(1).last() == values@[0]);
    for i in 1..n
        invariant
            n == values@.len(),
            r == min_spec(values@.take(i as int)),
    {
        proof {
            lemma_take_one_more(values@, i as int);
        }
        if values[i] < r {
            r = values[i];
        }
    }
    assert(values@.take(n as int) =~= values@);
    proof {
        lemma_min_spec(values@);
    }
    r
}

/// Largest element of a value list; 0 for an empty list.
pub fn compute_max(values: &[u128]) -> (r: u128)
    ensures
        r == max_spec(values@),
        values@.len() == 0 ==> r == 0,
        forall|i: int| 0 <= i < values@.len() ==> #[trigger] values@[i] <= r,
        values@.len() > 0 ==> values@.contains(r),
{
    let n: usize = values.len();
    if n == 0 {
        return 0;
    }
    let mut r: u128 = values[0];
    assert(values@.take(1).len() == 1 && values@.take(1).last() == values@[0]);
    for i in 1..n
        invariant
            n == values@.len(),
            r == max_spec(values@.take(i as int)),
    {
        proof {
            lemma_take_one_more(values@, i as int);
        }
        if values[i] > r {
            r = values[i];
        }
    }
    assert(values@.take(n as int) =~= values@);
    proof {
        lemma_max_spec(values@);
    }
    r
}

/// The sum never decreases when elements are appended.
proof fn lemma_sum_take_le(s: Seq<u128>, i: int)
    requires
        0 <= i <= s.len(),
    ensures
        sum_spec(s.take(i)) <= sum_spec(s),
    decreases s.len(),
{
    if i < s.len() {
        assert(s.take(i) =~= s.drop_last().take(i));
        lemma_sum_take_le(s.drop_last(), i);
    } else {
        assert(s.take(i) =~= s);
    }
}

/// The sum of a sequence of non-negative values is non-negative.
proof fn lemma_sum_nonneg(s: Seq<u128>)
    ensures
        sum_spec(s) >= 0,
    decreases s.len(),
{
    if s.len() > 0 {
        lemma_sum_nonneg(s.drop_last());
    }
}

/// Sum of a value list, computed at full integer width.
pub fn compute_sum(values: &[u128]) -> (r: u128)
    requires
        sum_spec(values@) <= u128::MAX,
    ensures
        r == sum_spec(values@),
{
    let n: usize = values.len();
    let mut r: u128 = 0;
    assert(values@.take(0).len() == 0);
    for i in 0..n
        invariant
            n == values@.len(),
            sum_spec(values@) <= u128::MAX,
            r == sum_spec(values@.take(i as int)),
    {
        proof {
            lemma_take_one_more(values@, i as int);
            lemma_sum_take_le(values@, i as int + 1);
            lemma_sum_nonneg(values@.take(i as int));
        }
        r = r + values[i];
    }
    assert(values@.take(n as int) =~= values@);
    r
}

/// Ascending order on elapsed values, used by the sorting specification.
pub open spec fn value_le() -> spec_fn(u128, u128) -> bool {
    |x: u128, y: u128| x <= y
}

/// `value_le` is a total order.
pub proof fn lemma_value_le_total()
    ensures
        vstd::relations::total_ordering(value_le()),
{
    assert forall|x: u128, y: u128| #![trigger value_le()(x, y)] value_le()(x, y) || value_le()(
        y,
        x,
    ) by {}
}

/// The values of a list in ascending order.
pub open spec fn sorted_spec(s: Seq<u128>) -> Seq<u128> {
    s.sort_by(value_le())
}

/// Sorts a copy of the values in ascending order.
pub fn sort_values(values: &[u128]) -> (r: Vec<u128>)
    ensures
        r@ == sorted_spec(values@),
        r@.len() == values@.len(),
        r@.to_multiset() == values@.to_multiset(),
        vstd::relations::sorted_by(r@, value_le()),
{
    broadcast use vstd::seq_lib::group_to_multiset_ensures, vstd::seq_lib::to_multiset_insert;

    let n: usize = values.len();
    let mut out: Vec<u128> = Vec::new();
    assert(values@.take(0) =~= Seq::<u128>::empty());
    assert(Seq::<u128>::empty().to_multiset() =~= out@.to_multiset());
    for i in 0..n
        invariant
            n == values@.len(),
            out@.len() == i,
            out@.to_multiset() == values@.take(i as int).to_multiset(),
            vstd::relations::sorted_by(out@, value_le()),
    {
        let x = values[i];
        let mut j: usize = 0;
        while j < out.len() && out[j] <= x
            invariant
                j <= out@.len(),
                forall|k: int| 0 <= k < j ==> out@[k] <= x,
            decreases out@.len() - j,
        {
            j = j + 1;
        }
        let ghost prev = out@;
        out.insert(j, x);
        proof {
            assert(out@ == prev.insert(j as int, x));
            assert forall|a: int, b: int| 0 <= a < b < out@.len() implies value_le()(
                out@[a],
                out@[b],
            ) by {
                if b < j {
                    assert(out@[a] == prev[a] && out@[b] == prev[b]);
                } else if a > j {
                    assert(out@[a] == prev[a - 1] && out@[b] == prev[b - 1]);
                } else if a < j && b == j {
                    assert(out@[a] == prev[a] && out@[b] == x);
                } else if a == j && b > j {
                    assert(out@[a] == x && out@[b] == prev[b - 1]);
                    if (j as int) < prev.len() {
                        assert(!(prev[j as int] <= x));
                        if b - 1 > j {
                            assert(value_le()(prev[j as int], prev[b - 1]));
                        }
                    }
                } else if a < j && b > j {
                    assert(out@[a] == prev[a] && out@[b] == prev[b - 1]);
                    if (j as int) < prev.len() && b - 1 > j {
                        assert(value_le()(prev[j as int], prev[b - 1]));
                    }
                }
            }
            assert(values@.take(i as int + 1) =~= values@.take(i as int).push(values@[i as int]));
            vstd::seq_lib::to_multiset_insert(prev, j as int, x);
            vstd::seq_lib::to_multiset_build(values@.take(i as int), x);
        }
    }
    assert(values@.take(n as int) =~= values@);
    proof {
        values@.lemma_sort_by_ensures(value_le());
        lemma_value_le_total();
        vstd::seq_lib::lemma_sorted_unique(out@, sorted_spec(values@), value_le());
    }
    out
}

/// Zero-based position used by the nearest-rank percentile estimator:
/// `floor((len + 1) * percent / 100) - 1`, held at 0 from below.
pub open spec fn percentile_index(len: int, percent: int) -> int {
    let q = (len + 1) * percent / 100;
    if q >= 1 {
        q - 1
    } else {
        0
    }
}

/// Nearest-rank percentile of a value list: the element of the ascending
/// ordering at `percentile_index`.
pub open spec fn percentile_spec(s: Seq<u128>, percent: int) -> u128 {
    sorted_spec(s)[percentile_index(s.len() as int, percent)]
}

/// The percentile position is a valid index of the list.
pub proof fn lemma_percentile_index_in_range(len: int, percent: int)
    requires
        len >= 1,
        0 <= percent < 100,
    ensures
        0 <= percentile_index(len, percent) < len,
{
    let a = (len + 1) * percent;
    let q = a / 100;
    assert((len + 1) * percent <= (len + 1) * 99 && 0 <= (len + 1) * percent) by (nonlinear_arith)
        requires
            len >= 1 && 0 <= percent < 100,
    ;
    vstd::arithmetic::div_mod::lemma_fundamental_div_mod(a, 100);
    vstd::arithmetic::div_mod::lemma_mod_bound(a, 100);
    assert(100 * q <= a);
    assert(q <= len);
}

/// Nearest-rank percentile for a whole-number percent below 100: the values
/// are sorted ascending and the element at position
/// `floor((count + 1) * percent / 100) - 1` (never below position 0) is
/// returned verbatim.
pub fn compute_percentile(values: &[u128], percent: usize) -> (r: u128)
    requires
        values@.len() >= 1,
        percent < 100,
    ensures
        r == percentile_spec(values@, percent as int),
{
    let sorted = sort_values(values);
    let n: usize = sorted.len();
    proof {
        lemma_percentile_index_in_range(n as int, percent as int);
        assert(((n as u128) + 1) * (percent as u128) <= u64::MAX as u128 * 100 && ((n as u128) + 1)
            * (percent as u128) == (n as int + 1) * (percent as int)) by (nonlinear_arith)
            requires
                n as u128 <= u64::MAX && (percent as u128) < 100,
        ;
    }
    let q: u128 = ((n as u128) + 1) * (percent as u128) / 100;
    let idx: usize = if q >= 1 {
        (q - 1) as usize
    } else {
        0
    };
    sorted[idx]
}

/// Sum of squares of a sequence of elapsed values, as an unbounded integer.
pub open spec fn sumsq_spec(s: Seq<u128>) -> int
    decreases s.len(),
{
    if s.len() == 0 {
        0
    } else {
        sumsq_spec(s.drop_last()) + s.last() * s.last()
    }
}

/// Numerator of the sample variance after clearing denominators:
/// `n * sumsq - sum^2`, which is `n^2` times the sum of squared deviations
/// from the exact mean, divided by nothing. The variance is this value
/// divided by `n * d`, where `d` is the sample divisor.
pub open spec fn var_num_spec(s: Seq<u128>) -> int {
    s.len() * sumsq_spec(s) - sum_spec(s) * sum_spec(s)
}

/// Sample divisor: `n - 1`, except that a single-element list divides by 1.
pub open spec fn sample_divisor(n: int) -> int {
    if n > 1 {
        n - 1
    } else {
        1
    }
}

/// The z-score acceptance test in exact integer form. A value `v` is kept
/// when the sample standard deviation is zero, or when
/// `|v - mean| / std_dev < t`; both conditions are stated by
/// cross-multiplication: with `m = n * sumsq - sum^2` and `a = n * v - sum`,
/// the strict inequality `|z| < t` is `d * a^2 < t^2 * n * m`.
pub open spec fn z_accept(v: u128, sum: int, sumsq: int, n: int, t: int) -> bool {
    let m = n * sumsq - sum * sum;
    let d = sample_divisor(n);
    let a = n * v - sum;
    m == 0 || d * a * a < t * t * n * m
}

/// Whether `v` passes the z-score test against the statistics of list `s`.
pub open spec fn z_pass_spec(s: Seq<u128>, v: u128, t: int) -> bool {
    z_accept(v, sum_spec(s), sumsq_spec(s), s.len() as int, t)
}

/// The subsequence of `s` that passes the z-score test against the
/// statistics of `s` itself, in input order.
pub open spec fn filtered_spec(s: Seq<u128>, t: int) -> Seq<u128> {
    s.filter(|v: u128| z_pass_spec(s, v, t))
}

proof fn lemma_sumsq_take_le(s: Seq<u128>, i: int)
    requires
        0 <= i <= s.len(),
    ensures
        sumsq_spec(s.take(i)) <= sumsq_spec(s),
    decreases s.len(),
{
    if i < s.len() {
        assert(s.take(i) =~= s.drop_last().take(i));
        lemma_sumsq_take_le(s.drop_last(), i);
        assert(s.last() * s.last() >= 0) by (nonlinear_arith);
    } else {
        assert(s.take(i) =~= s);
    }
}

proof fn lemma_sumsq_nonneg(s: Seq<u128>)
    ensures
        sumsq_spec(s) >= 0,
    decreases s.len(),
{
    if s.len() > 0 {
        lemma_sumsq_nonneg(s.drop_last());
        assert(s.last() * s.last() >= 0) by (nonlinear_arith);
    }
}

/// Each element's square is at most the sum of squares.
proof fn lemma_elem_sq_le(s: Seq<u128>, i: int)
    requires
        0 <= i < s.len(),
    ensures
        s[i] * s[i] <= sumsq_spec(s),
    decreases s.len(),
{
    if i == s.len() - 1 {
        lemma_sumsq_nonneg(s.drop_last());
    } else {
        lemma_elem_sq_le(s.drop_last(), i);
        assert(s.last() * s.last() >= 0) by (nonlinear_arith);
    }
}

/// For every value `v`: `2 * sum(s) * v <= sumsq(s) + len(s) * v^2`,
/// by summing the term-wise bound `2 * x * v <= x^2 + v^2`.
proof fn lemma_sum_cross_bound(s: Seq<u128>, v: u128)
    ensures
        2 * sum_spec(s) * v <= sumsq_spec(s) + s.len() * (v * v),
    decreases s.len(),
{
    if s.len() > 0 {
        lemma_sum_cross_bound(s.drop_last(), v);
        let w = s.last();
        assert(2 * (sum_spec(s.drop_last()) + w) * v == 2 * sum_spec(s.drop_last()) * v + 2 * (w
            * v) && 2 * (w * v) <= w * w + v * v && (s.drop_last().len() + 1) * (v * v)
            == s.drop_last().len() * (v * v) + v * v) by (nonlinear_arith);
    } else {
        assert(2 * 0 * v == 0) by (nonlinear_arith);
    }
}

/// Cauchy-Schwarz for these sums: `sum(s)^2 <= len(s) * sumsq(s)`.
proof fn lemma_cauchy_schwarz(s: Seq<u128>)
    ensures
        sum_spec(s) * sum_spec(s) <= s.len() * sumsq_spec(s),
    decreases s.len(),
{
    if s.len() == 0 {
        assert(0 * 0 == 0) by (nonlinear_arith);
    } else {
        let p = s.drop_last();
        let v = s.last();
        lemma_cauchy_schwarz(p);
        lemma_sum_cross_bound(p, v);
        let sp = sum_spec(p);
        let qp = sumsq_spec(p);
        let k = p.len() as int;
        assert((sp + v) * (sp + v) <= (k + 1) * (qp + v * v)) by (nonlinear_arith)
            requires
                sp * sp <= k * qp && 2 * sp * v <= qp + k * (v * v) && k >= 0,
        ;
    }
}

/// Sum of squared scaled deviations `(n * v_i - c)^2` over a sequence.
spec fn devsq_spec(s: Seq<u128>, n: int, c: int) -> int
    decreases s.len(),
{
    if s.len() == 0 {
        0
    } else {
        devsq_spec(s.drop_last(), n, c) + (n * s.last() - c) * (n * s.last() - c)
    }
}

proof fn lemma_devsq_closed(s: Seq<u128>, n: int, c: int)
    ensures
        devsq_spec(s, n, c) == n * n * sumsq_spec(s) - 2 * n * c * sum_spec(s) + s.len() * (c * c),
    decreases s.len(),
{
    if s.len() == 0 {
    } else {
        lemma_devsq_closed(s.drop_last(), n, c);
        let v = s.last();
        assert((n * v - c) * (n * v - c) == n * n * (v * v) - 2 * n * c * v + c * c) by (
        nonlinear_arith);
        assert(n * n * (sumsq_spec(s.drop_last()) + v * v) == n * n * sumsq_spec(s.drop_last()) + n
            * n * (v * v) && 2 * n * c * (sum_spec(s.drop_last()) + v) == 2 * n * c * sum_spec(
            s.drop_last(),
        ) + 2 * n * c * v && (s.drop_last().len() + 1) * (c * c) == s.drop_last().len() * (c * c) + c
            * c) by (nonlinear_arith);
    }
}

/// If every element of `s` fails the z-score test with parameters of the
/// full list `full`, the deviation sum is at least `len * t^2 * n * m / d`.
proof fn lemma_all_fail_bound(s: Seq<u128>, full: Seq<u128>, t: int)
    requires
        forall|i: int| 0 <= i < s.len() ==> !z_pass_spec(full, #[trigger] s[i], t),
    ensures
        sample_divisor(full.len() as int) * devsq_spec(s, full.len() as int, sum_spec(full))
            >= s.len() * (t * t * full.len() * var_num_spec(full)),
    decreases s.len(),
{
    let n = full.len() as int;
    let c = sum_spec(full);
    let d = sample_divisor(n);
    let m = var_num_spec(full);
    if s.len() == 0 {
        assert(0 * (t * t * n * m) == 0) by (nonlinear_arith);
    } else {
        lemma_all_fail_bound(s.drop_last(), full, t);
        let v = s.last();
        assert(!z_pass_spec(full, v, t));
        let a = n * v - c;
        assert(d * a * a >= t * t * n * m);
        assert(d * (devsq_spec(s.drop_last(), n, c) + a * a) == d * devsq_spec(s.drop_last(), n, c)
            + d * a * a && (s.drop_last().len() + 1) * (t * t * n * m) == s.drop_last().len() * (t
            * t * n * m) + t * t * n * m && d * (a * a) == d * a * a) by (nonlinear_arith);
    }
}

/// A filter whose predicate holds of every element keeps the whole list.
proof fn lemma_filter_all(s: Seq<u128>, pred: spec_fn(u128) -> bool)
    requires
        forall|i: int| 0 <= i < s.len() ==> pred(#[trigger] s[i]),
    ensures
        s.filter(pred) =~= s,
    decreases s.len(),
{
    reveal(Seq::filter);
    if s.len() > 0 {
        lemma_filter_all(s.drop_last(), pred);
    }
}

/// At least one value always passes the z-score test: either the variance is
/// zero and everything passes, or the average squared z-score is below 1, so
/// some value's squared z-score is below any threshold of at least 1.
pub proof fn lemma_filtered_nonempty(s: Seq<u128>, t: int)
    requires
        s.len() >= 1,
        t >= 1,
    ensures
        filtered_spec(s, t).len() >= 1,
{
    let n = s.len() as int;
    let c = sum_spec(s);
    let m = var_num_spec(s);
    let d = sample_divisor(n);
    let pred = |v: u128| z_pass_spec(s, v, t);
    if filtered_spec(s, t).len() == 0 {
        broadcast use vstd::seq_lib::group_filter_ensures;

        assert forall|i: int| 0 <= i < s.len() implies !z_pass_spec(s, #[trigger] s[i], t) by {
            if z_pass_spec(s, s[i], t) {
                assert(pred(s[i]));
                assert(s.filter(pred).contains(s[i]));
            }
        }
        lemma_all_fail_bound(s, s, t);
        lemma_devsq_closed(s, n, c);
        lemma_cauchy_schwarz(s);
        assert(devsq_spec(s, n, c) == n * m) by (nonlinear_arith)
            requires
                devsq_spec(s, n, c) == n * n * sumsq_spec(s) - 2 * n * c * sum_spec(s) + s.len() * (
                c * c) && m == n * sumsq_spec(s) - c * c && c == sum_spec(s) && n == s.len(),
        ;
        assert(m != 0) by {
            if m == 0 {
                assert(z_pass_spec(s, s[0], t));
            }
        }
        assert(m > 0);
        if n == 1 {
            let v = s.last();
            assert(sum_spec(s.drop_last()) == 0 && sumsq_spec(s.drop_last()) == 0);
            assert(sum_spec(s) == v && sumsq_spec(s) == v * v);
            assert(1 * (v * v) - v * v == 0) by (nonlinear_arith);
        } else {
            assert(false) by (nonlinear_arith)
                requires
                    d * (n * m) >= n * (t * t * n * m) && m > 0 && n >= 2 && t >= 1 && d == n - 1,
            ;
        }
    }
}

/// Sum of squares of a value list, computed at full integer width.
pub fn compute_sum_sq(values: &[u128]) -> (r: u128)
    requires
        sumsq_spec(values@) <= u128::MAX,
    ensures
        r == sumsq_spec(values@),
{
    let n: usize = values.len();
    let mut r: u128 = 0;
    assert(values@.take(0).len() == 0);
    for i in 0..n
        invariant
            n == values@.len(),
            sumsq_spec(values@) <= u128::MAX,
            r == sumsq_spec(values@.take(i as int)),
    {
        proof {
            lemma_take_one_more(values@, i as int);
            lemma_sumsq_take_le(values@, i as int + 1);
            lemma_sumsq_nonneg(values@.take(i as int));
            assert(values@[i as int] * values@[i as int] >= 0) by (nonlinear_arith);
        }
        let v = values[i];
        r = r + v * v;
    }
    assert(values@.take(n as int) =~= values@);
    r
}

/// Whether `value` passes the z-score test with strict threshold `threshold`
/// against a population described by its element count, sum and sum of
/// squares. A zero sample standard deviation accepts every value; otherwise
/// the value is accepted exactly when `|value - mean| / std_dev` is strictly
/// below the threshold, decided here by exact cross-multiplication.
pub fn z_score(value: u128, sum: u128, sum_sq: u128, count: usize, threshold: u128) -> (r: bool)
    requires
        count >= 1,
        count * sum_sq <= u128::MAX,
        sum * sum <= count * sum_sq,
        count * value <= u128::MAX,
        sample_divisor(count as int) * (count * value - sum) * (count * value - sum) <= u128::MAX,
        threshold * threshold * count * (count * sum_sq - sum * sum) <= u128::MAX,
    ensures
        r == z_accept(value, sum as int, sum_sq as int, count as int, threshold as int),
{
    let n: u128 = count as u128;
    proof {
        assert(n * sum_sq == count * sum_sq && n * value == count * value) by (nonlinear_arith)
            requires
                n == count,
        ;
        assert(sum * sum <= u128::MAX);
    }
    let nq: u128 = n * sum_sq;
    let s2: u128 = sum * sum;
    let m: u128 = nq - s2;
    if m == 0 {
        return true;
    }
    let d: u128 = if count > 1 {
        (count - 1) as u128
    } else {
        1
    };
    let nv: u128 = n * value;
    let a: u128 = if nv >= sum {
        nv - sum
    } else {
        sum - nv
    };
    proof {
        let ai = count as int * value - sum;
        assert(d == sample_divisor(count as int));
        if nv >= sum {
            assert(a as int == ai);
        } else {
            assert(a as int == -ai);
        }
        assert((a as int) * (a as int) == ai * ai) by (nonlinear_arith)
            requires
                a as int == ai || a as int == -ai,
        ;
        assert(d * ai * ai <= u128::MAX);
        assert(d * a * a == d * ai * ai) by (nonlinear_arith)
            requires
                (a as int) * (a as int) == ai * ai,
        ;
        assert(d * a <= u128::MAX && d * a * a <= u128::MAX) by (nonlinear_arith)
            requires
                d * a * a <= u128::MAX && a >= 0 && d >= 1,
        ;
        assert(m == count * sum_sq - sum * sum);
        assert(threshold * threshold <= u128::MAX && threshold * threshold * n <= u128::MAX
            && threshold * threshold * n * m <= u128::MAX) by (nonlinear_arith)
            requires
                n >= 1 && m >= 1 && threshold >= 0 && threshold * threshold * n * m <= u128::MAX,
        ;
        assert(threshold * threshold * n * m == threshold * threshold * (count as int) * m) by (
        nonlinear_arith)
            requires
                n == count,
        ;
    }
    d * a * a < threshold * threshold * n * m
}

/// All preconditions of the exact z-score test hold for every element of a
/// list with enough arithmetic headroom.
pub proof fn lemma_z_bounds(s: Seq<u128>, i: int, t: int)
    requires
        s.len() >= 1,
        t >= 1,
        0 <= i < s.len(),
        t * t * s.len() * s.len() * s.len() * sumsq_spec(s) <= u128::MAX,
    ensures
        0 <= sum_spec(s) <= u128::MAX,
        0 <= sumsq_spec(s) <= u128::MAX,
        s.len() * sumsq_spec(s) <= u128::MAX,
        sum_spec(s) * sum_spec(s) <= s.len() * sumsq_spec(s),
        s.len() * s[i] <= u128::MAX,
        sample_divisor(s.len() as int) * (s.len() * s[i] - sum_spec(s)) * (s.len() * s[i]
            - sum_spec(s)) <= u128::MAX,
        t * t * s.len() * (s.len() * sumsq_spec(s) - sum_spec(s) * sum_spec(s)) <= u128::MAX,
{
    let n = s.len() as int;
    let q = sumsq_spec(s);
    let c = sum_spec(s);
    let v = s[i];
    let d = sample_divisor(n);
    let ai = n * v - c;
    lemma_sum_nonneg(s);
    lemma_sumsq_nonneg(s);
    lemma_cauchy_schwarz(s);
    lemma_elem_sq_le(s, i);
    assert(q <= u128::MAX && n * q <= u128::MAX && n * n * q <= u128::MAX && n * n * n * q
        <= u128::MAX && t * t * n * (n * q) <= u128::MAX) by (nonlinear_arith)
        requires
            t >= 1 && n >= 1 && q >= 0 && t * t * n * n * n * q <= u128::MAX,
    ;
    assert(c <= u128::MAX) by (nonlinear_arith)
        requires
            c >= 0 && c * c <= n * q && n * q <= u128::MAX,
    ;
    assert(n * v * (n * v) <= n * n * q) by (nonlinear_arith)
        requires
            n >= 1 && v * v <= q && 0 <= v,
    ;
    assert(n * v <= u128::MAX) by (nonlinear_arith)
        requires
            n * v >= 0 && n * v * (n * v) <= n * n * q && n * n * q <= u128::MAX,
    ;
    assert(ai * ai <= n * n * q) by (nonlinear_arith)
        requires
            ai == n * v - c && 0 <= c && c * c <= n * q && n * v * (n * v) <= n * n * q && n >= 1
                && q >= 0 && n * v >= 0,
    ;
    assert(d * ai * ai <= u128::MAX) by (nonlinear_arith)
        requires
            1 <= d <= n && ai * ai <= n * n * q && n * n * n * q <= u128::MAX && n >= 1 && q >= 0,
    ;
    assert(t * t * n * (n * q - c * c) <= u128::MAX) by (nonlinear_arith)
        requires
            t >= 1 && n >= 1 && 0 <= n * q - c * c && n * q - c * c <= n * q && t * t * n * (n * q)
                <= u128::MAX,
    ;
}

/// Exact sample variance of a value list, as the ratio `r.0 / r.1`: the
/// sample standard deviation is the square root of that ratio. The
/// numerator is `n * sumsq - sum^2`, the denominator `n * (n - 1)`, with a
/// single-element list dividing by 1 instead of `n - 1`, so its variance is
/// exactly zero.
pub fn sample_variance(values: &[u128]) -> (r: (u128, u128))
    requires
        values@.len() >= 1,
        values@.len() * sumsq_spec(values@) <= u128::MAX,
    ensures
        r.0 == var_num_spec(values@),
        r.1 == values@.len() * sample_divisor(values@.len() as int),
        r.1 >= 1,
{
    let n: usize = values.len();
    proof {
        lemma_cauchy_schwarz(values@);
        lemma_sum_nonneg(values@);
        lemma_sumsq_nonneg(values@);
        assert(sum_spec(values@) <= u128::MAX && sumsq_spec(values@) <= u128::MAX) by (
        nonlinear_arith)
            requires
                sum_spec(values@) * sum_spec(values@) <= values@.len() * sumsq_spec(values@)
                    && values@.len() * sumsq_spec(values@) <= u128::MAX && sum_spec(values@) >= 0
                    && sumsq_spec(values@) >= 0 && values@.len() >= 1,
        ;
    }
    let s = compute_sum(values);
    let q = compute_sum_sq(values);
    let nq: u128 = (n as u128) * q;
    let s2: u128 = s * s;
    let num: u128 = nq - s2;
    let d: u128 = if n > 1 {
        (n - 1) as u128
    } else {
        1
    };
    proof {
        assert((n as u128) * d <= u128::MAX && (n as u128) * d >= 1) by (nonlinear_arith)
            requires
                1 <= n as u128 <= u64::MAX && 1 <= d <= u64::MAX,
        ;
    }
    let den: u128 = (n as u128) * d;
    (num, den)
}

/// The canonical z-score threshold for the outlier filter.
pub const Z_THRESHOLD: u128 = 3;

/// Keeps, in input order, exactly the values that pass the z-score test
/// against the mean and sample standard deviation of the whole list. The
/// result is never empty.
pub fn filter_outliers(values: &[u128], threshold: u128) -> (r: Vec<u128>)
    requires
        values@.len() >= 1,
        threshold >= 1,
        threshold * threshold * values@.len() * values@.len() * values@.len() * sumsq_spec(values@)
            <= u128::MAX,
    ensures
        r@ == filtered_spec(values@, threshold as int),
        1 <= r@.len() <= values@.len(),
{
    let n: usize = values.len();
    proof {
        lemma_z_bounds(values@, 0, threshold as int);
    }
    let sum = compute_sum(values);
    let sum_sq = compute_sum_sq(values);
    let mut out: Vec<u128> = Vec::new();
    let ghost pred = |v: u128| z_pass_spec(values@, v, threshold as int);
    proof {
        reveal(Seq::filter);
        assert(values@.take(0).filter(pred) =~= Seq::<u128>::empty());
    }
    for i in 0..n
        invariant
            n == values@.len(),
            threshold >= 1,
            threshold as int * threshold * values@.len() * values@.len() * values@.len()
                * sumsq_spec(values@) <= u128::MAX,
            sum == sum_spec(values@),
            sum_sq == sumsq_spec(values@),
            pred == (|v: u128| z_pass_spec(values@, v, threshold as int)),
            out@ == values@.take(i as int).filter(pred),
    {
        proof {
            lemma_z_bounds(values@, i as int, threshold as int);
        }
        let keep = z_score(values[i], sum, sum_sq, n, threshold);
        proof {
            lemma_take_one_more(values@, i as int);
            reveal(Seq::filter);
            assert(values@.take(i as int + 1).drop_last() == values@.take(i as int));
        }
        if keep {
            out.push(values[i]);
        }
    }
    assert(values@.take(n as int) =~= values@);
    proof {
        lemma_filtered_nonempty(values@, threshold as int);
        values@.lemma_filter_len(pred);
    }
    out
}

/// Nearest-rank percentiles do not depend on the order of the value list:
/// two lists holding the same values (as a multiset) have the same
/// percentile, for every percent.
pub proof fn lemma_percentile_permutation(a: Seq<u128>, b: Seq<u128>, percent: int)
    requires
        a.to_multiset() == b.to_multiset(),
    ensures
        percentile_spec(a, percent) == percentile_spec(b, percent),
{
    broadcast use vstd::seq_lib::group_to_multiset_ensures;

    lemma_value_le_total();
    a.lemma_sort_by_ensures(value_le());
    b.lemma_sort_by_ensures(value_le());
    vstd::seq_lib::lemma_sorted_unique(a.sort_by(value_le()), b.sort_by(value_le()), value_le());
    assert(a.len() == a.to_multiset().len());
    assert(b.len() == b.to_multiset().len());
}

/// The sum of `n` copies of `v` is exactly `n * v`: the exact mean
/// `sum / count` of a list of identical values equals the value itself.
pub proof fn lemma_mean_of_identical(s: Seq<u128>, v: u128)
    requires
        forall|i: int| 0 <= i < s.len() ==> s[i] == v,
    ensures
        sum_spec(s) == s.len() * v,
    decreases s.len(),
{
    if s.len() == 0 {
        assert(0 * v == 0) by (nonlinear_arith);
    } else {
        assert(forall|i: int|
            0 <= i < s.drop_last().len() ==> #[trigger] s.drop_last()[i] == s[i]);
        lemma_mean_of_identical(s.drop_last(), v);
        assert((s.len() - 1) * v + v == s.len() * v) by (nonlinear_arith);
    }
}

proof fn lemma_sumsq_of_identical(s: Seq<u128>, v: u128)
    requires
        forall|i: int| 0 <= i < s.len() ==> s[i] == v,
    ensures
        sumsq_spec(s) == s.len() * (v * v),
    decreases s.len(),
{
    if s.len() == 0 {
        assert(0 * (v * v) == 0) by (nonlinear_arith);
    } else {
        assert(forall|i: int|
            0 <= i < s.drop_last().len() ==> #[trigger] s.drop_last()[i] == s[i]);
        lemma_sumsq_of_identical(s.drop_last(), v);
        assert((s.len() - 1) * (v * v) + v * v == s.len() * (v * v)) by (nonlinear_arith);
    }
}

/// A list of identical values has zero sample variance (so its standard
/// deviation is exactly zero), and the z-score test then accepts every value
/// of the list, whatever the threshold: the outlier filter keeps the list
/// unchanged.
pub proof fn lemma_identical_no_outliers(s: Seq<u128>, v: u128, t: int)
    requires
        s.len() >= 1,
        forall|i: int| 0 <= i < s.len() ==> s[i] == v,
    ensures
        var_num_spec(s) == 0,
        forall|i: int| 0 <= i < s.len() ==> z_pass_spec(s, #[trigger] s[i], t),
        filtered_spec(s, t) == s,
{
    lemma_mean_of_identical(s, v);
    lemma_sumsq_of_identical(s, v);
    assert(s.len() * (s.len() * (v * v)) - (s.len() * v) * (s.len() * v) == 0) by (
    nonlinear_arith);
    lemma_filter_all(s, |w: u128| z_pass_spec(s, w, t));
}

} // verus!
