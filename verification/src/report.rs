//! Statistics records computed over the aggregated buckets: the total view
//! (per name, with an outlier-filtered companion) and the per-group view
//! (per (name, group key) pair).
//!
//! Every quantity is exact: the mean of a bucket is `sum / count` and its
//! total duration in minutes is `sum / 60000`, both to be taken as exact
//! ratios of the fields stored here.

use vstd::prelude::*;
use crate::extract::bucket_of;
use crate::extract::extract_data;
use crate::extract::name_from;
use crate::order::name_lt;
use crate::record::TimerInfo;
use crate::stats::Z_THRESHOLD;
use crate::stats::compute_max;
use crate::stats::compute_min;
use crate::stats::compute_percentile;
use crate::stats::compute_sum;
use crate::stats::filter_outliers;
use crate::stats::filtered_spec;
use crate::stats::max_spec;
use crate::stats::min_spec;
use crate::stats::percentile_spec;
use crate::stats::sum_spec;
use crate::stats::sumsq_spec;

verus! {

/// Statistics of one bucket in the total view. The mean is the exact ratio
/// `sum / count`; the total duration in minutes is `sum / 60000`.
pub struct TimerStatistics {
    pub name: String,
    pub count: u128,
    pub sum: u128,
    pub min: u128,
    pub max: u128,
    pub q10: u128,
    pub q25: u128,
    pub median: u128,
    pub q75: u128,
    pub q90: u128,
}

/// Statistics of one bucket in the per-group view.
pub struct PerChainTimerStatistics {
    pub name: String,
    pub chain: String,
    pub count: u128,
    pub sum: u128,
    pub min: u128,
    pub max: u128,
    pub q10: u128,
    pub q25: u128,
    pub median: u128,
    pub q75: u128,
    pub q90: u128,
}

/// The record `st` holds exactly the statistics of value list `vals` under
/// key `name`.
pub open spec fn stats_match(name: Seq<char>, vals: Seq<u128>, st: TimerStatistics) -> bool {
    &&& st.name@ == name
    &&& st.count == vals.len()
    &&& st.sum == sum_spec(vals)
    &&& st.min == min_spec(vals)
    &&& st.max == max_spec(vals)
    &&& st.q10 == percentile_spec(vals, 10)
    &&& st.q25 == percentile_spec(vals, 25)
    &&& st.median == percentile_spec(vals, 50)
    &&& st.q75 == percentile_spec(vals, 75)
    &&& st.q90 == percentile_spec(vals, 90)
}

/// The record `st` holds exactly the statistics of value list `vals` under
/// pair key `(name, chain)`.
pub open spec fn chain_stats_match(
    name: Seq<char>,
    chain: Seq<char>,
    vals: Seq<u128>,
    st: PerChainTimerStatistics,
) -> bool {
    &&& st.name@ == name
    &&& st.chain@ == chain
    &&& st.count == vals.len()
    &&& st.sum == sum_spec(vals)
    &&& st.min == min_spec(vals)
    &&& st.max == max_spec(vals)
    &&& st.q10 == percentile_spec(vals, 10)
    &&& st.q25 == percentile_spec(vals, 25)
    &&& st.median == percentile_spec(vals, 50)
    &&& st.q75 == percentile_spec(vals, 75)
    &&& st.q90 == percentile_spec(vals, 90)
}

/// Enough headroom in 128-bit arithmetic to run the z-score test on a
/// bucket: `9 * len^3 * sumsq` must fit (the canonical threshold is 3).
pub open spec fn filter_headroom(vals: Seq<u128>) -> bool {
    9 * vals.len() * vals.len() * vals.len() * sumsq_spec(vals) <= u128::MAX
}

fn bucket_stats(name: &String, values: &[u128]) -> (st: TimerStatistics)
    requires
        values@.len() >= 1,
        sum_spec(values@) <= u128::MAX,
    ensures
        stats_match(name@, values@, st),
{
    TimerStatistics {
        name: name.clone(),
        count: values.len() as u128,
        sum: compute_sum(values),
        min: compute_min(values),
        max: compute_max(values),
        q10: compute_percentile(values, 10),
        q25: compute_percentile(values, 25),
        median: compute_percentile(values, 50),
        q75: compute_percentile(values, 75),
        q90: compute_percentile(values, 90),
    }
}

fn chain_bucket_stats(name: &String, chain: &String, values: &[u128]) -> (st:
    PerChainTimerStatistics)
    requires
        values@.len() >= 1,
        sum_spec(values@) <= u128::MAX,
    ensures
        chain_stats_match(name@, chain@, values@, st),
{
    PerChainTimerStatistics {
        name: name.clone(),
        chain: chain.clone(),
        count: values.len() as u128,
        sum: compute_sum(values),
        min: compute_min(values),
        max: compute_max(values),
        q10: compute_percentile(values, 10),
        q25: compute_percentile(values, 25),
        median: compute_percentile(values, 50),
        q75: compute_percentile(values, 75),
        q90: compute_percentile(values, 90),
    }
}

/// The values kept by a filter sum to no more than the whole list.
proof fn lemma_sum_filter_le(s: Seq<u128>, pred: spec_fn(u128) -> bool)
    ensures
        0 <= sum_spec(s.filter(pred)) <= sum_spec(s),
    decreases s.len(),
{
    reveal(Seq::filter);
    if s.len() == 0 {
    } else {
        lemma_sum_filter_le(s.drop_last(), pred);
        if pred(s.last()) {
            let sub = s.drop_last().filter(pred);
            assert(sub.push(s.last()).drop_last() =~= sub);
            assert(sum_spec(sub.push(s.last())) == sum_spec(sub) + s.last());
        }
    }
}

/// All z-score test headroom obligations for a bucket, plus the bound on the
/// sums of the bucket and of every filtered subset of it.
proof fn lemma_headroom_consequences(vals: Seq<u128>)
    requires
        vals.len() >= 1,
        9 * vals.len() * vals.len() * vals.len() * sumsq_spec(vals) <= u128::MAX,
    ensures
        sum_spec(vals) <= u128::MAX,
        3 * 3 * vals.len() * vals.len() * vals.len() * sumsq_spec(vals) <= u128::MAX,
        forall|pred: spec_fn(u128) -> bool|
            0 <= sum_spec(#[trigger] vals.filter(pred)) <= u128::MAX,
{
    assert(9 * vals.len() * vals.len() * vals.len() * sumsq_spec(vals) == 3 * 3 * vals.len()
        * vals.len() * vals.len() * sumsq_spec(vals));
    crate::stats::lemma_z_bounds(vals, 0, 3);
    assert forall|pred: spec_fn(u128) -> bool|
        0 <= sum_spec(#[trigger] vals.filter(pred)) <= u128::MAX by {
        lemma_sum_filter_le(vals, pred);
    }
}

/// Computes, for every bucket of the total view in order, the unfiltered
/// statistics record and the statistics record of the z-score-filtered
/// values (threshold 3, against the unfiltered mean and deviation).
pub fn parse_total_infos(elapsed_values: &Vec<(String, Vec<u128>)>) -> (r: (
    Vec<TimerStatistics>,
    Vec<TimerStatistics>,
))
    requires
        forall|j: int| #![trigger elapsed_values@[j]]
            0 <= j < elapsed_values@.len() ==> elapsed_values@[j].1@.len() >= 1 && filter_headroom(
                elapsed_values@[j].1@,
            ),
    ensures
        r.0@.len() == elapsed_values@.len(),
        r.1@.len() == elapsed_values@.len(),
        forall|j: int| #![trigger r.0@[j]]
            0 <= j < elapsed_values@.len() ==> stats_match(
                elapsed_values@[j].0@,
                elapsed_values@[j].1@,
                r.0@[j],
            ),
        forall|j: int| #![trigger r.1@[j]]
            0 <= j < elapsed_values@.len() ==> stats_match(
                elapsed_values@[j].0@,
                filtered_spec(elapsed_values@[j].1@, Z_THRESHOLD as int),
                r.1@[j],
            ),
{
    let n: usize = elapsed_values.len();
    let mut statistics: Vec<TimerStatistics> = Vec::new();
    let mut filtered_statistics: Vec<TimerStatistics> = Vec::new();
    for j in 0..n
        invariant
            n == elapsed_values@.len(),
            forall|p: int| #![trigger elapsed_values@[p]]
                0 <= p < elapsed_values@.len() ==> elapsed_values@[p].1@.len() >= 1
                    && filter_headroom(elapsed_values@[p].1@),
            statistics@.len() == j,
            filtered_statistics@.len() == j,
            forall|p: int| #![trigger statistics@[p]]
                0 <= p < j ==> stats_match(
                    elapsed_values@[p].0@,
                    elapsed_values@[p].1@,
                    statistics@[p],
                ),
            forall|p: int| #![trigger filtered_statistics@[p]]
                0 <= p < j ==> stats_match(
                    elapsed_values@[p].0@,
                    filtered_spec(elapsed_values@[p].1@, Z_THRESHOLD as int),
                    filtered_statistics@[p],
                ),
    {
        let entry = &elapsed_values[j];
        proof {
            lemma_headroom_consequences(entry.1@);
        }
        let st = bucket_stats(&entry.0, entry.1.as_slice());
        let parsed_values = filter_outliers(entry.1.as_slice(), Z_THRESHOLD);
        let fst = bucket_stats(&entry.0, parsed_values.as_slice());
        statistics.push(st);
        filtered_statistics.push(fst);
    }
    (statistics, filtered_statistics)
}

/// Computes, for every bucket of the per-group view in order, its
/// statistics record; no outlier filtering is applied in this view.
pub fn parse_per_chain_infos(elapsed_values: &Vec<((String, String), Vec<u128>)>) -> (r: Vec<
    PerChainTimerStatistics,
>)
    requires
        forall|j: int| #![trigger elapsed_values@[j]]
            0 <= j < elapsed_values@.len() ==> elapsed_values@[j].1@.len() >= 1 && sum_spec(
                elapsed_values@[j].1@,
            ) <= u128::MAX,
    ensures
        r@.len() == elapsed_values@.len(),
        forall|j: int| #![trigger r@[j]]
            0 <= j < elapsed_values@.len() ==> chain_stats_match(
                elapsed_values@[j].0.0@,
                elapsed_values@[j].0.1@,
                elapsed_values@[j].1@,
                r@[j],
            ),
{
    let n: usize = elapsed_values.len();
    let mut statistics: Vec<PerChainTimerStatistics> = Vec::new();
    for j in 0..n
        invariant
            n == elapsed_values@.len(),
            forall|p: int| #![trigger elapsed_values@[p]]
                0 <= p < elapsed_values@.len() ==> elapsed_values@[p].1@.len() >= 1 && sum_spec(
                    elapsed_values@[p].1@,
                ) <= u128::MAX,
            statistics@.len() == j,
            forall|p: int| #![trigger statistics@[p]]
                0 <= p < j ==> chain_stats_match(
                    elapsed_values@[p].0.0@,
                    elapsed_values@[p].0.1@,
                    elapsed_values@[p].1@,
                    statistics@[p],
                ),
    {
        let entry = &elapsed_values[j];
        let st = chain_bucket_stats(&entry.0.0, &entry.0.1, entry.1.as_slice());
        statistics.push(st);
    }
    statistics
}

/// Buckets the records by name itself and computes only the
/// outlier-filtered statistics record of every bucket, in ascending name
/// order.
pub fn parse_total_infos_with_filter(infos: Vec<TimerInfo>) -> (r: Vec<TimerStatistics>)
    requires
        forall|k: Seq<char>|
            bucket_of(infos@, k).len() > 0 ==> filter_headroom(#[trigger] bucket_of(infos@, k)),
    ensures
        forall|j: int| #![trigger r@[j]]
            0 <= j < r@.len() ==> name_from(infos@, r@[j].name@) && stats_match(
                r@[j].name@,
                filtered_spec(bucket_of(infos@, r@[j].name@), Z_THRESHOLD as int),
                r@[j],
            ),
        forall|i: int| #![trigger infos@[i].name@]
            0 <= i < infos@.len() ==> exists|j: int|
                0 <= j < r@.len() && (#[trigger] r@[j]).name@ == infos@[i].name@,
        forall|a: int, b: int| 0 <= a < b < r@.len() ==> name_lt(r@[a].name@, r@[b].name@),
{
    let ghost ginfos = infos@;
    let data = extract_data(infos);
    let buckets = data.total();
    let n: usize = buckets.len();
    let mut statistics: Vec<TimerStatistics> = Vec::new();
    for j in 0..n
        invariant
            n == buckets@.len(),
            buckets@ == data.total@,
            forall|p: int| #![trigger buckets@[p]]
                0 <= p < buckets@.len() ==> buckets@[p].1@ == bucket_of(ginfos, buckets@[p].0@)
                    && name_from(ginfos, buckets@[p].0@) && buckets@[p].1@.len() > 0,
            forall|k: Seq<char>|
                bucket_of(ginfos, k).len() > 0 ==> filter_headroom(#[trigger] bucket_of(ginfos, k)),
            statistics@.len() == j,
            forall|p: int| #![trigger statistics@[p]]
                0 <= p < j ==> statistics@[p].name@ == buckets@[p].0@ && stats_match(
                    buckets@[p].0@,
                    filtered_spec(bucket_of(ginfos, buckets@[p].0@), Z_THRESHOLD as int),
                    statistics@[p],
                ),
    {
        let entry = &buckets[j];
        proof {
            assert(bucket_of(ginfos, entry.0@).len() > 0);
            lemma_headroom_consequences(entry.1@);
        }
        let parsed_values = filter_outliers(entry.1.as_slice(), Z_THRESHOLD);
        let fst = bucket_stats(&entry.0, parsed_values.as_slice());
        statistics.push(fst);
    }
    proof {
        assert forall|i: int| #![trigger ginfos[i].name@] 0 <= i < ginfos.len() implies exists|
            j: int,
        |
            0 <= j < statistics@.len() && (#[trigger] statistics@[j]).name@
                == ginfos[i].name@ by {
            assert(crate::extract::total_has_key(data.total@, ginfos[i].name@));
            let j = choose|j: int| 0 <= j < data.total@.len() && data.total@[j].0@
                == ginfos[i].name@;
            assert(statistics@[j].name@ == ginfos[i].name@);
        }
    }
    statistics
}

} // verus!
