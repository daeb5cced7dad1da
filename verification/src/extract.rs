//! The aggregator: buckets elapsed-time values by metric name ("total"
//! view) and by (name, group key) pair ("per-group" view), with keys emitted
//! in lexicographic order.

use vstd::prelude::*;
use crate::order::lemma_name_lt_total;
use crate::order::name_lt;
use crate::order::pair_lt;
use crate::order::string_eq;
use crate::order::string_lt;
use crate::order::pair_string_lt;
use crate::record::TimerInfo;

verus! {

/// The elapsed values of the records named `name`, in input order.
pub open spec fn bucket_of(infos: Seq<TimerInfo>, name: Seq<char>) -> Seq<u128>
    decreases infos.len(),
{
    if infos.len() == 0 {
        Seq::empty()
    } else {
        let rest = bucket_of(infos.drop_last(), name);
        if infos.last().name@ == name {
            rest.push(infos.last().elapsed)
        } else {
            rest
        }
    }
}

/// The elapsed values of the records with the given name and group key,
/// in input order.
pub open spec fn pair_bucket_of(infos: Seq<TimerInfo>, name: Seq<char>, chain: Seq<char>) -> Seq<
    u128,
>
    decreases infos.len(),
{
    if infos.len() == 0 {
        Seq::empty()
    } else {
        let rest = pair_bucket_of(infos.drop_last(), name, chain);
        if infos.last().name@ == name && infos.last().src_chain@ == chain {
            rest.push(infos.last().elapsed)
        } else {
            rest
        }
    }
}

/// Whether some key of the list reads `k`.
pub open spec fn has_name(keys: Seq<String>, k: Seq<char>) -> bool {
    exists|j: int| 0 <= j < keys.len() && keys[j]@ == k
}

/// Whether some pair of the list reads `(k0, k1)`.
pub open spec fn has_pair(keys: Seq<(String, String)>, k0: Seq<char>, k1: Seq<char>) -> bool {
    exists|j: int| 0 <= j < keys.len() && keys[j].0@ == k0 && keys[j].1@ == k1
}

/// Whether some record is named `k`.
pub open spec fn name_from(infos: Seq<TimerInfo>, k: Seq<char>) -> bool {
    exists|q: int| 0 <= q < infos.len() && infos[q].name@ == k
}

/// Whether some record has name `k0` and group key `k1`.
pub open spec fn pair_from(infos: Seq<TimerInfo>, k0: Seq<char>, k1: Seq<char>) -> bool {
    exists|q: int| 0 <= q < infos.len() && infos[q].name@ == k0 && infos[q].src_chain@ == k1
}

proof fn lemma_take_one_more_info(s: Seq<TimerInfo>, i: int)
    requires
        0 <= i < s.len(),
    ensures
        s.take(i + 1).drop_last() =~= s.take(i),
        s.take(i + 1).last() == s[i],
{
}

/// The elapsed values of the records named like record `i`, collected over
/// the whole list, include that record's value.
proof fn lemma_bucket_nonempty(infos: Seq<TimerInfo>, i: int)
    requires
        0 <= i < infos.len(),
    ensures
        bucket_of(infos, infos[i].name@).len() > 0,
    decreases infos.len(),
{
    if i < infos.len() - 1 {
        lemma_bucket_nonempty(infos.drop_last(), i);
    }
}

proof fn lemma_pair_bucket_nonempty(infos: Seq<TimerInfo>, i: int)
    requires
        0 <= i < infos.len(),
    ensures
        pair_bucket_of(infos, infos[i].name@, infos[i].src_chain@).len() > 0,
    decreases infos.len(),
{
    if i < infos.len() - 1 {
        lemma_pair_bucket_nonempty(infos.drop_last(), i);
    }
}

/// All elapsed values of records named `name`, in input order.
fn collect_bucket(infos: &Vec<TimerInfo>, name: &String) -> (r: Vec<u128>)
    ensures
        r@ == bucket_of(infos@, name@),
{
    let n: usize = infos.len();
    let mut r: Vec<u128> = Vec::new();
    assert(infos@.take(0) =~= Seq::<TimerInfo>::empty());
    for i in 0..n
        invariant
            n == infos@.len(),
            r@ == bucket_of(infos@.take(i as int), name@),
    {
        proof {
            lemma_take_one_more_info(infos@, i as int);
        }
        let rec = &infos[i];
        if string_eq(&rec.name, name) {
            r.push(rec.elapsed);
        }
    }
    assert(infos@.take(n as int) =~= infos@);
    r
}

/// All elapsed values of records with the given name and group key.
fn collect_pair_bucket(infos: &Vec<TimerInfo>, name: &String, chain: &String) -> (r: Vec<u128>)
    ensures
        r@ == pair_bucket_of(infos@, name@, chain@),
{
    let n: usize = infos.len();
    let mut r: Vec<u128> = Vec::new();
    assert(infos@.take(0) =~= Seq::<TimerInfo>::empty());
    for i in 0..n
        invariant
            n == infos@.len(),
            r@ == pair_bucket_of(infos@.take(i as int), name@, chain@),
    {
        proof {
            lemma_take_one_more_info(infos@, i as int);
        }
        let rec = &infos[i];
        if string_eq(&rec.name, name) && string_eq(&rec.src_chain, chain) {
            r.push(rec.elapsed);
        }
    }
    assert(infos@.take(n as int) =~= infos@);
    r
}

fn contains_name(keys: &Vec<String>, name: &String) -> (r: bool)
    ensures
        r == has_name(keys@, name@),
{
    let n: usize = keys.len();
    for j in 0..n
        invariant
            n == keys@.len(),
            forall|p: int| 0 <= p < j ==> keys@[p]@ != name@,
    {
        if string_eq(&keys[j], name) {
            return true;
        }
    }
    false
}

fn contains_pair(keys: &Vec<(String, String)>, k0: &String, k1: &String) -> (r: bool)
    ensures
        r == has_pair(keys@, k0@, k1@),
{
    let n: usize = keys.len();
    for j in 0..n
        invariant
            n == keys@.len(),
            forall|p: int| 0 <= p < j ==> !(keys@[p].0@ == k0@ && keys@[p].1@ == k1@),
    {
        if string_eq(&keys[j].0, k0) && string_eq(&keys[j].1, k1) {
            return true;
        }
    }
    false
}

/// The distinct metric names of the records, in order of first appearance.
fn collect_names(infos: &Vec<TimerInfo>) -> (r: Vec<String>)
    ensures
        forall|a: int, b: int| 0 <= a < b < r@.len() ==> r@[a]@ != r@[b]@,
        forall|i: int| 0 <= i < infos@.len() ==> has_name(r@, #[trigger] infos@[i].name@),
        forall|j: int| 0 <= j < r@.len() ==> name_from(infos@, #[trigger] r@[j]@),
{
    let n: usize = infos.len();
    let mut r: Vec<String> = Vec::new();
    for i in 0..n
        invariant
            n == infos@.len(),
            forall|a: int, b: int| 0 <= a < b < r@.len() ==> r@[a]@ != r@[b]@,
            forall|p: int| 0 <= p < i ==> has_name(r@, #[trigger] infos@[p].name@),
            forall|j: int| 0 <= j < r@.len() ==> name_from(infos@, #[trigger] r@[j]@),
    {
        let rec = &infos[i];
        if !contains_name(&r, &rec.name) {
            let ghost prev = r@;
            r.push(rec.name.clone());
            proof {
                assert forall|k: Seq<char>| has_name(prev, k) implies has_name(r@, k) by {
                    let j = choose|j: int| 0 <= j < prev.len() && prev[j]@ == k;
                    assert(r@[j]@ == k);
                }
                assert(r@[r@.len() - 1]@ == infos@[i as int].name@);
                assert forall|j: int| 0 <= j < r@.len() implies name_from(
                    infos@,
                    #[trigger] r@[j]@,
                ) by {
                    if j < prev.len() {
                        assert(r@[j]@ == prev[j]@);
                        assert(name_from(infos@, prev[j]@));
                    } else {
                        assert(0 <= i < infos@.len() && infos@[i as int].name@ == r@[j]@);
                    }
                }
            }
        }
    }
    r
}

/// The distinct (name, group key) pairs of the records, in order of first
/// appearance.
fn collect_pairs(infos: &Vec<TimerInfo>) -> (r: Vec<(String, String)>)
    ensures
        forall|a: int, b: int|
            0 <= a < b < r@.len() ==> !(r@[a].0@ == r@[b].0@ && r@[a].1@ == r@[b].1@),
        forall|i: int|
            0 <= i < infos@.len() ==> has_pair(
                r@,
                #[trigger] infos@[i].name@,
                infos@[i].src_chain@,
            ),
        forall|j: int| 0 <= j < r@.len() ==> pair_from(infos@, #[trigger] r@[j].0@, r@[j].1@),
{
    let n: usize = infos.len();
    let mut r: Vec<(String, String)> = Vec::new();
    for i in 0..n
        invariant
            n == infos@.len(),
            forall|a: int, b: int|
                0 <= a < b < r@.len() ==> !(r@[a].0@ == r@[b].0@ && r@[a].1@ == r@[b].1@),
            forall|p: int|
                0 <= p < i ==> has_pair(r@, #[trigger] infos@[p].name@, infos@[p].src_chain@),
            forall|j: int| 0 <= j < r@.len() ==> pair_from(infos@, #[trigger] r@[j].0@, r@[j].1@),
    {
        let rec = &infos[i];
        if !contains_pair(&r, &rec.name, &rec.src_chain) {
            let ghost prev = r@;
            r.push((rec.name.clone(), rec.src_chain.clone()));
            proof {
                assert forall|k0: Seq<char>, k1: Seq<char>| has_pair(prev, k0, k1) implies has_pair(
                    r@,
                    k0,
                    k1,
                ) by {
                    let j = choose|j: int|
                        0 <= j < prev.len() && prev[j].0@ == k0 && prev[j].1@ == k1;
                    assert(r@[j].0@ == k0 && r@[j].1@ == k1);
                }
                assert(r@[r@.len() - 1].0@ == infos@[i as int].name@ && r@[r@.len() - 1].1@
                    == infos@[i as int].src_chain@);
                assert forall|j: int| 0 <= j < r@.len() implies pair_from(
                    infos@,
                    #[trigger] r@[j].0@,
                    r@[j].1@,
                ) by {
                    if j < prev.len() {
                        assert(r@[j].0@ == prev[j].0@ && r@[j].1@ == prev[j].1@);
                        assert(pair_from(infos@, prev[j].0@, prev[j].1@));
                    } else {
                        assert(0 <= i < infos@.len() && infos@[i as int].name@ == r@[j].0@
                            && infos@[i as int].src_chain@ == r@[j].1@);
                    }
                }
            }
        }
    }
    r
}

/// Sorts distinct names into strictly ascending lexicographic order,
/// keeping exactly the same set of names.
fn sort_names(keys: Vec<String>) -> (r: Vec<String>)
    requires
        forall|a: int, b: int| 0 <= a < b < keys@.len() ==> keys@[a]@ != keys@[b]@,
    ensures
        forall|a: int, b: int| 0 <= a < b < r@.len() ==> name_lt(r@[a]@, r@[b]@),
        forall|k: Seq<char>| #![trigger has_name(r@, k)] #![trigger has_name(keys@, k)]
            has_name(r@, k) == has_name(keys@, k),
{
    let n: usize = keys.len();
    let mut out: Vec<String> = Vec::new();
    for i in 0..n
        invariant
            n == keys@.len(),
            forall|a: int, b: int| 0 <= a < b < keys@.len() ==> keys@[a]@ != keys@[b]@,
            forall|a: int, b: int| 0 <= a < b < out@.len() ==> name_lt(out@[a]@, out@[b]@),
            forall|k: Seq<char>| #![trigger has_name(out@, k)]
                has_name(out@, k) == has_name(keys@.take(i as int), k),
    {
        let x = &keys[i];
        proof {
            assert(has_name(keys@.take(i as int + 1), keys@[i as int]@)) by {
                assert(keys@.take(i as int + 1)[i as int]@ == keys@[i as int]@);
            }
        }
        if contains_name(&out, x) {
            proof {
                let j = choose|j: int| 0 <= j < out@.len() && out@[j]@ == x@;
                let q = choose|q: int|
                    0 <= q < keys@.take(i as int).len() && keys@.take(i as int)[q]@ == x@;
                assert(keys@[q]@ == keys@[i as int]@);
                assert(false);
            }
        }
        let mut j: usize = 0;
        while j < out.len() && string_lt(&out[j], x)
            invariant
                j <= out@.len(),
                forall|p: int| 0 <= p < j ==> name_lt(out@[p]@, x@),
            decreases out@.len() - j,
        {
            j = j + 1;
        }
        proof {
            if (j as int) < out@.len() {
                lemma_name_lt_total(out@[j as int]@, x@);
                assert(out@[j as int]@ != x@) by {
                    if out@[j as int]@ == x@ {
                        assert(has_name(out@, x@));
                    }
                }
            }
        }
        let ghost prev = out@;
        let xc = x.clone();
        out.insert(j, xc);
        proof {
            assert(out@ == prev.insert(j as int, xc));
            prev.insert_ensures(j as int, xc);
            assert(xc@ == x@);
            assert forall|a: int, b: int| 0 <= a < b < out@.len() implies name_lt(
                out@[a]@,
                out@[b]@,
            ) by {
                if b < j {
                } else if a > j {
                    assert(out@[a]@ == prev[a - 1]@ && out@[b]@ == prev[b - 1]@);
                } else if a < j && b == j {
                    assert(out@[a]@ == prev[a]@ && out@[b]@ == x@);
                } else if a == j && b > j {
                    assert(out@[a]@ == x@ && out@[b]@ == prev[b - 1]@);
                    if b - 1 > j {
                        crate::order::lemma_name_lt_trans(x@, prev[j as int]@, prev[b - 1]@);
                    }
                } else if a < j && b > j {
                    assert(out@[a]@ == prev[a]@ && out@[b]@ == prev[b - 1]@);
                    if b - 1 > j {
                        crate::order::lemma_name_lt_trans(prev[a]@, prev[j as int]@, prev[b - 1]@);
                    }
                }
            }
            assert forall|k: Seq<char>| #![trigger has_name(out@, k)]
                has_name(out@, k) == has_name(keys@.take(i as int + 1), k) by {
                assert(keys@.take(i as int + 1).drop_last() =~= keys@.take(i as int));
                if has_name(out@, k) {
                    let p = choose|p: int| 0 <= p < out@.len() && out@[p]@ == k;
                    if p == j {
                        assert(keys@.take(i as int + 1)[i as int]@ == k);
                    } else if p < j {
                        assert(prev[p]@ == k);
                        assert(has_name(prev, k));
                        let q = choose|q: int|
                            0 <= q < keys@.take(i as int).len() && keys@.take(i as int)[q]@ == k;
                        assert(keys@.take(i as int + 1)[q]@ == k);
                    } else {
                        assert(prev[p - 1]@ == k);
                        assert(has_name(prev, k));
                        let q = choose|q: int|
                            0 <= q < keys@.take(i as int).len() && keys@.take(i as int)[q]@ == k;
                        assert(keys@.take(i as int + 1)[q]@ == k);
                    }
                }
                if has_name(keys@.take(i as int + 1), k) {
                    let q = choose|q: int|
                        0 <= q < keys@.take(i as int + 1).len() && (#[trigger] keys@.take(
                            i as int + 1,
                        )[q])@ == k;
                    if q == i {
                        assert(out@[j as int]@ == k);
                    } else {
                        assert(keys@.take(i as int)[q]@ == k);
                        assert(has_name(keys@.take(i as int), k));
                        assert(has_name(prev, k));
                        let p = choose|p: int| 0 <= p < prev.len() && prev[p]@ == k;
                        if p < j {
                            assert(prev.insert(j as int, xc)[p]@ == k);
                        } else {
                            assert(prev.insert(j as int, xc)[p + 1]@ == k);
                        }
                    }
                }
            }
        }
    }
    assert(keys@.take(n as int) =~= keys@);
    out
}

/// Sorts distinct (name, group) pairs into strictly ascending order, name
/// primary and group secondary, keeping exactly the same set of pairs.
fn sort_pairs(keys: Vec<(String, String)>) -> (r: Vec<(String, String)>)
    requires
        forall|a: int, b: int|
            0 <= a < b < keys@.len() ==> !(keys@[a].0@ == keys@[b].0@ && keys@[a].1@
                == keys@[b].1@),
    ensures
        forall|a: int, b: int|
            0 <= a < b < r@.len() ==> pair_lt(r@[a].0@, r@[a].1@, r@[b].0@, r@[b].1@),
        forall|k0: Seq<char>, k1: Seq<char>| #![trigger has_pair(r@, k0, k1)]
            has_pair(r@, k0, k1) == has_pair(keys@, k0, k1),
{
    let n: usize = keys.len();
    let mut out: Vec<(String, String)> = Vec::new();
    for i in 0..n
        invariant
            n == keys@.len(),
            forall|a: int, b: int|
                0 <= a < b < keys@.len() ==> !(keys@[a].0@ == keys@[b].0@ && keys@[a].1@
                    == keys@[b].1@),
            forall|a: int, b: int|
                0 <= a < b < out@.len() ==> pair_lt(out@[a].0@, out@[a].1@, out@[b].0@, out@[b].1@),
            forall|k0: Seq<char>, k1: Seq<char>| #![trigger has_pair(out@, k0, k1)]
                has_pair(out@, k0, k1) == has_pair(keys@.take(i as int), k0, k1),
    {
        let x = &keys[i];
        proof {
            assert(has_pair(keys@.take(i as int + 1), keys@[i as int].0@, keys@[i as int].1@)) by {
                assert(keys@.take(i as int + 1)[i as int].0@ == keys@[i as int].0@ && keys@.take(
                    i as int + 1,
                )[i as int].1@ == keys@[i as int].1@);
            }
        }
        if contains_pair(&out, &x.0, &x.1) {
            proof {
                let j = choose|j: int|
                    0 <= j < out@.len() && out@[j].0@ == x.0@ && out@[j].1@ == x.1@;
                let q = choose|q: int|
                    0 <= q < keys@.take(i as int).len() && (#[trigger] keys@.take(i as int)[q]).0@
                        == x.0@ && keys@.take(i as int)[q].1@ == x.1@;
                assert(keys@[q].0@ == keys@[i as int].0@ && keys@[q].1@ == keys@[i as int].1@);
                assert(false);
            }
        }
        let mut j: usize = 0;
        while j < out.len() && pair_string_lt(&out[j].0, &out[j].1, &x.0, &x.1)
            invariant
                j <= out@.len(),
                forall|p: int| 0 <= p < j ==> pair_lt(out@[p].0@, out@[p].1@, x.0@, x.1@),
            decreases out@.len() - j,
        {
            j = j + 1;
        }
        proof {
            if (j as int) < out@.len() {
                crate::order::lemma_pair_lt_total(out@[j as int].0@, out@[j as int].1@, x.0@, x.1@);
                assert(!(out@[j as int].0@ == x.0@ && out@[j as int].1@ == x.1@)) by {
                    if out@[j as int].0@ == x.0@ && out@[j as int].1@ == x.1@ {
                        assert(has_pair(out@, x.0@, x.1@));
                    }
                }
            }
        }
        let ghost prev = out@;
        let xc = (x.0.clone(), x.1.clone());
        out.insert(j, xc);
        proof {
            assert(out@ == prev.insert(j as int, xc));
            prev.insert_ensures(j as int, xc);
            assert(xc.0@ == x.0@ && xc.1@ == x.1@);
            assert forall|a: int, b: int| 0 <= a < b < out@.len() implies pair_lt(
                out@[a].0@,
                out@[a].1@,
                out@[b].0@,
                out@[b].1@,
            ) by {
                if b < j {
                } else if a > j {
                    assert(out@[a] == prev[a - 1] && out@[b] == prev[b - 1]);
                } else if a < j && b == j {
                    assert(out@[a] == prev[a] && out@[b] == xc);
                } else if a == j && b > j {
                    assert(out@[a] == xc && out@[b] == prev[b - 1]);
                    if b - 1 > j {
                        crate::order::lemma_pair_lt_trans(
                            x.0@,
                            x.1@,
                            prev[j as int].0@,
                            prev[j as int].1@,
                            prev[b - 1].0@,
                            prev[b - 1].1@,
                        );
                    }
                } else if a < j && b > j {
                    assert(out@[a] == prev[a] && out@[b] == prev[b - 1]);
                    if b - 1 > j {
                        crate::order::lemma_pair_lt_trans(
                            prev[a].0@,
                            prev[a].1@,
                            prev[j as int].0@,
                            prev[j as int].1@,
                            prev[b - 1].0@,
                            prev[b - 1].1@,
                        );
                    }
                }
            }
            assert forall|k0: Seq<char>, k1: Seq<char>| #![trigger has_pair(out@, k0, k1)]
                has_pair(out@, k0, k1) == has_pair(keys@.take(i as int + 1), k0, k1) by {
                assert(keys@.take(i as int + 1).drop_last() =~= keys@.take(i as int));
                if has_pair(out@, k0, k1) {
                    let p = choose|p: int|
                        0 <= p < out@.len() && out@[p].0@ == k0 && out@[p].1@ == k1;
                    if p == j {
                        assert(keys@.take(i as int + 1)[i as int].0@ == k0 && keys@.take(
                            i as int + 1,
                        )[i as int].1@ == k1);
                    } else {
                        if p < j {
                            assert(prev[p].0@ == k0 && prev[p].1@ == k1);
                        } else {
                            assert(prev[p - 1].0@ == k0 && prev[p - 1].1@ == k1);
                        }
                        assert(has_pair(prev, k0, k1));
                        let q = choose|q: int|
                            0 <= q < keys@.take(i as int).len() && (#[trigger] keys@.take(
                                i as int,
                            )[q]).0@ == k0 && keys@.take(i as int)[q].1@ == k1;
                        assert(keys@.take(i as int + 1)[q].0@ == k0 && keys@.take(i as int + 1)[q].1@
                            == k1);
                    }
                }
                if has_pair(keys@.take(i as int + 1), k0, k1) {
                    let q = choose|q: int|
                        0 <= q < keys@.take(i as int + 1).len() && (#[trigger] keys@.take(
                            i as int + 1,
                        )[q]).0@ == k0 && keys@.take(i as int + 1)[q].1@ == k1;
                    if q == i {
                        assert(out@[j as int].0@ == k0 && out@[j as int].1@ == k1);
                    } else {
                        assert(keys@.take(i as int)[q].0@ == k0 && keys@.take(i as int)[q].1@
                            == k1);
                        assert(has_pair(keys@.take(i as int), k0, k1));
                        assert(has_pair(prev, k0, k1));
                        let p = choose|p: int|
                            0 <= p < prev.len() && prev[p].0@ == k0 && prev[p].1@ == k1;
                        if p < j {
                            assert(prev.insert(j as int, xc)[p].0@ == k0 && prev.insert(
                                j as int,
                                xc,
                            )[p].1@ == k1);
                        } else {
                            assert(prev.insert(j as int, xc)[p + 1].0@ == k0 && prev.insert(
                                j as int,
                                xc,
                            )[p + 1].1@ == k1);
                        }
                    }
                }
            }
        }
    }
    assert(keys@.take(n as int) =~= keys@);
    out
}

/// Buckets of elapsed values: by metric name, and by (name, group key) pair.
pub struct ExtractedData {
    pub total: Vec<(String, Vec<u128>)>,
    pub per_chain: Vec<((String, String), Vec<u128>)>,
}

impl ExtractedData {
    /// The buckets keyed by metric name alone.
    pub fn total(&self) -> (r: &Vec<(String, Vec<u128>)>)
        ensures
            r == &self.total,
    {
        &self.total
    }

    /// The buckets keyed by (metric name, group key) pair.
    pub fn per_chain(&self) -> (r: &Vec<((String, String), Vec<u128>)>)
        ensures
            r == &self.per_chain,
    {
        &self.per_chain
    }
}

/// Buckets every record's elapsed value by name and by (name, group key).
/// Each bucket holds, in input order, exactly the elapsed values of the
/// records with that key; there is one bucket for every key that occurs, no
/// other; and the buckets are emitted in strictly ascending key order.
pub fn extract_data(infos: Vec<TimerInfo>) -> (r: ExtractedData)
    ensures
        forall|j: int| #![trigger r.total@[j]]
            0 <= j < r.total@.len() ==> r.total@[j].1@ == bucket_of(infos@, r.total@[j].0@)
                && name_from(infos@, r.total@[j].0@) && r.total@[j].1@.len() > 0,
        forall|i: int|
            0 <= i < infos@.len() ==> total_has_key(r.total@, #[trigger] infos@[i].name@),
        forall|a: int, b: int|
            0 <= a < b < r.total@.len() ==> name_lt(r.total@[a].0@, r.total@[b].0@),
        forall|j: int| #![trigger r.per_chain@[j]]
            0 <= j < r.per_chain@.len() ==> r.per_chain@[j].1@ == pair_bucket_of(
                infos@,
                r.per_chain@[j].0.0@,
                r.per_chain@[j].0.1@,
            ) && pair_from(infos@, r.per_chain@[j].0.0@, r.per_chain@[j].0.1@)
                && r.per_chain@[j].1@.len() > 0,
        forall|i: int|
            0 <= i < infos@.len() ==> chain_has_key(
                r.per_chain@,
                #[trigger] infos@[i].name@,
                infos@[i].src_chain@,
            ),
        forall|a: int, b: int|
            0 <= a < b < r.per_chain@.len() ==> pair_lt(
                r.per_chain@[a].0.0@,
                r.per_chain@[a].0.1@,
                r.per_chain@[b].0.0@,
                r.per_chain@[b].0.1@,
            ),
        forall|a: int, b: int| 0 <= a < b < r.total@.len() ==> r.total@[a].0@ != r.total@[b].0@,
        forall|a: int, b: int|
            0 <= a < b < r.per_chain@.len() ==> !(r.per_chain@[a].0.0@ == r.per_chain@[b].0.0@
                && r.per_chain@[a].0.1@ == r.per_chain@[b].0.1@),
{
    let keys0 = collect_names(&infos);
    let ghost gkeys = keys0@;
    let names = sort_names(keys0);
    proof {
        assert forall|p: int| 0 <= p < names@.len() implies name_from(
            infos@,
            #[trigger] names@[p]@,
        ) by {
            assert(has_name(names@, names@[p]@)) by {
                assert(0 <= p < names@.len() && names@[p]@ == names@[p]@);
            }
            let q = choose|q: int| 0 <= q < gkeys.len() && gkeys[q]@ == names@[p]@;
            assert(name_from(infos@, gkeys[q]@));
        }
    }
    let mut total: Vec<(String, Vec<u128>)> = Vec::new();
    let nn: usize = names.len();
    for j in 0..nn
        invariant
            nn == names@.len(),
            total@.len() == j,
            forall|p: int| 0 <= p < j ==> (#[trigger] total@[p]).0@ == names@[p]@,
            forall|p: int|
                0 <= p < j ==> (#[trigger] total@[p]).1@ == bucket_of(infos@, names@[p]@)
                    && total@[p].1@.len() > 0,
            forall|a: int, b: int| 0 <= a < b < names@.len() ==> name_lt(names@[a]@, names@[b]@),
            forall|p: int| 0 <= p < names@.len() ==> name_from(infos@, #[trigger] names@[p]@),
            forall|i: int| 0 <= i < infos@.len() ==> has_name(names@, #[trigger] infos@[i].name@),
    {
        let key = names[j].clone();
        let vals = collect_bucket(&infos, &key);
        proof {
            let q = choose|q: int| 0 <= q < infos@.len() && infos@[q].name@ == names@[j as int]@;
            lemma_bucket_nonempty(infos@, q);
        }
        total.push((key, vals));
    }
    let pkeys0 = collect_pairs(&infos);
    let ghost gpkeys = pkeys0@;
    let pairs = sort_pairs(pkeys0);
    proof {
        assert forall|p: int| 0 <= p < pairs@.len() implies pair_from(
            infos@,
            (#[trigger] pairs@[p]).0@,
            pairs@[p].1@,
        ) by {
            assert(has_pair(pairs@, pairs@[p].0@, pairs@[p].1@)) by {
                assert(0 <= p < pairs@.len() && pairs@[p].0@ == pairs@[p].0@);
            }
            let q = choose|q: int|
                0 <= q < gpkeys.len() && (#[trigger] gpkeys[q]).0@ == pairs@[p].0@ && gpkeys[q].1@
                    == pairs@[p].1@;
            assert(pair_from(infos@, gpkeys[q].0@, gpkeys[q].1@));
        }
    }
    let mut per_chain: Vec<((String, String), Vec<u128>)> = Vec::new();
    let np: usize = pairs.len();
    for j in 0..np
        invariant
            np == pairs@.len(),
            per_chain@.len() == j,
            forall|p: int|
                0 <= p < j ==> (#[trigger] per_chain@[p]).0.0@ == pairs@[p].0@
                    && per_chain@[p].0.1@ == pairs@[p].1@,
            forall|p: int|
                0 <= p < j ==> (#[trigger] per_chain@[p]).1@ == pair_bucket_of(
                    infos@,
                    pairs@[p].0@,
                    pairs@[p].1@,
                ) && per_chain@[p].1@.len() > 0,
            forall|a: int, b: int|
                0 <= a < b < pairs@.len() ==> pair_lt(
                    pairs@[a].0@,
                    pairs@[a].1@,
                    pairs@[b].0@,
                    pairs@[b].1@,
                ),
            forall|p: int|
                0 <= p < pairs@.len() ==> pair_from(
                    infos@,
                    (#[trigger] pairs@[p]).0@,
                    pairs@[p].1@,
                ),
            forall|i: int|
                0 <= i < infos@.len() ==> has_pair(
                    pairs@,
                    #[trigger] infos@[i].name@,
                    infos@[i].src_chain@,
                ),
    {
        let key0 = pairs[j].0.clone();
        let key1 = pairs[j].1.clone();
        let vals = collect_pair_bucket(&infos, &key0, &key1);
        proof {
            let q = choose|q: int|
                0 <= q < infos@.len() && infos@[q].name@ == pairs@[j as int].0@
                    && infos@[q].src_chain@ == pairs@[j as int].1@;
            lemma_pair_bucket_nonempty(infos@, q);
        }
        per_chain.push(((key0, key1), vals));
    }
    let r = ExtractedData { total, per_chain };
    proof {
        assert forall|i: int| 0 <= i < infos@.len() implies total_has_key(
            r.total@,
            #[trigger] infos@[i].name@,
        ) by {
            assert(has_name(names@, infos@[i].name@));
            let j = choose|j: int| 0 <= j < names@.len() && names@[j]@ == infos@[i].name@;
            assert(r.total@[j].0@ == infos@[i].name@);
        }
        assert forall|a: int, b: int| 0 <= a < b < r.total@.len() implies r.total@[a].0@
            != r.total@[b].0@ by {
            assert(r.total@[a].0@ == names@[a]@ && r.total@[b].0@ == names@[b]@);
            assert(name_lt(names@[a]@, names@[b]@));
            crate::order::lemma_name_lt_irrefl(r.total@[a].0@);
        }
        assert forall|a: int, b: int|
            0 <= a < b < r.per_chain@.len() implies !(r.per_chain@[a].0.0@ == r.per_chain@[b].0.0@
            && r.per_chain@[a].0.1@ == r.per_chain@[b].0.1@) by {
            assert(r.per_chain@[a].0.0@ == pairs@[a].0@ && r.per_chain@[a].0.1@ == pairs@[a].1@);
            assert(r.per_chain@[b].0.0@ == pairs@[b].0@ && r.per_chain@[b].0.1@ == pairs@[b].1@);
            assert(pair_lt(pairs@[a].0@, pairs@[a].1@, pairs@[b].0@, pairs@[b].1@));
            crate::order::lemma_name_lt_irrefl(r.per_chain@[a].0.0@);
            crate::order::lemma_name_lt_irrefl(r.per_chain@[a].0.1@);
        }
        assert forall|i: int| 0 <= i < infos@.len() implies chain_has_key(
            r.per_chain@,
            #[trigger] infos@[i].name@,
            infos@[i].src_chain@,
        ) by {
            assert(has_pair(pairs@, infos@[i].name@, infos@[i].src_chain@));
            let j = choose|j: int|
                0 <= j < pairs@.len() && pairs@[j].0@ == infos@[i].name@ && pairs@[j].1@
                    == infos@[i].src_chain@;
            assert(r.per_chain@[j].0.0@ == infos@[i].name@ && r.per_chain@[j].0.1@
                == infos@[i].src_chain@);
        }
    }
    r
}

/// Whether the total view holds a bucket keyed `k`.
pub open spec fn total_has_key(m: Seq<(String, Vec<u128>)>, k: Seq<char>) -> bool {
    exists|j: int| 0 <= j < m.len() && m[j].0@ == k
}

/// Whether the per-group view holds a bucket keyed `(k0, k1)`.
pub open spec fn chain_has_key(
    m: Seq<((String, String), Vec<u128>)>,
    k0: Seq<char>,
    k1: Seq<char>,
) -> bool {
    exists|j: int| 0 <= j < m.len() && m[j].0.0@ == k0 && m[j].0.1@ == k1
}

} // verus!
