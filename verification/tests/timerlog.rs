use timerlog::FailedEntry;
use timerlog::TimerInfo;
use timerlog::compute_max;
use timerlog::compute_min;
use timerlog::compute_percentile;
use timerlog::compute_sum;
use timerlog::extract_data;
use timerlog::filter_outliers;
use timerlog::parse_entry;
use timerlog::parse_per_chain_infos;
use timerlog::parse_records;
use timerlog::parse_total_infos;
use timerlog::parse_total_infos_with_filter;
use timerlog::sample_variance;
use timerlog::split_records;
use timerlog::z_score;

/// A raw stream in the source format: one extraneous leading byte, then the
/// records, each followed by a newline.
fn stream(records: &[&str]) -> Vec<u8> {
    let mut s = String::from("[");
    for r in records.iter() {
        s.push_str(r);
        s.push('\n');
    }
    s.into_bytes()
}

#[test]
fn test_compute_min() {
    let values: Vec<u128> = vec![100, 25, 1455, 976, 15555, 26];

    let computed_mean = compute_min(&values);
    let expected_mean = 25;

    assert_eq!(computed_mean, expected_mean);
}

#[test]
fn test_compute_max() {
    let values: Vec<u128> = vec![100, 25, 1455, 976, 15555, 26];

    let computed_mean = compute_max(&values);
    let expected_mean = 15555;

    assert_eq!(computed_mean, expected_mean);
}

#[test]
fn test_compute_mean() {
    let values: Vec<u128> = vec![100, 25, 1455, 976, 15555, 26, 777, 134, 843, 271];

    let sum = compute_sum(&values);
    let computed_mean = sum as f64 / values.len() as f64;
    let expected_mean = 2016.2;

    assert_eq!(computed_mean, expected_mean);
}

#[test]
fn test_compute_total_minutes() {
    let values: Vec<u128> = vec![100, 100, 100, 100, 100, 100];

    let sum = compute_sum(&values);
    let computed_mean = sum as f64 / 60000f64;
    let expected_mean = 0.01;

    assert_eq!(computed_mean, expected_mean);
}

#[test]
fn test_compute_q10() {
    let values: Vec<u128> = vec![100, 25, 1455, 976, 15555, 26, 777, 134, 843, 271];

    let computed_mean = compute_percentile(&values, 10);
    let expected_mean = 25;

    assert_eq!(computed_mean, expected_mean);
}

#[test]
fn test_compute_q25() {
    let values: Vec<u128> = vec![100, 25, 1455, 976, 15555, 26, 777, 134, 843, 271];

    let computed_mean = compute_percentile(&values, 25);
    let expected_mean = 26;

    assert_eq!(computed_mean, expected_mean);
}

#[test]
fn test_compute_q50() {
    let values: Vec<u128> = vec![100, 25, 1455, 976, 15555, 26, 777, 134, 843, 271];

    let computed_mean = compute_percentile(&values, 50);
    let expected_mean = 271;

    assert_eq!(computed_mean, expected_mean);
}

#[test]
fn test_compute_q75() {
    let values: Vec<u128> = vec![100, 25, 1455, 976, 15555, 26, 777, 134, 843, 271];

    let computed_mean = compute_percentile(&values, 75);
    let expected_mean = 976;

    assert_eq!(computed_mean, expected_mean);
}

#[test]
fn test_compute_q90() {
    let values: Vec<u128> = vec![100, 25, 1455, 976, 15555, 26, 777, 134, 843, 271];

    let computed_mean = compute_percentile(&values, 90);
    let expected_mean = 1455;

    assert_eq!(computed_mean, expected_mean);
}

#[test]
fn test_std_deviation() {
    let values: Vec<u128> = vec![3, 4, 4, 5, 6, 7, 7, 8, 8, 9];

    let (num, den) = sample_variance(&values);
    let computed_mean = (num as f64 / den as f64).sqrt();
    let expected_mean = 2.05;

    assert!((computed_mean - expected_mean).abs() < 1e-1);
}

#[test]
fn test_z_score_pass() {
    // mean 50 and standard deviation 5, carried as sum 100, sum of squares
    // 5025 over 2 values: z(55) = 1 is inside the threshold.
    let value = 55;

    let computed_mean = z_score(value, 100, 5025, 2, 3);

    assert!(computed_mean);
}

#[test]
fn test_z_score_fail() {
    // mean 50 and standard deviation 5: z(65) = 3 is not strictly inside.
    let value = 65;

    let computed_mean = z_score(value, 100, 5025, 2, 3);

    assert!(!computed_mean);
}

#[test]
fn test_split_well_formed() {
    let r1 = r#"{"name":"a","elapsed":10,"chain":"x"}"#;
    let r2 = r#"{"name":"b","elapsed":20,"chain":"y"}"#;
    let r3 = r#"{"name":"c","elapsed":30,"chain":"z"}"#;
    let input = stream(&[r1, r2, r3]);

    let candidates = split_records(&input);

    assert_eq!(candidates.len(), 3);
    assert_eq!(candidates[0], r1.as_bytes().to_vec());
    assert_eq!(candidates[1], r2.as_bytes().to_vec());
    assert_eq!(candidates[2], r3.as_bytes().to_vec());

    let (infos, failed) = parse_records(&input);
    assert_eq!(infos.len(), 3);
    assert_eq!(failed.len(), 0);
}

#[test]
fn test_split_empty_input() {
    let (infos, failed) = parse_records(&Vec::new());
    assert_eq!(infos.len(), 0);
    assert_eq!(failed.len(), 0);
}

#[test]
fn test_unbalanced_candidate() {
    let good = r#"{"name":"a","elapsed":1,"chain":"c"}"#;
    let mut input = stream(&[good]);
    input.extend_from_slice(b"{\"bad\": ");

    let (infos, failed) = parse_records(&input);

    assert_eq!(infos.len(), 1);
    assert_eq!(failed.len(), 1);
    assert_eq!(failed[0].line, 1);
    assert_eq!(failed[0].entry, "{\"bad\": ");
    assert!(!failed[0].cause.is_empty());
}

#[test]
fn test_non_numeric_elapsed() {
    let bad = r#"{"name":"a","elapsed":"x","chain":"c"}"#;
    let input = stream(&[bad]);

    let (infos, failed) = parse_records(&input);

    assert_eq!(infos.len(), 0);
    assert_eq!(failed.len(), 1);
    assert_eq!(failed[0].line, 0);
    assert_eq!(failed[0].cause, "failed to parse Value `\"x\"` to u64");
}

#[test]
fn test_missing_elapsed() {
    let bad = r#"{"name":"a","chain":"c"}"#;
    let input = stream(&[bad]);

    let (infos, failed) = parse_records(&input);

    assert_eq!(infos.len(), 0);
    assert_eq!(failed.len(), 1);
    assert_eq!(failed[0].cause, "failed to parse Value `null` to u64");
}

#[test]
fn test_empty_name_rejected() {
    let bad = r#"{"name":"","elapsed":1,"chain":"c"}"#;
    let input = stream(&[bad]);

    let (infos, failed) = parse_records(&input);

    assert_eq!(infos.len(), 0);
    assert_eq!(failed.len(), 1);
    assert_eq!(failed[0].cause, "record name is empty");
}

#[test]
fn test_not_object_candidate() {
    let outcome = parse_entry(&b"[1,2]".to_vec(), 4);

    match outcome {
        Ok(_) => panic!("a non-object candidate must not parse"),
        Err(e) => {
            assert_eq!(e.line, 4);
            assert_eq!(e.cause, "failed to parse Value `[1,2]` to Object");
        }
    }
}

#[test]
fn test_metadata_passthrough() {
    let rec = r#"{"name":"a","elapsed":7,"chain":"c","note":"hi"}"#;

    let outcome = parse_entry(&rec.as_bytes().to_vec(), 0);

    let info = outcome.expect("record must parse");
    assert_eq!(info.name, "a");
    assert_eq!(info.src_chain, "c");
    assert_eq!(info.elapsed, 7);
    assert_eq!(info.info, vec![("note".to_string(), "\"hi\"".to_string())]);
}

#[test]
fn test_src_chain_preference() {
    let rec = r#"{"name":"a","elapsed":7,"chain":"fallback","src_chain":"primary"}"#;

    let outcome = parse_entry(&rec.as_bytes().to_vec(), 0);

    let info = outcome.expect("record must parse");
    assert_eq!(info.src_chain, "primary");
    // both group-key alternates are consumed, neither leaks into metadata
    assert!(info.info.is_empty());
}

#[test]
fn test_extract_data_buckets() {
    let mk = |name: &str, chain: &str, elapsed: u128| TimerInfo {
        name: name.to_string(),
        src_chain: chain.to_string(),
        elapsed,
        info: Vec::new(),
    };
    let infos = vec![mk("b", "x", 1), mk("a", "x", 2), mk("b", "y", 3), mk("a", "x", 4)];

    let data = extract_data(infos);

    let total = data.total();
    assert_eq!(total.len(), 2);
    assert_eq!(total[0].0, "a");
    assert_eq!(total[0].1, vec![2, 4]);
    assert_eq!(total[1].0, "b");
    assert_eq!(total[1].1, vec![1, 3]);

    let per_chain = data.per_chain();
    assert_eq!(per_chain.len(), 3);
    assert_eq!(per_chain[0].0, ("a".to_string(), "x".to_string()));
    assert_eq!(per_chain[0].1, vec![2, 4]);
    assert_eq!(per_chain[1].0, ("b".to_string(), "x".to_string()));
    assert_eq!(per_chain[1].1, vec![1]);
    assert_eq!(per_chain[2].0, ("b".to_string(), "y".to_string()));
    assert_eq!(per_chain[2].1, vec![3]);
}

#[test]
fn test_end_to_end_two_records() {
    let r1 = r#"{"name":"a","elapsed":10,"chain":"x"}"#;
    let r2 = r#"{"name":"a","elapsed":20,"chain":"y"}"#;
    let input = stream(&[r1, r2]);

    let (infos, failed) = parse_records(&input);
    assert!(failed.is_empty());
    assert_eq!(infos.len(), 2);

    let data = extract_data(infos);
    let (stats, filtered) = parse_total_infos(data.total());

    assert_eq!(stats.len(), 1);
    assert_eq!(stats[0].name, "a");
    assert_eq!(stats[0].count, 2);
    assert_eq!(stats[0].sum as f64 / stats[0].count as f64, 15.0);
    assert_eq!(stats[0].min, 10);
    assert_eq!(stats[0].max, 20);
    // a two-value list has zero-free deviation only if equal; both survive
    assert_eq!(filtered.len(), 1);
    assert_eq!(filtered[0].count, 2);

    let per = parse_per_chain_infos(data.per_chain());
    assert_eq!(per.len(), 2);
    assert_eq!(per[0].name, "a");
    assert_eq!(per[0].chain, "x");
    assert_eq!(per[0].count, 1);
    assert_eq!(per[0].sum as f64 / per[0].count as f64, 10.0);
    assert_eq!(per[1].name, "a");
    assert_eq!(per[1].chain, "y");
    assert_eq!(per[1].count, 1);
    assert_eq!(per[1].sum as f64 / per[1].count as f64, 20.0);
}

#[test]
fn test_outlier_excluded() {
    // ten identical values and one extreme: the extreme's z-score is
    // 10 / sqrt(11), about 3.02, outside the threshold of 3
    let mut values: Vec<u128> = vec![100; 10];
    values.push(10000);

    let kept = filter_outliers(&values, 3);

    assert_eq!(kept.len(), 10);
    assert!(!kept.contains(&10000));
}

#[test]
fn test_identical_values_no_outliers() {
    let values: Vec<u128> = vec![5, 5, 5, 5];

    let kept = filter_outliers(&values, 3);

    assert_eq!(kept, values);
}

#[test]
fn test_mean_of_identical_values() {
    let values: Vec<u128> = vec![7, 7, 7, 7];

    let sum = compute_sum(&values);

    assert_eq!(sum, 28);
    assert_eq!(sum as f64 / values.len() as f64, 7.0);
}

#[test]
fn test_variance_of_identical_values() {
    let values: Vec<u128> = vec![9, 9, 9];

    let (num, _den) = sample_variance(&values);

    assert_eq!(num, 0);
}

#[test]
fn test_percentile_order_independent() {
    let values: Vec<u128> = vec![100, 25, 1455, 976, 15555, 26, 777, 134, 843, 271];
    let shuffled: Vec<u128> = vec![843, 100, 26, 15555, 271, 777, 1455, 25, 134, 976];

    for p in [10, 25, 50, 75, 90] {
        assert_eq!(compute_percentile(&values, p), compute_percentile(&shuffled, p));
    }
}

#[test]
fn test_extrema_bound_all_values() {
    let values: Vec<u128> = vec![8, 3, 12, 3, 9];

    let lo = compute_min(&values);
    let hi = compute_max(&values);

    for v in &values {
        assert!(lo <= *v && *v <= hi);
    }
}

#[test]
fn test_total_infos_with_filter() {
    let mk = |name: &str, chain: &str, elapsed: u128| TimerInfo {
        name: name.to_string(),
        src_chain: chain.to_string(),
        elapsed,
        info: Vec::new(),
    };
    let mut infos: Vec<TimerInfo> = Vec::new();
    for _ in 0..10 {
        infos.push(mk("slow", "x", 100));
    }
    infos.push(mk("slow", "x", 10000));
    infos.push(mk("quick", "y", 4));

    let stats = parse_total_infos_with_filter(infos);

    assert_eq!(stats.len(), 2);
    assert_eq!(stats[0].name, "quick");
    assert_eq!(stats[0].count, 1);
    assert_eq!(stats[1].name, "slow");
    // the extreme value is excluded by the z-score filter
    assert_eq!(stats[1].count, 10);
    assert_eq!(stats[1].max, 100);
}

#[test]
fn test_failed_entry_new() {
    let entry = FailedEntry::new(3, "raw text", "cause text".to_string());

    assert_eq!(entry.line, 3);
    assert_eq!(entry.entry, "raw text");
    assert_eq!(entry.cause, "cause text");
}

#[test]
fn test_braces_inside_strings() {
    // braces inside JSON string literals must not confuse the splitter
    let r1 = r#"{"name":"a{b}c","elapsed":5,"chain":"x}"}"#;
    let input = stream(&[r1]);

    let (infos, failed) = parse_records(&input);

    assert!(failed.is_empty());
    assert_eq!(infos.len(), 1);
    assert_eq!(infos[0].name, "a{b}c");
    assert_eq!(infos[0].src_chain, "x}");
}
