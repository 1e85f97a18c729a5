use resppress::report::{
    latency_cells_of, latency_headers_of, render_histogram, render_latency_table, render_summary,
    summary_values_of,
};
use resppress::config::parse_args;
use resppress::stats::{bar, bucket_counts, bucket_index, latency_sum, percentile, summarize, LatencySummary};

fn chars(s: &str) -> Vec<char> {
    s.chars().collect()
}

fn lines(v: Vec<Vec<char>>) -> Vec<String> {
    v.into_iter().map(|l| l.into_iter().collect()).collect()
}

#[test]
fn percentile_reads_nearest_rank() {
    let sorted: Vec<u32> = (1..=10).collect();
    assert_eq!(percentile(&sorted, 50_000), 6);
    assert_eq!(percentile(&sorted, 90_000), 9);
    assert_eq!(percentile(&sorted, 99_000), 10);
    assert_eq!(percentile(&sorted, 0), 1);
    assert_eq!(percentile(&sorted, 100_000), 10);
    assert_eq!(percentile(&[], 50_000), 0);
    assert_eq!(percentile(&[7], 99_900), 7);
}

#[test]
fn percentile_of_thousand_values() {
    let sorted: Vec<u32> = (0..1000).collect();
    assert_eq!(percentile(&sorted, 99_900), 998);
    assert_eq!(percentile(&sorted, 99_000), 989);
}

#[test]
fn summarize_sorts_and_reads_the_row() {
    let mut lats = vec![30, 10, 20, 50, 40];
    let s = summarize(&mut lats);
    assert_eq!(lats, vec![10, 20, 30, 40, 50]);
    assert_eq!(s, LatencySummary { min: 10, p50: 30, p90: 50, p99: 50, p999: 50, max: 50 });
    let mut none: Vec<u32> = Vec::new();
    assert_eq!(summarize(&mut none), LatencySummary { min: 0, p50: 0, p90: 0, p99: 0, p999: 0, max: 0 });
}

#[test]
fn sum_of_latencies() {
    assert_eq!(latency_sum(&[1, 2, 3]), 6);
    assert_eq!(latency_sum(&[]), 0);
    assert_eq!(latency_sum(&[u32::MAX, u32::MAX]), 2 * (u32::MAX as u64));
}

#[test]
fn buckets_follow_their_bounds() {
    assert_eq!(bucket_index(0), 0);
    assert_eq!(bucket_index(49), 0);
    assert_eq!(bucket_index(50), 1);
    assert_eq!(bucket_index(999), 4);
    assert_eq!(bucket_index(1000), 5);
    assert_eq!(bucket_index(9999), 7);
    assert_eq!(bucket_index(10_000), 8);
    assert_eq!(bucket_index(u32::MAX - 1), 8);
    let counts = bucket_counts(&[10, 60, 70, 150, 20_000, 5]);
    assert_eq!(counts, vec![2, 2, 1, 0, 0, 0, 0, 0, 1]);
    assert_eq!(counts.iter().sum::<u64>(), 6);
}

#[test]
fn bars_in_eighths() {
    let s = |v: Vec<char>| v.into_iter().collect::<String>();
    assert_eq!(s(bar(1, 1)), "█".repeat(50));
    assert_eq!(s(bar(1, 2)), "█".repeat(25));
    assert_eq!(s(bar(0, 5)), "");
    assert_eq!(s(bar(1, 10_000)), "▏");
    assert_eq!(s(bar(1, 1600)), "▏");
    assert_eq!(s(bar(3, 400)), "▍");
    assert_eq!(s(bar(2, 25)), "█".repeat(4));
    assert_eq!(s(bar(1, 3)), format!("{}▋", "█".repeat(16)));
}

#[test]
fn summary_box() {
    let cfg = parse_args(&vec![chars("-n"), chars("200"), chars("-r"), chars("10")]).unwrap();
    let values = summary_values_of(&cfg, &chars("0.50 s"), &chars("400 req/s"), 199, 1);
    let out = lines(render_summary(&values));
    assert_eq!(out[0], "summary:");
    assert_eq!(out[1], format!("┌────────────┬─{}─┐", "─".repeat(19)));
    assert_eq!(out[2], "│ target     │ 127.0.0.1 (default) │");
    assert_eq!(out[3], "│ port       │ 6379 (default)      │");
    assert_eq!(out[4], "│ workload   │ SET/GET mix 50/50   │");
    assert_eq!(out[5], "│ requests   │ 200                 │");
    assert_eq!(out[6], "│ batch size │ 1 (default)         │");
    assert_eq!(out[7], "│ rate       │ 10 req/s            │");
    assert_eq!(out[8], "│ duration   │ 0.50 s              │");
    assert_eq!(out[9], "│ achieved   │ 400 req/s           │");
    assert_eq!(out[10], "│ replies    │ 199 ok, 1 errors    │");
    assert_eq!(out[11], format!("└────────────┴─{}─┘", "─".repeat(19)));
    assert_eq!(out.len(), 12);
}

#[test]
fn unlimited_rate_in_summary() {
    let cfg = parse_args(&vec![]).unwrap();
    let values = summary_values_of(&cfg, &chars("1.00 s"), &chars("10000 req/s"), 10_000, 0);
    let v: Vec<String> = values.into_iter().map(|x| x.into_iter().collect()).collect();
    assert_eq!(v[3], "10000 (default)");
    assert_eq!(v[5], "unlimited (default)");
}

#[test]
fn latency_table_widens_to_values() {
    let s = LatencySummary { min: 40, p50: 55, p90: 90, p99: 164, p999: 1_234_567, max: 2_000_000 };
    let headers = latency_headers_of();
    let values = latency_cells_of(&s, &chars("58"));
    let out = lines(render_latency_table(&headers, &values));
    assert_eq!(out[0], "latency:");
    assert_eq!(out[1], "┌──────┬─────┬─────┬─────┬─────┬─────────┬─────────┬─────┐");
    assert_eq!(out[2], "│ unit │ min │ p50 │ p90 │ p99 │   p99.9 │     max │ avg │");
    assert_eq!(out[3], "├──────┼─────┼─────┼─────┼─────┼─────────┼─────────┼─────┤");
    assert_eq!(out[4], "│   µs │  40 │  55 │  90 │ 164 │ 1234567 │ 2000000 │  58 │");
    assert_eq!(out[5], "└──────┴─────┴─────┴─────┴─────┴─────────┴─────────┴─────┘");
}

#[test]
fn histogram_skips_empty_buckets() {
    let counts = vec![3, 1, 0, 0, 0, 0, 0, 0, 0];
    let pcts: Vec<Vec<char>> = vec![
        chars(" 75.0"), chars(" 25.0"), chars("  0.0"), chars("  0.0"), chars("  0.0"),
        chars("  0.0"), chars("  0.0"), chars("  0.0"), chars("  0.0"),
    ];
    let out = lines(render_histogram(&counts, 4, &pcts));
    assert_eq!(out.len(), 5);
    assert_eq!(out[0], "histogram:");
    assert_eq!(out[1], format!("┌───────────┬{}┬────────┐", "─".repeat(52)));
    assert_eq!(out[2], format!("│    <50µs  │ {:<50} │  75.0% │", "█".repeat(37) + "▌"));
    assert_eq!(out[3], format!("│  50-100µs │ {:<50} │  25.0% │", "█".repeat(12) + "▌"));
    assert_eq!(out[4], format!("└───────────┴{}┴────────┘", "─".repeat(52)));
}

#[test]
fn summary_row_is_ascending() {
    let mut lats = vec![900, 15, 15, 70, 3000, 42, 42, 41, 8, 12_345, 77, 1];
    let s = summarize(&mut lats);
    assert!(s.min <= s.p50 && s.p50 <= s.p90 && s.p90 <= s.p99 && s.p99 <= s.p999 && s.p999 <= s.max);
    assert_eq!((s.min, s.max), (1, 12_345));
    let mut last = 0;
    for p in [0, 10_000, 50_000, 90_000, 99_000, 99_900, 100_000] {
        let v = percentile(&lats, p);
        assert!(v >= last);
        last = v;
    }
}

#[test]
fn boxes_stay_aligned_for_wide_values() {
    let s = LatencySummary { min: 1, p50: 22, p90: 333, p99: 4444, p999: 55555, max: 4_000_000_000 };
    let table = lines(render_latency_table(&latency_headers_of(), &latency_cells_of(&s, &chars("123456789"))));
    let width = table[1].chars().count();
    for l in &table[1..] {
        assert_eq!(l.chars().count(), width);
    }
    let cfg = parse_args(&vec![chars("-t"), chars("a-very-long-host-name.example.internal")]).unwrap();
    let values = summary_values_of(&cfg, &chars("12.34 s"), &chars("98765 req/s"), 1, 2);
    let boxed = lines(render_summary(&values));
    let width = boxed[1].chars().count();
    for l in &boxed[1..] {
        assert_eq!(l.chars().count(), width);
    }
}

#[test]
fn table_width_is_bars_plus_columns() {
    let s = LatencySummary { min: 1, p50: 2, p90: 3, p99: 40, p999: 500, max: 123_456_789 };
    let headers = latency_headers_of();
    let values = latency_cells_of(&s, &chars("7"));
    let out = lines(render_latency_table(&headers, &values));
    let widths: usize = headers
        .iter()
        .zip(values.iter())
        .map(|(h, v)| h.len().max(v.len()) + 2)
        .sum();
    for line in &out[1..] {
        assert_eq!(line.chars().count(), 9 + widths);
    }
}

#[test]
fn larger_share_never_draws_a_shorter_bar() {
    let shares = [(0u64, 10u64), (1, 1000), (1, 100), (1, 16), (1, 8), (3, 7), (1, 2), (9, 10), (10, 10)];
    let mut prev = 0;
    for (c, t) in shares {
        let b = bar(c, t);
        assert!(b.len() >= prev);
        assert!(b.len() <= 50);
        assert_eq!(b.is_empty(), c == 0);
        prev = b.len();
    }
}
