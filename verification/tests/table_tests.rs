use criterion_report::report::ComparisonResult;
use criterion_report::report_table::{
    rank_fastest_with_scores, BenchmarkExtended, BenchmarkSummary, ComparisonMeasurement,
    ComparisonReportResult, FirstColumnCell, GroupComparisonTables, GroupsComparisons,
    IntraGroupComparison, MergeDuplicatesVerticalFirst, ScoredComparison,
};

fn green(s: &str) -> String {
    format!("\x1B[32m{}\x1B[39m", s)
}

fn red(s: &str) -> String {
    format!("\x1B[31m{}\x1B[39m", s)
}

fn bold(s: &str) -> String {
    format!("\x1B[1m{}\x1B[22m", s)
}

fn faint(s: &str) -> String {
    format!("\x1B[2m{}\x1B[22m", s)
}

fn entry(benchmark: usize, id: &str, latency_order: u64, score: i32) -> BenchmarkExtended {
    BenchmarkExtended {
        benchmark,
        function_id: id.to_owned(),
        latency_mean_str: format!("{} ns", latency_order),
        latency_order,
        latency_ci_lower_str: "1.00".to_owned(),
        latency_ci_upper_str: "2.00".to_owned(),
        latency_confidence_str: "95".to_owned(),
        score,
    }
}

fn scored(new: &str, old: &str, comp_result: ComparisonReportResult) -> ScoredComparison {
    ScoredComparison {
        function_id_new: new.to_owned(),
        function_id_old: old.to_owned(),
        comp_result,
    }
}

fn ids(group: &[BenchmarkExtended]) -> Vec<String> {
    group.iter().map(|e| e.function_id.clone()).collect()
}

#[test]
fn ranking_orders_by_score_then_latency_then_id() {
    let entries = vec![
        entry(0, "a", 30, 0),
        entry(1, "b", 10, 0),
        entry(2, "c", 20, 0),
        entry(3, "d", 20, 1),
    ];
    let comparisons = vec![
        scored("a", "b", ComparisonReportResult::Improved),
        scored("c", "d", ComparisonReportResult::NoChange),
        scored("b", "c", ComparisonReportResult::NonSignificantRegressed),
    ];
    let ranking = rank_fastest_with_scores(&comparisons, entries);
    let ranks = ranking.ranks();
    assert_eq!(ranks.len(), 3);
    assert_eq!(ids(&ranks[0]), vec!["a"]);
    assert_eq!(ranks[0][0].score, 2);
    assert_eq!(ids(&ranks[1]), vec!["c", "d"]);
    assert_eq!(ranks[1][0].score, 1);
    assert_eq!(ranks[1][1].score, 1);
    assert_eq!(ids(&ranks[2]), vec!["b"]);
    assert_eq!(ranks[2][0].score, -3);
}

#[test]
fn ranking_scores_add_up_to_the_starting_total() {
    let entries = vec![entry(0, "x", 5, 1), entry(1, "y", 5, -1), entry(2, "z", 1, 0)];
    let comparisons = vec![
        scored("x", "y", ComparisonReportResult::Regressed),
        scored("y", "z", ComparisonReportResult::Improved),
        scored("x", "z", ComparisonReportResult::NonSignificantImproved),
    ];
    let ranking = rank_fastest_with_scores(&comparisons, entries);
    let total: i32 = ranking.ranks().iter().flatten().map(|e| e.score).sum();
    assert_eq!(total, 0);
    let flat: Vec<String> = ranking.ranks().iter().flat_map(|g| ids(g)).collect();
    assert_eq!(flat, vec!["y", "x", "z"]);
}

#[test]
fn ranking_does_not_depend_on_the_order_of_the_entries() {
    let comparisons = vec![
        scored("p", "q", ComparisonReportResult::NonSignificantImproved),
        scored("q", "r", ComparisonReportResult::Regressed),
    ];
    let forward = rank_fastest_with_scores(
        &comparisons,
        vec![entry(0, "p", 4, 0), entry(1, "q", 4, 0), entry(2, "r", 4, 0), entry(3, "s", 1, 1)],
    );
    let backward = rank_fastest_with_scores(
        &comparisons,
        vec![entry(3, "s", 1, 1), entry(2, "r", 4, 0), entry(1, "q", 4, 0), entry(0, "p", 4, 0)],
    );
    let a: Vec<Vec<String>> = forward.ranks().iter().map(|g| ids(g)).collect();
    let b: Vec<Vec<String>> = backward.ranks().iter().map(|g| ids(g)).collect();
    assert_eq!(a, b);
    assert_eq!(a, vec![vec!["r"], vec!["s", "p"], vec!["q"]]);
}

#[test]
fn equal_scores_share_a_rank_ordered_by_latency() {
    let entries = vec![entry(0, "slow", 9, 0), entry(1, "fast", 1, 0), entry(2, "mid", 5, 0)];
    let ranking = rank_fastest_with_scores(&[], entries);
    assert_eq!(ranking.ranks().len(), 1);
    assert_eq!(ids(&ranking.ranks()[0]), vec!["fast", "mid", "slow"]);
}

fn summary(id: &str, order: u64) -> BenchmarkSummary {
    BenchmarkSummary {
        function_id: Some(id.to_owned()),
        latency_mean_str: format!("{} mean", id),
        latency_order: order,
        latency_ci_lower_str: format!("{}lo", id),
        latency_ci_upper_str: format!("{}hi", id),
        latency_confidence_str: "95".to_owned(),
    }
}

fn measurement(
    is_mean_different: bool,
    threshold: ComparisonResult,
    mean_diff_negative: bool,
) -> ComparisonMeasurement {
    ComparisonMeasurement {
        is_mean_different,
        threshold,
        mean_diff_negative,
        mean_diff_str: "-1.00 ns".to_owned(),
        mean_diff_pct_str: "10.00%".to_owned(),
        mean_diff_ci_lower_str: "-2.00".to_owned(),
        mean_diff_ci_upper_str: "-0.50".to_owned(),
        confidence_str: "95".to_owned(),
        p_value_str: "0.001".to_owned(),
        significance_str: "0.05".to_owned(),
        noise_pct_str: "1.00".to_owned(),
    }
}

#[test]
fn intra_group_comparison_builds_both_tables() {
    let benchmarks = vec![summary("A", 1), summary("B", 3), summary("C", 2)];
    let measurements = vec![
        measurement(true, ComparisonResult::Improved, true),
        measurement(false, ComparisonResult::Improved, true),
        measurement(true, ComparisonResult::NonSignificant, true),
    ];
    let mut comparison = IntraGroupComparison::new();
    let lines = comparison.get_intra_group_comparison_data("grp", &benchmarks, measurements);
    assert_eq!(
        lines,
        vec![
            "Rank: 1 - Functions: A".to_owned(),
            "Rank: 2 - Functions: C, B".to_owned(),
            "NOT INSERTED: grp".to_owned(),
        ]
    );
    let groups = comparison.comparison_tables().entries();
    assert_eq!(groups.len(), 1);
    assert_eq!(groups[0].0, "grp");
    let tables: &GroupComparisonTables = &groups[0].1;
    let changes = tables.changes_table_rows();
    assert_eq!(changes.len(), 3);
    assert_eq!(changes[0].function_id_vs, format!("{} vs {}", red("B"), green(&bold("A"))));
    assert_eq!(
        changes[0].latency_mean,
        format!("{} vs {}", red("B mean"), green(&bold("A mean")))
    );
    assert_eq!(
        changes[0].latency_mean_change,
        format!("{} [-2.00,-0.50] 95% CI (p = 0.001 < 0.05)", green(&bold("-1.00 ns")))
    );
    assert_eq!(
        changes[0].result,
        format!("Performance has {}", green(&bold("improved 10.00%")))
    );
    assert_eq!(changes[1].function_id_vs, "C vs A");
    assert_eq!(changes[1].latency_mean, "C mean vs A mean");
    assert_eq!(
        changes[1].latency_mean_change,
        "-1.00 ns [-2.00,-0.50] 95% CI (p = 0.001 > 0.05)"
    );
    assert_eq!(changes[1].result, "No change in performance detected");
    assert_eq!(changes[2].function_id_vs, format!("C vs {}", faint(&bold("B"))));
    assert_eq!(
        changes[2].result,
        format!(
            "Improved {} within noise threshold of \u{b1}1.00%",
            faint(&bold("10.00%"))
        )
    );
    let ranking = tables.ranking_table_rows();
    let rows: Vec<(usize, String)> =
        ranking.iter().map(|r| (r.ranking, r.function_id.clone())).collect();
    assert_eq!(
        rows,
        vec![(1, "A".to_owned()), (2, "C".to_owned()), (2, "B".to_owned())]
    );
    assert_eq!(ranking[0].latency_mean, "A mean [Alo,Ahi] 95% CI");
    assert_eq!(ranking[0].relative_performance, "test");

    let again = comparison.get_intra_group_comparison_data(
        "grp",
        &benchmarks,
        vec![
            measurement(true, ComparisonResult::Regressed, false),
            measurement(true, ComparisonResult::NonSignificant, false),
            measurement(false, ComparisonResult::Regressed, false),
        ],
    );
    assert_eq!(again.last().unwrap(), "ALREADY INSERTED: grp");
    assert_eq!(comparison.comparison_tables().entries().len(), 1);
    let changes = comparison.comparison_tables().entries()[0].1.changes_table_rows();
    assert_eq!(changes[0].function_id_vs, format!("{} vs {}", green(&bold("B")), red("A")));
    assert_eq!(changes[1].function_id_vs, format!("{} vs A", faint(&bold("C"))));
    assert_eq!(
        changes[1].result,
        format!(
            "Regressed {} within noise threshold of \u{b1}1.00%",
            faint(&bold("10.00%"))
        )
    );
}

#[test]
fn a_group_of_one_has_no_comparison() {
    let mut comparison = IntraGroupComparison::new();
    let lines = comparison.get_intra_group_comparison_data("solo", &[summary("A", 1)], Vec::new());
    assert!(lines.is_empty());
    assert!(comparison.comparison_tables().entries().is_empty());
}

#[test]
fn pairs_compare_each_benchmark_with_each_later_one() {
    let benchmarks = vec![summary("P", 1), summary("Q", 2), summary("R", 3), summary("S", 4)];
    let measurements = (0..6)
        .map(|_| measurement(false, ComparisonResult::NonSignificant, true))
        .collect();
    let mut comparison = IntraGroupComparison::new();
    comparison.get_intra_group_comparison_data("g", &benchmarks, measurements);
    let rows: Vec<String> = comparison.comparison_tables().entries()[0]
        .1
        .changes_table_rows()
        .iter()
        .map(|r| r.function_id_vs.clone())
        .collect();
    assert_eq!(
        rows,
        vec!["Q vs P", "R vs P", "S vs P", "R vs Q", "S vs Q", "S vs R"]
    );
}

#[test]
fn groups_keep_one_entry_per_group_in_insertion_order() {
    let groups = GroupsComparisons::with_capacity(4);
    assert!(groups.entries().is_empty());
    let mut source = IntraGroupComparison::new();
    source.get_intra_group_comparison_data(
        "a",
        &[summary("A", 1), summary("B", 2)],
        vec![measurement(true, ComparisonResult::Improved, true)],
    );
    source.get_intra_group_comparison_data(
        "b",
        &[summary("C", 1), summary("D", 2)],
        vec![measurement(false, ComparisonResult::Improved, true)],
    );
    let lines = source.get_intra_group_comparison_data(
        "a",
        &[summary("E", 1), summary("F", 2)],
        vec![measurement(false, ComparisonResult::Improved, true)],
    );
    assert_eq!(lines.last().unwrap(), "ALREADY INSERTED: a");
    let entries = source.comparison_tables().entries();
    assert_eq!(entries.len(), 2);
    let names: Vec<&str> = entries.iter().map(|(name, _)| name.as_str()).collect();
    assert!(names.contains(&"a") && names.contains(&"b"));
    let a_tables: &GroupComparisonTables = &entries.iter().find(|(n, _)| n == "a").unwrap().1;
    assert_eq!(a_tables.changes_table_rows()[0].function_id_vs, "F vs E");
}

fn cell(visible: bool, column_span: bool, text: &str) -> FirstColumnCell {
    FirstColumnCell {
        visible,
        column_span,
        text: text.to_owned(),
    }
}

#[test]
fn merge_spans_runs_of_equal_text() {
    let merge = MergeDuplicatesVerticalFirst;
    let cells = vec![
        cell(true, false, "Ranking"),
        cell(true, false, "1"),
        cell(true, false, "2"),
        cell(true, false, "2"),
        cell(true, false, "3"),
        cell(true, false, "3"),
        cell(true, false, "3"),
    ];
    assert_eq!(merge.row_spans(&cells), vec![(4, 3), (2, 2)]);
    let same = vec![cell(true, false, "x"), cell(true, false, "x")];
    assert_eq!(merge.row_spans(&same), vec![(0, 2)]);
    assert_eq!(merge.row_spans(&[]), Vec::<(usize, usize)>::new());
    let single = vec![cell(true, false, "x")];
    assert_eq!(merge.row_spans(&single), Vec::<(usize, usize)>::new());
}

#[test]
fn merge_stops_at_hidden_and_spanning_cells() {
    let merge = MergeDuplicatesVerticalFirst;
    let hidden = vec![
        cell(true, false, "a"),
        cell(true, false, "a"),
        cell(false, false, "a"),
        cell(true, false, "a"),
        cell(true, false, "b"),
    ];
    assert_eq!(merge.row_spans(&hidden), vec![(0, 2)]);
    let spanning = vec![
        cell(true, false, "a"),
        cell(true, false, "a"),
        cell(true, false, "a"),
        cell(true, true, "a"),
        cell(true, false, "a"),
        cell(true, false, "a"),
    ];
    assert_eq!(merge.row_spans(&spanning), vec![(0, 2)]);
    // A run under way when a hidden top row is reached is still merged from the top.
    let hidden_top = vec![cell(false, false, "z"), cell(true, false, "a"), cell(true, false, "a")];
    assert_eq!(merge.row_spans(&hidden_top), vec![(0, 2)]);
}
