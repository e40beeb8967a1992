use criterion_report::report::{
    BenchmarkId, BencherReport, ChangeTexts, CliReport, CliReportIntraGroup, CliReports,
    ComparisonResult, DetailTexts, EstimateTexts, IntervalTexts, MeasurementTexts, OutlierTexts,
};

fn id(title: &str) -> BenchmarkId {
    BenchmarkId::new(title.to_owned(), None, None, None)
}

fn green(s: &str) -> String {
    format!("\x1B[32m{}\x1B[39m", s)
}

fn red(s: &str) -> String {
    format!("\x1B[31m{}\x1B[39m", s)
}

fn yellow(s: &str) -> String {
    format!("\x1B[33m{}\x1B[39m", s)
}

fn bold(s: &str) -> String {
    format!("\x1B[1m{}\x1B[22m", s)
}

fn faint(s: &str) -> String {
    format!("\x1B[2m{}\x1B[22m", s)
}

fn estimate(lower: &str, point: &str, upper: &str) -> EstimateTexts {
    EstimateTexts {
        lower: lower.to_owned(),
        point: point.to_owned(),
        upper: upper.to_owned(),
    }
}

fn interval(lower: &str, upper: &str) -> IntervalTexts {
    IntervalTexts {
        lower: lower.to_owned(),
        upper: upper.to_owned(),
    }
}

fn no_outliers() -> OutlierTexts {
    OutlierTexts {
        low_severe: 0,
        low_mild: 0,
        high_mild: 0,
        high_severe: 0,
        sample_size: 100,
        total_percent: "0.00".to_owned(),
        low_severe_percent: "0.00".to_owned(),
        low_mild_percent: "0.00".to_owned(),
        high_mild_percent: "0.00".to_owned(),
        high_severe_percent: "0.00".to_owned(),
    }
}

fn details(outliers: OutlierTexts, slope: bool) -> DetailTexts {
    DetailTexts {
        outliers,
        slope: if slope {
            Some((interval("1.0 ns", "1.2 ns"), interval("0.9876543", "0.9912345")))
        } else {
            None
        },
        mean: interval("1.01 ns", "1.03 ns"),
        std_dev: interval("10 ps", "20 ps"),
        median: interval("1.00 ns", "1.02 ns"),
        median_abs_dev: interval("5 ps", "9 ps"),
    }
}

fn change(different_mean: bool, threshold: ComparisonResult) -> ChangeTexts {
    ChangeTexts {
        different_mean,
        threshold,
        time: estimate("-5.0000%", "-4.0000%", "-3.0000%"),
        throughput: estimate("+5.2632%", "+4.1667%", "+3.0928%"),
        p_value: "0.00".to_owned(),
        significance: "0.05".to_owned(),
    }
}

#[test]
fn progress_lines_end_with_a_newline_without_overwriting() {
    let mut report = CliReport::new(false, false, false, false);
    let bench = id("group/f");
    assert_eq!(report.benchmark_start(&bench), "Benchmarking group/f\n");
    assert_eq!(
        report.warmup(&bench, "3.0000 s"),
        "Benchmarking group/f: Warming up for 3.0000 s\n"
    );
    assert_eq!(report.analysis(&bench), "Benchmarking group/f: Analyzing\n");
    assert_eq!(
        report.measurement_start(&bench, 100, "5.0000 s", 123456),
        "Benchmarking group/f: Collecting 100 samples in estimated 5.0000 s (123k iterations)\n"
    );
    assert_eq!(report.text_overwrite(), "");
    assert_eq!(report.group_separator(), "\n");
}

#[test]
fn verbose_report_writes_every_iteration_digit() {
    let mut report = CliReport::new(false, false, false, true);
    assert_eq!(
        report.measurement_start(&id("g"), 10, "1.0 s", 123456),
        "Benchmarking g: Collecting 10 samples in estimated 1.0 s (123456 iterations)\n"
    );
}

#[test]
fn overwriting_report_clears_the_line_it_wrote() {
    let mut report = CliReport::new(true, false, false, false);
    let bench = id("group/f");
    let first = report.benchmark_start(&bench);
    assert_eq!(first, "Benchmarking group/f");
    assert_eq!(report.text_overwrite(), format!("\r{}\r", " ".repeat(first.len())));
    let second = report.warmup(&bench, "3 s");
    let line = "Benchmarking group/f: Warming up for 3 s";
    assert_eq!(second, format!("\r{}\r{}", " ".repeat(first.len()), line));
    let third = report.analysis(&bench);
    assert_eq!(
        third,
        format!("\r{}\rBenchmarking group/f: Analyzing", " ".repeat(line.len()))
    );
    let shown = report.print_overwritable("é!".to_owned());
    assert_eq!(shown, "é!");
    assert_eq!(report.text_overwrite(), "\r   \r");
}

#[test]
fn colours_wrap_text_only_when_enabled() {
    let plain = CliReport::new(false, false, false, false);
    assert_eq!(plain.green("x".to_owned()), "x");
    assert_eq!(plain.red("x".to_owned()), "x");
    let coloured = CliReport::new(false, true, false, false);
    assert_eq!(coloured.green("x".to_owned()), green("x"));
    assert_eq!(coloured.yellow("x".to_owned()), yellow("x"));
    assert_eq!(coloured.red("x".to_owned()), red("x"));
    assert_eq!(coloured.bold("x".to_owned()), bold("x"));
    assert_eq!(coloured.faint("x".to_owned()), faint("x"));
    let intra = CliReportIntraGroup::new(false, true, false, false);
    assert_eq!(intra.bold("y".to_owned()), bold("y"));
    assert_eq!(intra.faint("y".to_owned()), faint("y"));
}

#[test]
fn intra_group_report_names_itself_after_each_line() {
    let mut report = CliReportIntraGroup::new(false, false, false, false);
    let bench = id("group/f");
    assert_eq!(
        report.benchmark_start(&bench),
        "Benchmarking group/f\nCliReportIntraGroup - print_overwritable\n"
    );
    assert_eq!(
        report.analysis(&bench),
        "Benchmarking group/f: Analyzing\nCliReportIntraGroup - print_overwritable\n"
    );
    let mut overwriting = CliReportIntraGroup::new(true, false, false, false);
    assert_eq!(overwriting.benchmark_start(&bench), "Benchmarking group/f");
}

#[test]
fn summary_shows_time_and_improvement() {
    let report = CliReport::new(false, false, true, false);
    let meas = MeasurementTexts {
        time: estimate("1.0 ns", "1.1 ns", "1.2 ns"),
        throughput: None,
        change: Some(change(true, ComparisonResult::Improved)),
        details: details(no_outliers(), false),
    };
    let expected = format!(
        "group/f{}time:   [1.0 ns 1.1 ns 1.2 ns]\n{}change: [-5.0000% -4.0000% -3.0000%] (p = 0.00 < 0.05)\n{}Performance has improved.\n",
        " ".repeat(17),
        " ".repeat(24),
        " ".repeat(24)
    );
    assert_eq!(report.measurement_complete(&id("group/f"), &meas), expected);
}

#[test]
fn coloured_summary_with_throughput_and_regression() {
    let report = CliReport::new(false, true, true, false);
    let meas = MeasurementTexts {
        time: estimate("1.0 ns", "1.1 ns", "1.2 ns"),
        throughput: Some(estimate("1.0 GiB/s", "0.9 GiB/s", "0.8 GiB/s")),
        change: Some(change(true, ComparisonResult::Regressed)),
        details: details(no_outliers(), false),
    };
    let pad = " ".repeat(24);
    let mut expected = String::new();
    expected.push_str(&format!(
        "{}{}time:   [{} {} {}]\n",
        green("g"),
        " ".repeat(23),
        faint("1.0 ns"),
        bold("1.1 ns"),
        faint("1.2 ns")
    ));
    expected.push_str(&format!(
        "{}thrpt:  [{} {} {}]\n",
        pad,
        faint("0.8 GiB/s"),
        bold("0.9 GiB/s"),
        faint("1.0 GiB/s")
    ));
    expected.push_str(&format!("{}change:\n", " ".repeat(17)));
    expected.push_str(&format!(
        "{}time:   [{} {} {}] (p = 0.00 < 0.05)\n",
        pad,
        faint("-5.0000%"),
        red(&bold("-4.0000%")),
        faint("-3.0000%")
    ));
    expected.push_str(&format!(
        "{}thrpt:  [{} {} {}]\n",
        pad,
        faint("+3.0928%"),
        red(&bold("+4.1667%")),
        faint("+5.2632%")
    ));
    expected.push_str(&format!("{}Performance has {}.\n", pad, red("regressed")));
    assert_eq!(report.measurement_complete(&id("g"), &meas), expected);
}

#[test]
fn summary_without_significant_difference() {
    let report = CliReport::new(false, false, true, false);
    let meas = MeasurementTexts {
        time: estimate("1", "2", "3"),
        throughput: None,
        change: Some(change(false, ComparisonResult::Improved)),
        details: details(no_outliers(), false),
    };
    let text = report.measurement_complete(&id("g"), &meas);
    assert!(text.contains("(p = 0.00 > 0.05)\n"));
    assert!(text.ends_with("No change in performance detected.\n"));
    let within = MeasurementTexts {
        change: Some(change(true, ComparisonResult::NonSignificant)),
        ..meas
    };
    let text = report.measurement_complete(&id("g"), &within);
    assert!(text.contains("[-5.0000% -4.0000% -3.0000%] (p = 0.00 < 0.05)\n"));
    assert!(text.ends_with("Change within noise threshold.\n"));
    let hidden = CliReport::new(false, false, false, false);
    assert_eq!(
        hidden.measurement_complete(&id("g"), &within),
        format!("g{}time:   [1 2 3]\n", " ".repeat(23))
    );
}

#[test]
fn verbose_summary_lists_outliers_and_estimates() {
    let report = CliReport::new(false, false, false, true);
    let outliers = OutlierTexts {
        low_severe: 1,
        low_mild: 0,
        high_mild: 2,
        high_severe: 0,
        sample_size: 100,
        total_percent: "3.00".to_owned(),
        low_severe_percent: "1.00".to_owned(),
        low_mild_percent: "0.00".to_owned(),
        high_mild_percent: "2.00".to_owned(),
        high_severe_percent: "0.00".to_owned(),
    };
    let meas = MeasurementTexts {
        time: estimate("1", "2", "3"),
        throughput: None,
        change: None,
        details: details(outliers, true),
    };
    let mut expected = format!("g{}time:   [1 2 3]\n", " ".repeat(23));
    expected.push_str("Found 3 outliers among 100 measurements (3.00%)\n");
    expected.push_str(&format!("  {} ({}%) {}\n", 1, "1.00", "low severe"));
    expected.push_str(&format!("  {} ({}%) {}\n", 2, "2.00", "high mild"));
    expected.push_str(&format!(
        "{:<7}{} {:<15}{}\n",
        "slope", "[1.0 ns 1.2 ns]", "R^2", "[0.9876543 0.9912345]"
    ));
    expected.push_str(&format!(
        "{:<7}{} {:<15}{}\n",
        "mean", "[1.01 ns 1.03 ns]", "std. dev.", "[10 ps 20 ps]"
    ));
    expected.push_str(&format!(
        "{:<7}{} {:<15}{}\n",
        "median", "[1.00 ns 1.02 ns]", "med. abs. dev.", "[5 ps 9 ps]"
    ));
    assert_eq!(report.measurement_complete(&id("g"), &meas), expected);
    let coloured = CliReport::new(false, true, false, true);
    assert_eq!(
        coloured.outliers(&meas.details.outliers),
        format!(
            "{}\n  1 (1.00%) low severe\n  2 (2.00%) high mild\n",
            yellow("Found 3 outliers among 100 measurements (3.00%)")
        )
    );
    assert_eq!(coloured.outliers(&no_outliers()), "");
}

#[test]
fn long_titles_stand_on_their_own_line() {
    let title = "a_very_long_benchmark_title";
    let meas = MeasurementTexts {
        time: estimate("1", "2", "3"),
        throughput: None,
        change: None,
        details: details(no_outliers(), false),
    };
    let report = CliReport::new(false, false, false, false);
    assert_eq!(
        report.measurement_complete(&id(title), &meas),
        format!("{}\n{}time:   [1 2 3]\n", title, " ".repeat(24))
    );
    let intra = CliReportIntraGroup::new(false, false, true, false);
    assert_eq!(
        intra.measurement_complete(&id(title), &meas),
        format!(
            "{}\nIntra-Group Comparison\n{}time:   [1 2 3]\n",
            title,
            " ".repeat(24)
        )
    );
    assert_eq!(
        intra.measurement_complete(&id("short"), &meas),
        format!("Intra-Group Comparison\nshort{}time:   [1 2 3]\n", " ".repeat(19))
    );
}

#[test]
fn intra_group_summary_leaves_out_the_change() {
    let intra = CliReportIntraGroup::new(false, false, true, false);
    let meas = MeasurementTexts {
        time: estimate("1", "2", "3"),
        throughput: None,
        change: Some(change(true, ComparisonResult::Improved)),
        details: details(no_outliers(), false),
    };
    assert_eq!(
        intra.measurement_complete(&id("g"), &meas),
        format!("Intra-Group Comparison\ng{}time:   [1 2 3]\n", " ".repeat(23))
    );
}

#[test]
fn cli_reports_dispatch_to_the_report_in_use() {
    let bench = id("group/f");
    let mut plain = CliReports::Cli(CliReport::new(false, false, false, false));
    let mut direct = CliReport::new(false, false, false, false);
    assert_eq!(plain.warmup(&bench, "1 s"), direct.warmup(&bench, "1 s"));
    assert_eq!(plain.benchmark_start(&bench), direct.benchmark_start(&bench));
    assert_eq!(
        plain.measurement_start(&bench, 10, "2 s", 20),
        direct.measurement_start(&bench, 10, "2 s", 20)
    );
    let mut intra = CliReports::CliIntraGroup(CliReportIntraGroup::new(false, false, false, false));
    assert_eq!(
        intra.analysis(&bench),
        "Benchmarking group/f: Analyzing\nCliReportIntraGroup - print_overwritable\n"
    );
    assert_eq!(intra.group_separator(), "\n");
}

#[test]
fn bencher_report_lines() {
    let report = BencherReport;
    assert_eq!(report.measurement_start(&id("group/f")), "test group/f ... ");
    assert_eq!(
        report.measurement_complete("1234", "ns", "12"),
        format!("bench: {:>11} {}/iter (+/- {})\n", "1234", "ns", "12")
    );
    assert_eq!(
        report.measurement_complete("123456789012", "ns", "1"),
        "bench: 123456789012 ns/iter (+/- 1)\n"
    );
    assert_eq!(report.group_separator(), "\n");
}

#[test]
fn accessors_give_the_settings() {
    let report = CliReport::new(true, false, true, false);
    assert!(report.enable_text_overwrite());
    assert!(!report.enable_text_coloring());
    assert!(report.show_differences());
    assert!(!report.verbose());
    let intra = CliReportIntraGroup::new(false, true, false, true);
    assert!(!intra.enable_text_overwrite());
    assert!(intra.enable_text_coloring());
    assert!(!intra.show_differences());
    assert!(intra.verbose());
}
