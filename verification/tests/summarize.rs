use sightglass::summarize::{calculate, median, report_lines, Measurement, Phase, ReportLine, Summary};

fn mean(counts: &[u64]) -> f64 {
    counts.iter().sum::<u64>() as f64 / counts.len() as f64
}

fn mean_deviation(counts: &[u64]) -> f64 {
    let m = mean(counts);
    counts.iter().map(|&c| (m - c as f64).abs()).sum::<f64>() / counts.len() as f64
}

fn measurement(phase: Phase, engine: &str, wasm: &str, event: &str, count: u64) -> Measurement {
    Measurement {
        arch: "x86".to_string(),
        engine: engine.to_string(),
        wasm: wasm.to_string(),
        process: 42,
        iteration: 0,
        phase,
        event: event.to_string(),
        count,
    }
}

#[test]
fn simple_statistics() {
    let m = |count: u64| measurement(Phase::Compilation, "wasmtime", "bench.wasm", "wall-cycles", count);
    let measurements = vec![m(1), m(0), m(2)];

    let summaries = calculate(&measurements);
    assert_eq!(summaries.len(), 1);
    let s = &summaries[0];
    assert_eq!(s.arch, "x86");
    assert_eq!(s.engine, "wasmtime");
    assert_eq!(s.wasm, "bench.wasm");
    assert_eq!(s.phase, Phase::Compilation);
    assert_eq!(s.event, "wall-cycles");
    assert_eq!(mean(&s.counts), 1.0);
    assert_eq!(s.min, 0);
    assert_eq!(s.median, 1);
    assert_eq!(s.max, 2);
    assert_eq!(mean_deviation(&s.counts), 2f64 / 3f64);
}

#[test]
fn interleaving_phases() {
    let m = |phase: Phase, count: u64| measurement(phase, "wasmtime", "bench.wasm", "wall-cycles", count);
    let measurements = vec![
        m(Phase::Compilation, 0),
        m(Phase::Execution, 1),
        m(Phase::Compilation, 2),
    ];

    assert_eq!(calculate(&measurements).len(), 2);
}

#[test]
fn groups_keep_first_occurrence_order_and_counts() {
    let measurements = vec![
        measurement(Phase::Execution, "wasmtime", "a.wasm", "cycles", 7),
        measurement(Phase::Compilation, "wasmtime", "a.wasm", "cycles", 3),
        measurement(Phase::Execution, "wasmtime", "a.wasm", "cycles", 5),
        measurement(Phase::Execution, "wasmtime", "a.wasm", "cycles", 9),
    ];
    let summaries = calculate(&measurements);
    assert_eq!(summaries.len(), 2);
    assert_eq!(summaries[0].phase, Phase::Execution);
    assert_eq!(summaries[0].counts, vec![7, 5, 9]);
    assert_eq!(summaries[0].min, 5);
    assert_eq!(summaries[0].max, 9);
    assert_eq!(summaries[0].median, 7);
    assert_eq!(summaries[1].phase, Phase::Compilation);
    assert_eq!(summaries[1].counts, vec![3]);
    assert_eq!(summaries[1].median, 3);
}

#[test]
fn calculate_of_nothing_is_empty() {
    assert_eq!(calculate(&Vec::new()).len(), 0);
}

#[test]
fn median_sorts_and_picks_the_upper_middle() {
    let mut numbers = vec![5, 1, 3, 2];
    assert_eq!(median(&mut numbers), 3);
    assert_eq!(numbers, vec![1, 2, 3, 5]);

    let mut odd = vec![9, 4, 7];
    assert_eq!(median(&mut odd), 7);
    assert_eq!(odd, vec![4, 7, 9]);

    let mut single = vec![11];
    assert_eq!(median(&mut single), 11);
}

#[test]
fn median_lies_between_min_and_max() {
    let mut numbers = vec![8, 8, 1, 100, 3];
    let m = median(&mut numbers);
    assert!(1 <= m && m <= 100);
    assert_eq!(m, 8);
}

#[test]
fn phase_names() {
    assert_eq!(Phase::Compilation.as_str(), "compilation");
    assert_eq!(Phase::Instantiation.as_str(), "instantiation");
    assert_eq!(Phase::Execution.as_str(), "execution");
}

fn summary(phase: Phase, wasm: &str, event: &str, engine: &str) -> Summary {
    Summary {
        arch: "x86".to_string(),
        engine: engine.to_string(),
        wasm: wasm.to_string(),
        phase,
        event: event.to_string(),
        min: 1,
        max: 1,
        median: 1,
        counts: vec![1],
    }
}

fn describe(lines: &[ReportLine]) -> Vec<String> {
    lines
        .iter()
        .map(|l| match l {
            ReportLine::Phase(p) => format!("P {}", p.as_str()),
            ReportLine::Wasm(w) => format!("W {}", w),
            ReportLine::Event(e) => format!("E {}", e),
            ReportLine::Row(i) => format!("R {}", i),
        })
        .collect()
}

#[test]
fn report_sorts_and_opens_headers() {
    let summaries = vec![
        summary(Phase::Execution, "b.wasm", "cycles", "wasmtime"),
        summary(Phase::Compilation, "b.wasm", "cycles", "wasmtime"),
        summary(Phase::Compilation, "a.wasm", "instructions", "wasmtime"),
        summary(Phase::Compilation, "a.wasm", "cycles", "wasmtime"),
        summary(Phase::Compilation, "a.wasm", "cycles", "v8"),
    ];
    let lines = report_lines(&summaries);
    assert_eq!(
        describe(&lines),
        vec![
            "P compilation",
            "W a.wasm",
            "E cycles",
            "R 4",
            "R 3",
            "E instructions",
            "R 2",
            "W b.wasm",
            "E cycles",
            "R 1",
            "P execution",
            "W b.wasm",
            "E cycles",
            "R 0",
        ]
    );
}

#[test]
fn report_rows_list_each_summary_once() {
    let summaries = vec![
        summary(Phase::Instantiation, "x.wasm", "e", "b"),
        summary(Phase::Instantiation, "x.wasm", "e", "a"),
        summary(Phase::Compilation, "x.wasm", "e", "a"),
    ];
    let lines = report_lines(&summaries);
    let mut rows: Vec<usize> = lines
        .iter()
        .filter_map(|l| match l {
            ReportLine::Row(i) => Some(*i),
            _ => None,
        })
        .collect();
    assert_eq!(rows, vec![2, 1, 0]);
    rows.sort();
    assert_eq!(rows, vec![0, 1, 2]);
}

#[test]
fn report_of_nothing_is_empty() {
    assert!(report_lines(&Vec::new()).is_empty());
}

#[test]
fn every_measurement_lands_in_one_summary() {
    let measurements = vec![
        measurement(Phase::Execution, "wasmtime", "a.wasm", "cycles", 1),
        measurement(Phase::Execution, "v8", "a.wasm", "cycles", 2),
        measurement(Phase::Execution, "wasmtime", "a.wasm", "cycles", 3),
        measurement(Phase::Compilation, "wasmtime", "b.wasm", "instructions", 4),
        measurement(Phase::Execution, "v8", "a.wasm", "cycles", 5),
    ];
    let summaries = calculate(&measurements);
    assert_eq!(summaries.len(), 3);
    let total: usize = summaries.iter().map(|s| s.counts.len()).sum();
    assert_eq!(total, measurements.len());
}

#[test]
fn median_splits_an_even_group() {
    let mut numbers = vec![4, 1, 3, 2];
    let m = median(&mut numbers);
    assert_eq!(m, 3);
    let below = numbers.iter().filter(|&&x| x < m).count();
    let above = numbers.iter().filter(|&&x| x > m).count();
    assert!(below <= 2);
    assert!(above <= 1);
}

#[test]
fn report_keeps_equal_summaries_in_place() {
    let summaries = vec![
        summary(Phase::Execution, "w.wasm", "e", "x"),
        summary(Phase::Execution, "w.wasm", "e", "x"),
        summary(Phase::Execution, "w.wasm", "e", "x"),
    ];
    let lines = report_lines(&summaries);
    assert_eq!(describe(&lines), vec!["P execution", "W w.wasm", "E e", "R 0", "R 1", "R 2"]);
    assert_eq!(describe(&report_lines(&summaries)), describe(&lines));
}

#[test]
fn report_ignores_input_order_with_distinct_keys() {
    let first = vec![
        summary(Phase::Execution, "b.wasm", "cycles", "wasmtime"),
        summary(Phase::Compilation, "a.wasm", "cycles", "v8"),
        summary(Phase::Compilation, "a.wasm", "cycles", "wasmtime"),
    ];
    let second = vec![
        summary(Phase::Compilation, "a.wasm", "cycles", "wasmtime"),
        summary(Phase::Execution, "b.wasm", "cycles", "wasmtime"),
        summary(Phase::Compilation, "a.wasm", "cycles", "v8"),
    ];
    let shown = |ss: &Vec<Summary>| -> Vec<String> {
        report_lines(ss)
            .iter()
            .map(|l| match l {
                ReportLine::Row(i) => format!("R {} {:?} {}", ss[*i].engine, ss[*i].phase, ss[*i].wasm),
                ReportLine::Phase(p) => format!("P {}", p.as_str()),
                ReportLine::Wasm(w) => format!("W {}", w),
                ReportLine::Event(e) => format!("E {}", e),
            })
            .collect()
    };
    assert_eq!(shown(&first), shown(&second));
}
