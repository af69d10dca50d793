use maple::filter::{run, Output};
use maple::item::MatchScope;
use maple::live::{
    CapPolicy, Event, Next, Pipeline, PipelineConfig, PipelineState, INVALID_NOTICE,
};
use maple::matcher::Algo;

fn config(capacity: usize, hard_cap: usize, policy: CapPolicy) -> PipelineConfig {
    PipelineConfig {
        algo: Algo::SubString,
        scope: MatchScope::Full,
        capacity,
        hard_cap,
        policy,
        winwidth: None,
        report_invalid: true,
    }
}

#[test]
fn scenario_thousand_lines_page_of_fifty() {
    let mut p = Pipeline::new(1, "line".to_string(), config(50, 500, CapPolicy::KeepCounting));
    for i in 0..1000 {
        assert_eq!(p.on_line(format!("line {}", i)), Next::Continue);
    }
    match p.on_exhausted() {
        Some(Event::Final { generation, processed, page }) => {
            assert_eq!(generation, 1);
            assert_eq!(processed, 1000);
            assert_eq!(page.lines.len(), 50);
            assert_eq!(page.indices.len(), 50);
            assert_eq!(page.total, 1000);
            assert_eq!(page.lines[0], "line 0");
            assert_eq!(page.lines[49], "line 49");
        }
        _ => panic!("the end of the source gives the final event"),
    }
    assert_eq!(p.state(), PipelineState::Exhausted);
    assert!(!p.is_running());
}

#[test]
fn new_pipeline_runs_and_has_seen_nothing() {
    let p = Pipeline::new(7, "q".to_string(), config(5, 10, CapPolicy::KeepCounting));
    assert_eq!(p.generation(), 7);
    assert_eq!(p.state(), PipelineState::Running);
    assert!(p.is_running());
    assert_eq!(p.processed(), 0);
    assert_eq!(p.total(), 0);
}

#[test]
fn lines_are_counted_whether_they_match_or_not() {
    let mut p = Pipeline::new(1, "a".to_string(), config(5, 10, CapPolicy::KeepCounting));
    p.on_line("a".to_string());
    p.on_line("b".to_string());
    p.on_line("ca".to_string());
    assert_eq!(p.processed(), 3);
    assert_eq!(p.total(), 2);
}

#[test]
fn tick_reports_only_when_lines_were_taken() {
    let mut p = Pipeline::new(3, "a".to_string(), config(5, 10, CapPolicy::KeepCounting));
    assert!(p.on_tick().is_none());
    p.on_line("a1".to_string());
    p.on_line("b".to_string());
    match p.on_tick() {
        Some(Event::Progress { generation, processed, total, page }) => {
            assert_eq!(generation, 3);
            assert_eq!(processed, 2);
            assert_eq!(total, 1);
            let page = page.unwrap();
            assert_eq!(page.lines, vec!["a1"]);
            assert_eq!(page.indices, vec![vec![0]]);
            assert_eq!(page.total, 1);
        }
        _ => panic!("a tick after new lines reports progress"),
    }
    // Nothing new since the last tick.
    assert!(p.on_tick().is_none());
    // A line that does not match moves the counter but not the page.
    p.on_line("zzz".to_string());
    match p.on_tick() {
        Some(Event::Progress { processed, total, page, .. }) => {
            assert_eq!(processed, 3);
            assert_eq!(total, 1);
            assert!(page.is_none());
        }
        _ => panic!("a tick after new lines reports progress"),
    }
}

#[test]
fn progress_reports_never_run_backwards() {
    let mut p = Pipeline::new(1, "".to_string(), config(3, 1000, CapPolicy::KeepCounting));
    let mut last = 0;
    for round in 0..20 {
        for i in 0..(round % 4) {
            p.on_line(format!("{}-{}", round, i));
        }
        if let Some(Event::Progress { processed, .. }) = p.on_tick() {
            assert!(processed > last);
            last = processed;
        }
    }
    assert_eq!(last, p.processed());
}

#[test]
fn pages_stop_once_the_hard_cap_was_paged() {
    let mut p = Pipeline::new(1, "".to_string(), config(2, 3, CapPolicy::KeepCounting));
    p.on_line("a".to_string());
    match p.on_tick() {
        Some(Event::Progress { page, total, .. }) => {
            assert_eq!(total, 1);
            assert!(page.is_some());
        }
        _ => panic!(),
    }
    // Three more matches; the ranking is full and unchanged, so no page.
    p.on_line("b".to_string());
    match p.on_tick() {
        Some(Event::Progress { page, total, .. }) => {
            assert_eq!(total, 2);
            assert_eq!(page.unwrap().lines, vec!["a", "b"]);
        }
        _ => panic!(),
    }
    p.on_line("c".to_string());
    p.on_line("d".to_string());
    match p.on_tick() {
        Some(Event::Progress { page, total, .. }) => {
            assert_eq!(total, 4);
            assert!(page.is_none());
        }
        _ => panic!(),
    }
}

#[test]
fn after_the_hard_cap_only_the_total_grows() {
    let cfg = PipelineConfig {
        algo: Algo::SubString,
        scope: MatchScope::Full,
        capacity: 2,
        hard_cap: 2,
        policy: CapPolicy::KeepCounting,
        winwidth: None,
        report_invalid: false,
    };
    // Later lines match better, so the ranking keeps changing.
    let mut p = Pipeline::new(1, "a".to_string(), cfg);
    p.on_line("xxxxa".to_string());
    p.on_line("xxxa".to_string());
    match p.on_tick() {
        Some(Event::Progress { page, total, .. }) => {
            assert_eq!(total, 2);
            assert_eq!(page.unwrap().lines, vec!["xxxa", "xxxxa"]);
        }
        _ => panic!(),
    }
    p.on_line("xxa".to_string());
    match p.on_tick() {
        Some(Event::Progress { page, total, .. }) => {
            assert_eq!(total, 3);
            assert!(page.is_none());
        }
        _ => panic!(),
    }
    match p.on_exhausted() {
        Some(Event::Final { page, .. }) => {
            assert_eq!(page.total, 3);
            assert_eq!(page.lines, vec!["xxa", "xxxa"]);
        }
        _ => panic!(),
    }
}

#[test]
fn stop_consuming_stops_at_the_hard_cap() {
    let mut p = Pipeline::new(1, "a".to_string(), config(2, 3, CapPolicy::StopConsuming));
    assert_eq!(p.on_line("a".to_string()), Next::Continue);
    assert_eq!(p.on_line("b".to_string()), Next::Continue);
    assert_eq!(p.on_line("a".to_string()), Next::Continue);
    assert_eq!(p.on_line("a".to_string()), Next::Stop);
    match p.on_exhausted() {
        Some(Event::Final { processed, page, .. }) => {
            assert_eq!(processed, 4);
            assert_eq!(page.total, 3);
        }
        _ => panic!(),
    }
}

#[test]
fn cancelled_pipeline_is_silent() {
    let mut p = Pipeline::new(1, "a".to_string(), config(2, 3, CapPolicy::KeepCounting));
    p.on_line("a".to_string());
    p.cancel();
    assert_eq!(p.state(), PipelineState::Cancelled);
    assert_eq!(p.on_line("a".to_string()), Next::Stop);
    assert_eq!(p.processed(), 1);
    assert_eq!(p.total(), 1);
    assert!(p.on_tick().is_none());
    assert!(p.on_exhausted().is_none());
    assert_eq!(p.state(), PipelineState::Cancelled);
}

#[test]
fn final_event_comes_once() {
    let mut p = Pipeline::new(1, "a".to_string(), config(2, 3, CapPolicy::KeepCounting));
    p.on_line("a".to_string());
    assert!(p.on_exhausted().is_some());
    assert!(p.on_exhausted().is_none());
    assert!(p.on_tick().is_none());
    p.cancel();
    assert_eq!(p.state(), PipelineState::Exhausted);
}

#[test]
fn skipped_lines_are_reported_when_nothing_else_is() {
    let mut p = Pipeline::new(1, "a".to_string(), config(2, 3, CapPolicy::KeepCounting));
    p.on_invalid_line();
    p.on_line("b".to_string());
    match p.on_exhausted() {
        Some(Event::Final { processed, page, .. }) => {
            assert_eq!(processed, 1);
            assert_eq!(page.total, 0);
            assert_eq!(page.lines, vec![INVALID_NOTICE]);
            assert_eq!(page.indices, vec![Vec::<usize>::new()]);
        }
        _ => panic!(),
    }
}

#[test]
fn skipped_lines_are_not_reported_beside_results() {
    let mut p = Pipeline::new(1, "a".to_string(), config(2, 3, CapPolicy::KeepCounting));
    p.on_invalid_line();
    p.on_line("a".to_string());
    match p.on_exhausted() {
        Some(Event::Final { page, .. }) => {
            assert_eq!(page.lines, vec!["a"]);
            assert_eq!(page.total, 1);
        }
        _ => panic!(),
    }
    let quiet = PipelineConfig { report_invalid: false, ..config(2, 3, CapPolicy::KeepCounting) };
    let mut q = Pipeline::new(1, "a".to_string(), quiet);
    q.on_invalid_line();
    match q.on_exhausted() {
        Some(Event::Final { page, .. }) => {
            assert!(page.lines.is_empty());
            assert_eq!(page.total, 0);
        }
        _ => panic!(),
    }
}

#[test]
fn final_page_equals_filtering_in_one_call() {
    let lines: Vec<String> =
        ["src/main.rs", "main", "a long line with main in it", "nothing", "xmain", "mainly"]
            .iter()
            .map(|s| s.to_string())
            .collect();
    for algo in [Algo::SubString, Algo::Leftmost, Algo::Compact] {
        let cfg = PipelineConfig {
            algo,
            scope: MatchScope::Full,
            capacity: 3,
            hard_cap: 2,
            policy: CapPolicy::KeepCounting,
            winwidth: Some(9),
            report_invalid: true,
        };
        let mut p = Pipeline::new(4, "main".to_string(), cfg);
        for (i, line) in lines.iter().enumerate() {
            p.on_line(line.clone());
            if i % 2 == 0 {
                p.on_tick();
            }
        }
        let live = match p.on_exhausted() {
            Some(Event::Final { page, .. }) => page,
            _ => panic!(),
        };
        let once = match run("main", lines.clone(), Some(algo), Some(3), Some(9)) {
            Output::Page(page) => page,
            Output::All(_) => unreachable!(),
        };
        assert_eq!(live.total, once.total);
        assert_eq!(live.lines, once.lines);
        assert_eq!(live.indices, once.indices);
        assert_eq!(live.truncated_map, once.truncated_map);
    }
}

#[test]
fn event_knows_its_generation() {
    let mut p = Pipeline::new(9, "".to_string(), config(1, 1, CapPolicy::KeepCounting));
    p.on_line("x".to_string());
    assert_eq!(p.on_tick().unwrap().generation(), 9);
    assert_eq!(p.on_exhausted().unwrap().generation(), 9);
}
