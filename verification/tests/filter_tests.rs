use maple::filter::{filter, rank, render, respond, run, FilterResponse, Output, DEFAULT_WINWIDTH};
use maple::item::{MatchScope, SourceItem};
use maple::matcher::Algo;
use maple::ranked::MatchResult;
use maple::source::{filter_items, match_item, Command, Source, SourceError};

fn strings(lines: &[&str]) -> Vec<String> {
    lines.iter().map(|s| s.to_string()).collect()
}

fn page(out: Output) -> FilterResponse {
    match out {
        Output::Page(p) => p,
        Output::All(_) => panic!("a page was asked for"),
    }
}

#[test]
fn scenario_substring_ap() {
    // With room for one result, the best match of "ap" is "apple".
    let out = run(
        "ap",
        strings(&["apple", "banana", "grape"]),
        Some(Algo::SubString),
        Some(1),
        None,
    );
    let p = page(out);
    assert_eq!(p.lines, vec!["apple"]);
    assert_eq!(p.indices, vec![vec![0, 1]]);
    assert_eq!(p.total, 2);
    assert!(p.truncated_map.is_empty());
}

#[test]
fn substring_ap_with_room_for_all() {
    // "grape" holds "ap" too, later in the line, so it ranks behind "apple".
    let out = run(
        "ap",
        strings(&["apple", "banana", "grape"]),
        Some(Algo::SubString),
        Some(10),
        None,
    );
    let p = page(out);
    assert_eq!(p.lines, vec!["apple", "grape"]);
    assert_eq!(p.indices, vec![vec![0, 1], vec![2, 3]]);
    assert_eq!(p.total, 2);
}

#[test]
fn run_without_a_number_gives_all_results_ranked() {
    let out = run("a", strings(&["xxa", "b", "a", "xa", "a2"]), Some(Algo::SubString), None, Some(1));
    match out {
        Output::All(all) => {
            let expected: Vec<(String, Vec<usize>)> = vec![
                ("a".to_string(), vec![0]),
                ("a2".to_string(), vec![0]),
                ("xa".to_string(), vec![1]),
                ("xxa".to_string(), vec![2]),
            ];
            assert_eq!(all, expected);
        }
        Output::Page(_) => panic!("all results were asked for"),
    }
}

#[test]
fn run_defaults_to_the_compact_scorer() {
    let p = page(run("ab", strings(&["aab", "a_b"]), None, Some(5), None));
    assert_eq!(p.lines, vec!["aab", "a_b"]);
    assert_eq!(p.indices, vec![vec![1, 2], vec![0, 2]]);
}

#[test]
fn run_twice_gives_the_same_output() {
    let lines = ["src/main.rs", "src/lib.rs", "README.md", "Cargo.toml", "src/cmd/mod.rs"];
    for algo in [Algo::SubString, Algo::Leftmost, Algo::Compact] {
        let a = page(run("sr", strings(&lines), Some(algo), Some(3), Some(8)));
        let b = page(run("sr", strings(&lines), Some(algo), Some(3), Some(8)));
        assert_eq!(a.total, b.total);
        assert_eq!(a.lines, b.lines);
        assert_eq!(a.indices, b.indices);
        assert_eq!(a.truncated_map, b.truncated_map);
    }
}

#[test]
fn page_is_cut_to_the_number_and_counts_all_matches() {
    let lines: Vec<String> = (0..200).map(|i| format!("line {}", i)).collect();
    let p = page(run("line", lines, Some(Algo::SubString), Some(30), None));
    assert_eq!(p.lines.len(), 30);
    assert_eq!(p.indices.len(), 30);
    assert_eq!(p.total, 200);
    assert_eq!(p.lines[0], "line 0");
    assert_eq!(p.lines[29], "line 29");
    let none = page(run("line", Vec::new(), None, Some(30), None));
    assert_eq!(none.total, 0);
    assert!(none.lines.is_empty());
    let zero = page(run("a", strings(&["a"]), None, Some(0), None));
    assert_eq!(zero.total, 1);
    assert!(zero.lines.is_empty());
}

#[test]
fn long_lines_are_cut_to_the_width_of_the_display() {
    let p = page(run(
        "e",
        strings(&["te", "abcdefghij", "e0123456789"]),
        Some(Algo::SubString),
        Some(10),
        Some(4),
    ));
    assert_eq!(p.lines, vec!["e012", "te", "abcd"]);
    // The match in "abcdefghij" lies in the part that is left out.
    assert_eq!(p.indices, vec![vec![0], vec![1], vec![]]);
    assert_eq!(p.truncated_map, vec![(0, 7), (2, 6)]);
    assert_eq!(p.total, 3);
}

#[test]
fn default_width_is_62() {
    assert_eq!(DEFAULT_WINWIDTH, 62);
    let long = "x".repeat(70);
    let p = page(run("x", vec![long.clone()], None, Some(1), None));
    assert_eq!(p.lines[0].len(), 62);
    assert_eq!(p.truncated_map, vec![(0, 8)]);
    let all = run("x", vec![long.clone()], None, None, None);
    match all {
        Output::All(v) => assert_eq!(v[0].0, long),
        Output::Page(_) => unreachable!(),
    }
}

#[test]
fn render_cuts_by_characters_and_keeps_offsets_in_bytes() {
    // Shown: "éa" which is 3 bytes long; offsets 0 and 2 lie within.
    let m = MatchResult::new("éab".to_string(), 0, vec![0, 2, 3], Some(2));
    let (line, idx) = render(&m);
    assert_eq!(line, "éa");
    assert_eq!(idx, vec![0, 2]);
    let whole = MatchResult::new("éab".to_string(), 0, vec![0, 2, 3], None);
    let (line, idx) = render(&whole);
    assert_eq!(line, "éab");
    assert_eq!(idx, vec![0, 2, 3]);
    // A count that exceeds the line leaves the line whole.
    let odd = MatchResult { line: "ab".to_string(), score: 0, indices: vec![1], elided: Some(9) };
    assert_eq!(render(&odd), ("ab".to_string(), vec![1]));
}

#[test]
fn respond_lists_lines_offsets_and_truncations_in_order() {
    let results = vec![
        MatchResult::new("abcdef".to_string(), 3, vec![0, 5], Some(3)),
        MatchResult::new("ab".to_string(), 2, vec![1], Some(3)),
        MatchResult::new("wxyz".to_string(), 1, vec![3], Some(3)),
    ];
    let r = respond(&results, 17);
    assert_eq!(r.total, 17);
    assert_eq!(r.lines, vec!["abc", "ab", "wxy"]);
    assert_eq!(r.indices, vec![vec![0], vec![1], vec![]]);
    assert_eq!(r.truncated_map, vec![(0, 3), (2, 1)]);
}

#[test]
fn rank_sorts_stably_and_cuts() {
    let results = vec![
        MatchResult::new("a".to_string(), 1, vec![], None),
        MatchResult::new("b".to_string(), 5, vec![], None),
        MatchResult::new("c".to_string(), 1, vec![], None),
        MatchResult::new("d".to_string(), 5, vec![], None),
    ];
    let ranked: Vec<String> = rank(results, 3).into_iter().map(|m| m.line).collect();
    assert_eq!(ranked, vec!["b", "d", "a"]);
}

#[test]
fn filter_ranks_every_match() {
    let found = filter(strings(&["zzab", "nothing", "ab", "a_b", "xab"]), "ab", Some(Algo::Leftmost));
    let got: Vec<(String, i64, Vec<usize>)> =
        found.into_iter().map(|m| (m.line, m.score, m.indices)).collect();
    assert_eq!(
        got,
        vec![
            ("ab".to_string(), 0, vec![0, 1]),
            ("xab".to_string(), -1, vec![1, 2]),
            ("zzab".to_string(), -2, vec![2, 3]),
            ("a_b".to_string(), -4, vec![0, 2]),
        ]
    );
}

#[test]
fn source_filter_keeps_the_order_of_the_lines() {
    let source = Source::from_lines(strings(&["zzab", "nothing", "ab"]), MatchScope::Full);
    assert!(source.is_finite());
    let found = source.filter(Algo::SubString, "ab").unwrap();
    let lines: Vec<String> = found.iter().map(|m| m.line.clone()).collect();
    assert_eq!(lines, vec!["zzab", "ab"]);
    assert_eq!(found[0].indices, vec![2, 3]);
    assert_eq!(found[0].elided, None);
}

#[test]
fn source_that_is_not_read_cannot_be_filtered() {
    assert!(!Source::Stdin.is_finite());
    assert!(Source::File("/tmp/list".to_string()).is_finite());
    let exec = Source::Exec(Command {
        program: "ls".to_string(),
        args: vec![],
        dir: None,
    });
    assert!(exec.is_finite());
    assert!(matches!(exec.filter(Algo::Compact, "a"), Err(SourceError::NotRead)));
    assert!(matches!(Source::Stdin.filter(Algo::Compact, "a"), Err(SourceError::NotRead)));
    assert!(matches!(
        Source::File("/tmp/list".to_string()).filter(Algo::Compact, "a"),
        Err(SourceError::NotRead)
    ));
}

#[test]
fn from_lines_gives_every_line_the_scope() {
    match Source::from_lines(strings(&["a/b", "c"]), MatchScope::FileName) {
        Source::List(items) => {
            assert_eq!(items.len(), 2);
            assert_eq!(items[0].raw, "a/b");
            assert_eq!(items[1].raw, "c");
            assert!(items.iter().all(|i| i.scope == MatchScope::FileName));
        }
        _ => panic!("lines in memory make a list"),
    }
}

#[test]
fn match_item_and_filter_items_use_the_scope() {
    let items = vec![
        SourceItem::new("main/other.rs".to_string(), MatchScope::FileName),
        SourceItem::new("other/main.rs".to_string(), MatchScope::FileName),
    ];
    assert!(match_item(&items[0], Algo::SubString, "main", None).is_none());
    let m = match_item(&items[1], Algo::SubString, "main", Some(5)).unwrap();
    assert_eq!(m.line, "other/main.rs");
    assert_eq!(m.indices, vec![6, 7, 8, 9]);
    assert_eq!(m.score, 0);
    assert_eq!(m.elided, Some(8));
    let found = filter_items(&items, Algo::SubString, "main", None);
    assert_eq!(found.len(), 1);
    assert_eq!(found[0].line, "other/main.rs");
}

#[test]
fn page_and_all_matches_are_the_two_halves_of_run() {
    let lines = ["bab", "ab", "b", "xxab"];
    let p = maple::filter::page("ab", strings(&lines), Some(Algo::SubString), 2, Some(3));
    assert_eq!(p.total, 3);
    assert_eq!(p.lines, vec!["ab", "bab"]);
    assert_eq!(p.indices, vec![vec![0, 1], vec![1, 2]]);
    assert!(p.truncated_map.is_empty());
    let all = maple::filter::all_matches("ab", strings(&lines), Some(Algo::SubString));
    let expected: Vec<(String, Vec<usize>)> = vec![
        ("ab".to_string(), vec![0, 1]),
        ("bab".to_string(), vec![1, 2]),
        ("xxab".to_string(), vec![2, 3]),
    ];
    assert_eq!(all, expected);
}
