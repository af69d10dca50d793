use maple::ranked::{MatchResult, RankedSet};

fn result(line: &str, score: i64) -> MatchResult {
    MatchResult::new(line.to_string(), score, vec![], None)
}

fn lines_of(set: &RankedSet) -> Vec<String> {
    set.results().iter().map(|m| m.line.clone()).collect()
}

#[test]
fn new_result_records_how_much_does_not_fit() {
    let fits = MatchResult::new("hello".to_string(), 1, vec![0], Some(5));
    assert_eq!(fits.elided, None);
    let long = MatchResult::new("hello world".to_string(), 1, vec![0], Some(5));
    assert_eq!(long.elided, Some(6));
    let unbounded = MatchResult::new("hello world".to_string(), 1, vec![0], None);
    assert_eq!(unbounded.elided, None);
    // Width counts characters, not bytes.
    let accents = MatchResult::new("ééé".to_string(), 1, vec![], Some(2));
    assert_eq!(accents.elided, Some(1));
    let zero = MatchResult::new("ab".to_string(), 1, vec![], Some(0));
    assert_eq!(zero.elided, Some(2));
    assert_eq!(long.line, "hello world");
    assert_eq!(long.score, 1);
    assert_eq!(long.indices, vec![0]);
}

#[test]
fn duplicate_copies_every_field() {
    let m = MatchResult::new("hello world".to_string(), -3, vec![1, 4, 6], Some(5));
    let c = m.duplicate();
    assert_eq!(c.line, m.line);
    assert_eq!(c.score, m.score);
    assert_eq!(c.indices, m.indices);
    assert_eq!(c.elided, m.elided);
}

#[test]
fn ranked_set_orders_by_score_descending() {
    let mut set = RankedSet::new(10);
    assert!(set.offer(result("c", 1)));
    assert!(set.offer(result("a", 3)));
    assert!(set.offer(result("b", 2)));
    assert_eq!(lines_of(&set), vec!["a", "b", "c"]);
    assert_eq!(set.len(), 3);
    assert_eq!(set.cap(), 10);
    assert_eq!(set.get(0).line, "a");
    assert_eq!(set.get(2).score, 1);
}

#[test]
fn ranked_set_keeps_arrival_order_among_equal_scores() {
    let mut set = RankedSet::new(10);
    set.offer(result("first", 5));
    set.offer(result("second", 5));
    set.offer(result("better", 9));
    set.offer(result("third", 5));
    set.offer(result("worse", 1));
    assert_eq!(lines_of(&set), vec!["better", "first", "second", "third", "worse"]);
}

#[test]
fn ranked_set_never_exceeds_its_capacity() {
    let mut set = RankedSet::new(3);
    for i in 0..100 {
        set.offer(result(&format!("line{}", i), (i * 37 % 11) as i64));
        assert!(set.len() <= 3);
    }
    assert_eq!(set.len(), 3);
}

#[test]
fn full_ranked_set_discards_what_does_not_beat_the_worst() {
    let mut set = RankedSet::new(2);
    assert!(set.offer(result("a", 5)));
    assert!(set.offer(result("b", 3)));
    // Equal to the worst: the earlier arrival stays.
    assert!(!set.offer(result("c", 3)));
    assert!(!set.offer(result("d", 1)));
    assert_eq!(lines_of(&set), vec!["a", "b"]);
    assert!(set.offer(result("e", 4)));
    assert_eq!(lines_of(&set), vec!["a", "e"]);
    // Equal to the best: it enters behind the best and pushes the worst out.
    assert!(set.offer(result("f", 5)));
    assert_eq!(lines_of(&set), vec!["a", "f"]);
}

#[test]
fn ranked_set_of_capacity_zero_keeps_nothing() {
    let mut set = RankedSet::new(0);
    assert!(!set.offer(result("a", 5)));
    assert_eq!(set.len(), 0);
    assert!(set.into_results().is_empty());
}

#[test]
fn ranked_set_equals_a_stable_sort_cut_to_capacity() {
    let mut seed: u64 = 0x2545F4914F6CDD1D;
    for round in 0..40 {
        let count = 1 + (round * 7) % 60;
        let cap = (round * 5) % 13;
        let mut offered: Vec<(String, i64)> = Vec::new();
        let mut set = RankedSet::new(cap);
        for i in 0..count {
            seed ^= seed << 13;
            seed ^= seed >> 7;
            seed ^= seed << 17;
            let score = (seed % 9) as i64 - 4;
            let line = format!("r{}i{}", round, i);
            offered.push((line.clone(), score));
            set.offer(result(&line, score));
        }
        let mut expected = offered.clone();
        // `sort_by` is stable, so equal scores keep their order of arrival.
        expected.sort_by(|a, b| b.1.cmp(&a.1));
        expected.truncate(cap);
        let kept: Vec<(String, i64)> =
            set.results().iter().map(|m| (m.line.clone(), m.score)).collect();
        assert_eq!(kept, expected);
        assert!(set.len() <= cap);
    }
}

#[test]
fn ranked_set_only_tightens() {
    let mut set = RankedSet::new(4);
    let scores = [3, -1, 7, 7, 2, 9, -5, 4, 4, 8];
    for (i, s) in scores.iter().enumerate() {
        let before: Vec<i64> = set.results().iter().map(|m| m.score).collect();
        set.offer(result(&format!("l{}", i), *s));
        let after: Vec<i64> = set.results().iter().map(|m| m.score).collect();
        for k in 0..before.len() {
            assert!(after[k] >= before[k]);
        }
    }
}

fn scored(scores: &[i64]) -> Vec<MatchResult> {
    scores.iter().enumerate().map(|(i, s)| result(&format!("n{}", i), *s)).collect()
}

fn pairs(v: &[MatchResult]) -> Vec<(String, i64)> {
    v.iter().map(|m| (m.line.clone(), m.score)).collect()
}

#[test]
fn merge_takes_the_first_ranking_first_among_equal_scores() {
    let a = vec![result("a1", 5), result("a2", 3), result("a3", 3)];
    let b = vec![result("b1", 7), result("b2", 3), result("b3", 1)];
    let m = maple::ranked::merge(a, b);
    let lines: Vec<&str> = m.iter().map(|r| r.line.as_str()).collect();
    assert_eq!(lines, vec!["b1", "a1", "a2", "a3", "b2", "b3"]);
    assert!(maple::ranked::merge(vec![], vec![]).is_empty());
    assert_eq!(pairs(&maple::ranked::merge(vec![result("x", 1)], vec![])), vec![("x".to_string(), 1)]);
    assert_eq!(pairs(&maple::ranked::merge(vec![], vec![result("y", 2)])), vec![("y".to_string(), 2)]);
}

#[test]
fn sort_results_is_a_stable_sort_by_score_descending() {
    let mut seed: u64 = 88172645463325252;
    for round in 0..60 {
        let count = (round * 11) % 97;
        let mut scores = Vec::new();
        for _ in 0..count {
            seed ^= seed << 13;
            seed ^= seed >> 7;
            seed ^= seed << 17;
            scores.push((seed % 7) as i64 - 3);
        }
        let input = scored(&scores);
        let mut expected = pairs(&input);
        expected.sort_by(|a, b| b.1.cmp(&a.1));
        assert_eq!(pairs(&maple::ranked::sort_results(input)), expected);
    }
}

#[test]
fn sort_results_of_many_results() {
    let count: usize = 200_000;
    let input: Vec<MatchResult> =
        (0..count).map(|i| result("x", ((i * 7919) % 1000) as i64)).collect();
    let sorted = maple::ranked::sort_results(input);
    assert_eq!(sorted.len(), count);
    for i in 1..sorted.len() {
        assert!(sorted[i - 1].score >= sorted[i].score);
    }
}

#[test]
fn sort_results_agrees_with_the_ranked_set() {
    let scores = [3, 1, 3, 2, 9, 1, 3, 0, 9];
    let sorted = pairs(&maple::ranked::sort_results(scored(&scores)));
    let mut set = RankedSet::new(scores.len());
    for m in scored(&scores) {
        set.offer(m);
    }
    assert_eq!(sorted, pairs(set.results()));
}
