use maple::item::{shift_all, MatchItem, MatchScope, SourceItem};
use maple::matcher::{
    find_next, find_prev, fuzzy_compact, fuzzy_leftmost, position_score, score, score_bytes,
    substr_indices, Algo,
};
use maple::text::{same_text, str_before, str_between, str_from};

#[test]
fn substring_finds_first_occurrence() {
    assert_eq!(substr_indices(b"banana", b"an"), Some((-1, vec![1, 2])));
    assert_eq!(substr_indices(b"grape", b"ap"), Some((-2, vec![2, 3])));
    assert_eq!(substr_indices(b"apple", b"ap"), Some((0, vec![0, 1])));
}

#[test]
fn substring_rejects_what_is_not_contiguous() {
    assert_eq!(substr_indices(b"a_p", b"ap"), None);
    assert_eq!(substr_indices(b"banana", b"nab"), None);
    assert_eq!(substr_indices(b"ab", b"abc"), None);
    assert_eq!(substr_indices(b"", b"a"), None);
}

#[test]
fn substring_is_case_sensitive() {
    assert_eq!(substr_indices(b"Apple", b"ap"), None);
    assert_eq!(substr_indices(b"Apple", b"Ap"), Some((0, vec![0, 1])));
}

#[test]
fn empty_query_matches_everything_with_no_offsets() {
    assert_eq!(substr_indices(b"anything", b""), Some((0, vec![])));
    assert_eq!(fuzzy_leftmost(b"anything", b""), Some((0, vec![])));
    assert_eq!(fuzzy_compact(b"anything", b""), Some((0, vec![])));
    assert_eq!(substr_indices(b"", b""), Some((0, vec![])));
    assert_eq!(fuzzy_compact(b"", b""), Some((0, vec![])));
}

#[test]
fn substring_matches_at_the_very_end() {
    assert_eq!(substr_indices(b"xyzab", b"ab"), Some((-3, vec![3, 4])));
    assert_eq!(substr_indices(b"ab", b"ab"), Some((0, vec![0, 1])));
}

#[test]
fn leftmost_takes_earliest_offsets() {
    assert_eq!(fuzzy_leftmost(b"aab", b"ab"), Some((-4, vec![0, 2])));
    assert_eq!(fuzzy_leftmost(b"a_b_ab", b"ab"), Some((-4, vec![0, 2])));
    assert_eq!(fuzzy_leftmost(b"xaxbxc", b"abc"), Some((-9, vec![1, 3, 5])));
}

#[test]
fn compact_keeps_the_end_and_tightens_the_window() {
    assert_eq!(fuzzy_compact(b"aab", b"ab"), Some((-1, vec![1, 2])));
    assert_eq!(fuzzy_compact(b"a_b_ab", b"ab"), Some((-4, vec![0, 2])));
    assert_eq!(fuzzy_compact(b"abcabbc", b"abc"), Some((0, vec![0, 1, 2])));
    assert_eq!(fuzzy_compact(b"a_a_abc", b"abc"), Some((-4, vec![4, 5, 6])));
}

#[test]
fn compact_and_leftmost_end_at_the_same_offset() {
    let texts: [&[u8]; 4] = [b"a_a_abc", b"aab", b"abcabbc", b"xxaxxbxxaxbxc"];
    for text in texts {
        let left = fuzzy_leftmost(text, b"ab").unwrap().1;
        let tight = fuzzy_compact(text, b"ab").unwrap().1;
        assert_eq!(left.last(), tight.last());
        for i in 0..left.len() {
            assert!(left[i] <= tight[i]);
        }
    }
}

#[test]
fn fuzzy_rejects_what_is_no_subsequence() {
    assert_eq!(fuzzy_leftmost(b"abc", b"ca"), None);
    assert_eq!(fuzzy_compact(b"abc", b"ca"), None);
    assert_eq!(fuzzy_leftmost(b"abc", b"abcd"), None);
    assert_eq!(fuzzy_compact(b"", b"a"), None);
    assert_eq!(fuzzy_leftmost(b"aaa", b"aaaa"), None);
}

#[test]
fn score_weighs_gaps_four_times_and_adds_the_start() {
    assert_eq!(position_score(&vec![]), 0);
    assert_eq!(position_score(&vec![0]), 0);
    assert_eq!(position_score(&vec![7]), -7);
    assert_eq!(position_score(&vec![2, 3, 4]), -2);
    assert_eq!(position_score(&vec![2, 5]), -(4 * 2 + 2));
    assert_eq!(position_score(&vec![1, 3, 9]), -(4 * 6 + 1));
}

#[test]
fn score_stays_within_its_type() {
    assert_eq!(position_score(&vec![0, usize::MAX]), i64::MIN);
    assert_eq!(position_score(&vec![usize::MAX]), i64::MIN);
    assert_eq!(position_score(&vec![usize::MAX, 0]), i64::MAX);
}

#[test]
fn score_dispatches_by_algorithm() {
    assert_eq!(score(Algo::SubString, "aab", "ab"), Some((-1, vec![1, 2])));
    assert_eq!(score(Algo::Leftmost, "aab", "ab"), Some((-4, vec![0, 2])));
    assert_eq!(score(Algo::Compact, "aab", "ab"), Some((-1, vec![1, 2])));
    assert_eq!(score(Algo::SubString, "a_b", "ab"), None);
    assert_eq!(score_bytes(Algo::Leftmost, b"a_b", b"ab"), Some((-4, vec![0, 2])));
}

#[test]
fn every_offset_is_a_valid_offset_that_spells_the_query() {
    let texts = ["src/main.rs", "héllo wörld", "aaaa", "", "a\tb c", "Cargo.toml"];
    let queries = ["", "a", "ma", "rs", "lo", "öl", "aa", "é"];
    for algo in [Algo::SubString, Algo::Leftmost, Algo::Compact] {
        for text in texts {
            for query in queries {
                if let Some((_, idx)) = score(algo, text, query) {
                    assert_eq!(idx.len(), query.len());
                    for i in 0..idx.len() {
                        assert!(idx[i] < text.len());
                        assert_eq!(text.as_bytes()[idx[i]], query.as_bytes()[i]);
                        if i > 0 {
                            assert!(idx[i - 1] < idx[i]);
                        }
                    }
                }
            }
        }
    }
}

#[test]
fn offsets_are_byte_offsets() {
    // 'é' takes two bytes, so "llo" begins at byte 3.
    assert_eq!(score(Algo::SubString, "héllo", "llo"), Some((-3, vec![3, 4, 5])));
}

#[test]
fn find_next_and_find_prev() {
    assert_eq!(find_next(b"a:b:c", b':', 0), 1);
    assert_eq!(find_next(b"a:b:c", b':', 2), 3);
    assert_eq!(find_next(b"a:b:c", b':', 4), 5);
    assert_eq!(find_next(b"a:b:c", b':', 5), 5);
    assert_eq!(find_prev(b"a:b:c", b':', 5), Some(3));
    assert_eq!(find_prev(b"a:b:c", b':', 3), Some(1));
    assert_eq!(find_prev(b"a:b:c", b':', 1), None);
    assert_eq!(find_prev(b"a:b:c", b':', 0), None);
}

#[test]
fn full_scope_matches_the_whole_line() {
    let item = SourceItem::new("src/main.rs".to_string(), MatchScope::Full);
    assert_eq!(item.display_text(), "src/main.rs");
    assert_eq!(item.match_text(), Some(("src/main.rs", 0)));
    assert_eq!(item.do_match("src", Algo::SubString), Some((0, vec![0, 1, 2])));
}

#[test]
fn tag_name_scope_stops_at_the_first_colon() {
    let item = SourceItem::new("main:12 [function@src/main.rs]".to_string(), MatchScope::TagName);
    assert_eq!(item.match_text(), Some(("main", 0)));
    assert_eq!(item.do_match("ai", Algo::SubString), Some((-1, vec![1, 2])));
    assert_eq!(item.do_match("function", Algo::Leftmost), None);
    let plain = SourceItem::new("no colon here".to_string(), MatchScope::TagName);
    assert_eq!(plain.match_text(), Some(("no colon here", 0)));
    let empty_name = SourceItem::new(":12".to_string(), MatchScope::TagName);
    assert_eq!(empty_name.match_text(), Some(("", 0)));
}

#[test]
fn file_name_scope_begins_behind_the_last_slash() {
    let item = SourceItem::new("src/cmd/main.rs".to_string(), MatchScope::FileName);
    assert_eq!(item.match_text(), Some(("main.rs", 8)));
    let bare = SourceItem::new("main.rs".to_string(), MatchScope::FileName);
    assert_eq!(bare.match_text(), Some(("main.rs", 0)));
    let dir = SourceItem::new("src/cmd/".to_string(), MatchScope::FileName);
    assert_eq!(dir.match_text(), None);
    assert_eq!(dir.do_match("", Algo::Compact), None);
    let empty = SourceItem::new(String::new(), MatchScope::FileName);
    assert_eq!(empty.match_text(), None);
}

#[test]
fn offsets_of_a_part_are_moved_up_by_its_offset() {
    let item = SourceItem::new("src/cmd/main.rs".to_string(), MatchScope::FileName);
    let (text, k) = item.match_text().unwrap();
    for algo in [Algo::SubString, Algo::Leftmost, Algo::Compact] {
        for query in ["main", "mr", "rs", "a", ""] {
            let bare = score(algo, text, query);
            let moved = item.do_match(query, algo);
            match (bare, moved) {
                (Some((s1, idx1)), Some((s2, idx2))) => {
                    assert_eq!(s1, s2);
                    assert_eq!(idx1.len(), idx2.len());
                    for i in 0..idx1.len() {
                        assert_eq!(idx2[i], idx1[i] + k);
                        assert!(idx2[i] < item.display_text().len());
                        assert!(idx2[i] >= k);
                    }
                }
                (None, None) => {}
                _ => panic!("the part and the line disagree on whether the query matches"),
            }
        }
    }
    assert_eq!(item.do_match("main", Algo::SubString), Some((0, vec![8, 9, 10, 11])));
    // The query stands in the directory only, which is not matched.
    assert_eq!(item.do_match("cmd", Algo::SubString), None);
}

#[test]
fn scopes_cut_behind_multibyte_characters() {
    let item = SourceItem::new("dossier/été.rs".to_string(), MatchScope::FileName);
    assert_eq!(item.match_text(), Some(("été.rs", 8)));
    assert_eq!(item.do_match("rs", Algo::SubString), Some((-6, vec![14, 15])));
    let tag = SourceItem::new("été:3".to_string(), MatchScope::TagName);
    assert_eq!(tag.match_text(), Some(("été", 0)));
}

#[test]
fn shift_all_adds_the_offset() {
    assert_eq!(shift_all(vec![0, 2, 5], 10), vec![10, 12, 15]);
    assert_eq!(shift_all(vec![], 10), Vec::<usize>::new());
    assert_eq!(shift_all(vec![1], 0), vec![1]);
}

#[test]
fn text_helpers_cut_at_offsets() {
    assert_eq!(str_before("hello", 2), "he");
    assert_eq!(str_from("hello", 2), "llo");
    assert_eq!(str_between("hello", 1, 3), "el");
    assert_eq!(str_between("hello", 2, 2), "");
    assert_eq!(str_between("hello", 0, 5), "hello");
    assert!(same_text("abc", "abc"));
    assert!(!same_text("abc", "abd"));
    assert!(!same_text("abc", "ab"));
    assert!(same_text("", ""));
    assert!(same_text("é", "é"));
}

#[test]
fn grep_scope_begins_behind_line_and_column() {
    let item = SourceItem::new("src/main.rs:12:5:    let x = 1;".to_string(), MatchScope::GrepLine);
    assert_eq!(item.match_text(), Some(("    let x = 1;", 17)));
    assert_eq!(item.do_match("let", Algo::SubString), Some((-4, vec![21, 22, 23])));
    // The path is not matched.
    assert_eq!(item.do_match("main", Algo::SubString), None);
}

#[test]
fn grep_scope_takes_the_first_place_of_the_form() {
    let cases = [
        ("a:1:2:b:3:4:c", Some(("b:3:4:c", 6))),
        ("a:b:1:2:c", Some(("c", 8))),
        ("C:\\dir\\f.rs:10:20:text", Some(("text", 18))),
        ("f:1:2:", Some(("", 6))),
        (":1:2:x", Some(("x", 5))),
        ("f:12:x", None),
        ("f:1::x", None),
        ("f::1:2:x", Some(("x", 7))),
        ("f:1:2", None),
        ("f:1:2x:", None),
        ("f:a1:2:x", None),
        ("", None),
        ("no location", None),
        ("été:1:2:à", Some(("à", 10))),
    ];
    for (line, expected) in cases {
        let item = SourceItem::new(line.to_string(), MatchScope::GrepLine);
        assert_eq!(item.match_text(), expected);
    }
}

#[test]
fn find_hit_text_on_bytes() {
    assert_eq!(maple::item::find_hit_text(b"p:1:2:t"), Some(6));
    assert_eq!(maple::item::find_hit_text(b"p:1:t"), None);
    assert_eq!(maple::text::skip_digits(b"ab123c", 2), 5);
    assert_eq!(maple::text::skip_digits(b"ab123c", 0), 0);
    assert_eq!(maple::text::skip_digits(b"123", 0), 3);
    assert_eq!(maple::text::skip_digits(b"123", 3), 3);
}

#[test]
fn item_from_a_string_is_matched_as_a_whole() {
    let item = SourceItem::from("a/b:1:2:c".to_string());
    assert_eq!(item.scope, MatchScope::Full);
    assert_eq!(item.match_text(), Some(("a/b:1:2:c", 0)));
}
