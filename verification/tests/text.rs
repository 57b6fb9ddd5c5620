use stria::order::{sort, text_less, top, ByScore, ByText};
use stria::text::{
    after_last, before_last, chars_of, joined_text, contains, ends_with, lines_of, replace_char,
    starts_with, str_eq, string_of, trim, white, words_of,
};
use stria::text_map::TextMap;

#[test]
fn white_is_white_space() {
    for n in 0..0x11_0000u32 {
        if let Some(c) = char::from_u32(n) {
            assert_eq!(white(c), c.is_whitespace(), "{:x}", n);
        }
    }
}

const SAMPLES: [&str; 12] = [
    "", " ", "a", "  two words ", "\ta\r\nb\n\nc", "no end", "end\n", "cr\rin\r\n", "\u{3000}x\u{a0}",
    "gr\u{fc}n \u{1f600} z", "\n", "\r\n",
];

#[test]
fn trim_words_and_lines_are_those_of_str() {
    for s in SAMPLES {
        assert_eq!(trim(s), s.trim());
        assert_eq!(words_of(s), s.split_whitespace().collect::<Vec<_>>());
        assert_eq!(lines_of(s), s.lines().collect::<Vec<_>>());
    }
}

#[test]
fn searching_is_that_of_str() {
    for s in SAMPLES {
        for t in SAMPLES {
            assert_eq!(contains(s, t), s.contains(t), "{:?} {:?}", s, t);
            assert_eq!(starts_with(s, t), s.starts_with(t));
            assert_eq!(ends_with(s, t), s.ends_with(t));
            assert_eq!(str_eq(s, t), s == t);
            assert_eq!(text_less(s, t), s < t);
        }
    }
    assert!(contains("xaab", "aab"));
}

#[test]
fn parts_of_strings() {
    assert_eq!(string_of(&chars_of("gr\u{fc}n"), 1, 3), "r\u{fc}");
    assert_eq!(before_last("a/b/c", '/'), Some("a/b".to_string()));
    assert_eq!(before_last("abc", '/'), None);
    assert_eq!(before_last("/abc", '/'), Some(String::new()));
    assert_eq!(after_last("a.b.rs", '.'), "rs");
    assert_eq!(after_last("abc", '.'), "abc");
    assert_eq!(after_last("abc.", '.'), "");
    assert_eq!(replace_char("a\\b\\c", '\\', '/'), "a/b/c");
    assert_eq!(joined_text("ab", "cd"), "abcd");
}

#[test]
fn sorting_by_text_is_that_of_strings() {
    let texts: Vec<String> =
        ["pear", "apple", "", "fig", "apple", "\u{fc}ber", "Zoo", "figs"].iter().map(|s| s.to_string()).collect();
    let order = sort(&ByText { texts: texts.clone() }, texts.len());
    let sorted: Vec<String> = order.iter().map(|i| texts[*i].clone()).collect();
    let mut expected = texts.clone();
    expected.sort();
    assert_eq!(sorted, expected);
    assert_eq!(order[2..4], [1, 4]);
}

#[test]
fn sorting_by_score_is_stable_and_descending() {
    let order = sort(&ByScore { scores: vec![3, 9, 3, 0, 9] }, 5);
    assert_eq!(order, vec![1, 4, 0, 2, 3]);
}

#[test]
fn top_takes_the_first_of_the_ranking() {
    let scores = vec![3u64, 9, 3, 0, 9];
    assert_eq!(top(&scores, 3), vec![1, 4, 0]);
    assert_eq!(top(&scores, 0), Vec::<usize>::new());
    assert_eq!(top(&scores, 99), vec![1, 4, 0, 2, 3]);
    assert_eq!(top(&vec![], 3), Vec::<usize>::new());
}

#[test]
fn text_map_keeps_entries_in_order() {
    let mut m: TextMap<u32> = TextMap::new();
    assert!(m.is_empty());
    m.insert("b".to_string(), 1);
    m.insert("a".to_string(), 2);
    m.insert("b".to_string(), 3);
    assert!(!m.is_empty());
    assert_eq!(m.get("b"), Some(&3));
    assert_eq!(m.get("a"), Some(&2));
    assert_eq!(m.get("c"), None);
    assert_eq!(m.position("a"), Some(1));
    assert_eq!(m.entries, vec![("b".to_string(), 3), ("a".to_string(), 2)]);
    let n = TextMap::from_entries(vec![("x".to_string(), 7), ("y".to_string(), 8)]);
    assert_eq!(n.get("y"), Some(&8));
    assert_eq!(n.get("z"), None);
}
