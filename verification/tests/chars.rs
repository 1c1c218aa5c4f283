use kakidashi::chars::{
    after_prefix, before_first, begins_with, chars_of, code, cut, find, find_from,
    finishes_with, includes, is_whitespace, matches_at, replace, rfind, scan, skip_run, trim,
};
use kakidashi::locator::{join_path, parent_dir};
use kakidashi::order::{chars_le, dedup_texts, sort_texts, str_le};

fn v(s: &str) -> Vec<char> {
    s.chars().collect()
}

fn strings(items: &[&str]) -> Vec<String> {
    items.iter().map(|s| s.to_string()).collect()
}

#[test]
fn characters_are_counted_not_bytes() {
    assert_eq!(chars_of("猫a。"), vec!['猫', 'a', '。']);
    assert_eq!(chars_of(""), Vec::<char>::new());
    assert_eq!(cut("吾輩は猫である", 3, 4), "猫");
    assert_eq!(cut("吾輩は猫である", 0, 0), "");
    assert_eq!(cut("吾輩は猫である", 0, 7), "吾輩は猫である");
}

#[test]
fn searching_finds_the_first_and_the_last_place() {
    let s = v("abcabcab");
    assert_eq!(find(&s, &v("bc")), Some(1));
    assert_eq!(rfind(&s, &v("bc")), Some(4));
    assert_eq!(find(&s, &v("ab")), Some(0));
    assert_eq!(rfind(&s, &v("ab")), Some(6));
    assert_eq!(find(&s, &v("cb")), None);
    assert_eq!(rfind(&s, &v("cb")), None);
    assert_eq!(find(&s, &v("")), Some(0));
    assert_eq!(rfind(&s, &v("")), Some(8));
    assert_eq!(find(&v(""), &v("")), Some(0));
    assert_eq!(find(&v(""), &v("a")), None);
    assert_eq!(rfind(&v("ab"), &v("abc")), None);
    assert_eq!(find(&v("aaa"), &v("aa")), Some(0));
    assert_eq!(rfind(&v("aaa"), &v("aa")), Some(1));
    assert_eq!(find_from(&s, &v("ab"), 1), Some(3));
    assert_eq!(find_from(&s, &v("ab"), 7), None);
    assert_eq!(find_from(&s, &v("ab"), 100), None);
    assert_eq!(find_from(&s, &v(""), 8), Some(8));
    assert!(matches_at(&s, &v("cab"), 2));
    assert!(!matches_at(&s, &v("cab"), 3));
    assert!(!matches_at(&s, &v("ab"), 7));
    assert!(!matches_at(&s, &v(""), 9));
    assert!(!matches_at(&s, &v("a"), usize::MAX));
}

#[test]
fn beginnings_and_ends() {
    let s = v("./files/1_ttz.zip");
    assert!(begins_with(&s, &v("./files")));
    assert!(!begins_with(&s, &v("files")));
    assert!(finishes_with(&s, &v("ttz.zip")));
    assert!(!finishes_with(&s, &v(".zi")));
    assert!(includes(&s, &v("_ttz")));
    assert!(!includes(&s, &v("ruby")));
    assert!(begins_with(&s, &v("")) && finishes_with(&s, &v("")) && includes(&s, &v("")));
    assert!(!begins_with(&v("ab"), &v("abc")) && !finishes_with(&v("bc"), &v("abc")));
    assert_eq!(after_prefix("../cards/000148/card789.html", "../cards/"), Some("000148/card789.html".to_string()));
    assert_eq!(after_prefix("cards/000148", "../cards/"), None);
    assert_eq!(after_prefix("猫", ""), Some("猫".to_string()));
    assert_eq!(before_first("000148/card789.html", "/"), "000148");
    assert_eq!(before_first("000148", "/"), "000148");
    assert_eq!(before_first("/x", "/"), "");
}

#[test]
fn replacing_goes_from_left_to_right_without_overlap() {
    assert_eq!(replace("aozorabunko/cards", "aozorabunko", "https://www.aozora.gr.jp"), "https://www.aozora.gr.jp/cards");
    assert_eq!(replace("aaa", "aa", "b"), "ba");
    assert_eq!(replace("aaaa", "aa", "b"), "bb");
    assert_eq!(replace("abc", "x", "y"), "abc");
    assert_eq!(replace("", "x", "y"), "");
    assert_eq!(replace("猫と猫", "猫", "犬犬"), "犬犬と犬犬");
    assert_eq!(replace("abab", "ab", ""), "");
    assert_eq!(replace("xabx", "ab", "ab"), "xabx");
    assert_eq!(replace("aXbXc", "X", "aXa"), "aaXabaXac");
    assert_eq!(replace("ab", "", "-"), "-a-b-");
    assert_eq!(replace("", "", "-"), "-");
    assert_eq!(replace("猫", "", ""), "猫");
    for (s, from, to) in [("banana", "an", "AN"), ("banana", "a", ""), ("{a}{a}", "{a}", "{a}{a}"), ("abcabc", "bc", "b"), ("吾輩は猫", "", "・")] {
        assert_eq!(replace(s, from, to), s.replace(from, to));
    }
}

#[test]
fn trimming_takes_white_space_off_both_ends() {
    assert_eq!(trim("  夏目 漱石 \n"), "夏目 漱石");
    assert_eq!(trim("\u{3000}夏目\u{3000}"), "夏目");
    assert_eq!(trim(" \t\r\n"), "");
    assert_eq!(trim(""), "");
    assert_eq!(trim("a"), "a");
    for c in ['\u{9}', '\u{a}', '\u{b}', '\u{c}', '\u{d}', ' ', '\u{85}', '\u{a0}', '\u{1680}',
        '\u{2000}', '\u{2005}', '\u{200a}', '\u{2028}', '\u{2029}', '\u{202f}', '\u{205f}', '\u{3000}'] {
        assert!(is_whitespace(c));
    }
    for c in ['a', '\u{8}', '\u{e}', '\u{1f}', '\u{200b}', '\u{2060}', '\u{feff}', '\u{3001}', '\u{180e}'] {
        assert!(!is_whitespace(c));
    }
    let mut n: u32 = 0;
    while n < 0x11000 {
        if let Some(c) = char::from_u32(n) {
            assert_eq!(is_whitespace(c), c.is_whitespace());
        }
        n += 1;
    }
}

#[test]
fn scanning_stops_at_the_character_or_at_the_end() {
    let s = v("　　春。夏。");
    assert_eq!(scan(&s, 0, 6, '。'), 3);
    assert_eq!(scan(&s, 4, 6, '。'), 5);
    assert_eq!(scan(&s, 0, 3, '。'), 3);
    assert_eq!(scan(&s, 6, 6, '。'), 6);
    assert_eq!(skip_run(&s, 0, 6, '　'), 2);
    assert_eq!(skip_run(&s, 0, 1, '　'), 1);
    assert_eq!(skip_run(&s, 2, 6, '　'), 2);
}

#[test]
fn a_locator_has_a_directory() {
    assert_eq!(parent_dir("../aozorabunko/cards/000006/card47064.html"), "../aozorabunko/cards/000006");
    assert_eq!(parent_dir("index_pages/person_all.html"), "index_pages");
    assert_eq!(parent_dir("person_all.html"), "");
    assert_eq!(parent_dir("/person_all.html"), "/");
    assert_eq!(parent_dir(""), "");
    assert_eq!(parent_dir("a/b/"), "a/b");
}

#[test]
fn joining_puts_one_slash_between() {
    assert_eq!(join_path("a/b", "c.html"), "a/b/c.html");
    assert_eq!(join_path("a/b/", "c.html"), "a/b/c.html");
    assert_eq!(join_path("", "c.html"), "c.html");
    assert_eq!(join_path("a", "/c.html"), "/c.html");
    assert_eq!(join_path("/", "c"), "/c");
    assert_eq!(join_path("a", ""), "a/");
    assert_eq!(join_path("", ""), "");
}

#[test]
fn texts_are_ordered_by_code_point() {
    assert!(str_le("", ""));
    assert!(str_le("", "a"));
    assert!(!str_le("a", ""));
    assert!(str_le("a", "a"));
    assert!(str_le("a", "ab"));
    assert!(!str_le("ab", "a"));
    assert!(str_le("B", "a"));
    assert!(!str_le("a", "B"));
    assert!(str_le("ｱ", "𠮷"));
    assert!(!str_le("𠮷", "ｱ"));
    assert!(chars_le(&v("夏目"), &v("芥川")));
    assert_eq!(code('A'), 65);
    assert_eq!(code('。'), 0x3002);
    let words = ["", "a", "ab", "B", "ｱ", "𠮷", "夏目", "芥川", "あ", "ア", "\u{7f}", "\u{80}", "\u{7ff}", "\u{800}", "\u{ffff}", "\u{10000}"];
    for a in words {
        for b in words {
            assert_eq!(str_le(a, b), a <= b);
        }
    }
}

#[test]
fn strings_are_sorted_and_thinned() {
    let names = strings(&["夏目漱石", "芥川竜之介", "夏目漱石", "太宰治", "", "Abe", "夏目漱石"]);
    let sorted = sort_texts(&names);
    assert_eq!(sorted, strings(&["", "Abe", "夏目漱石", "夏目漱石", "夏目漱石", "太宰治", "芥川竜之介"]));
    let mut expected = names.clone();
    expected.sort();
    assert_eq!(sorted, expected);
    assert_eq!(dedup_texts(&sorted), strings(&["", "Abe", "夏目漱石", "太宰治", "芥川竜之介"]));
    assert_eq!(dedup_texts(&names), strings(&["夏目漱石", "芥川竜之介", "夏目漱石", "太宰治", "", "Abe", "夏目漱石"]));
    assert_eq!(sort_texts(&Vec::new()), Vec::<String>::new());
    assert_eq!(dedup_texts(&Vec::new()), Vec::<String>::new());
}
