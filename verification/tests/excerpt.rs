use kakidashi::excerpt::{
    can_strip, excerpt, extract_text, extract_text_from_zip, has_bom, is_calm_sjis,
    is_calm_text, keeps_its_length, line_ranges, Truncation, INDENT, MAX_RUBY_MARKS,
    NOTE_CLOSE, NOTE_MARK, NOTE_OPEN, NOTE_SIGN, RUBY_CLOSE, RUBY_OPEN, STOP,
};

fn archived(line: &str) -> Vec<u8> {
    format!("題\n著者\n\n{}\n", line).into_bytes()
}

fn with_marks(n: usize) -> String {
    let mut line = String::from("\u{3000}");
    for _ in 0..n {
        line.push('《');
    }
    line.push_str("春。");
    line
}

#[test]
fn the_opening_is_cut_after_the_first_stop() {
    assert_eq!(
        excerpt("　吾輩は猫である。名前はまだ無い。\n次の行", Truncation::AtFirstStop),
        "吾輩は猫である。"
    );
}

#[test]
fn the_whole_line_is_kept_on_request() {
    assert_eq!(
        excerpt("　吾輩は猫である。名前はまだ無い。\n次の行", Truncation::WholeLine),
        "吾輩は猫である。名前はまだ無い。"
    );
}

#[test]
fn without_an_indented_line_there_is_no_excerpt() {
    assert_eq!(excerpt("吾輩は猫である。\n名前はまだ無い。", Truncation::AtFirstStop), "");
    assert_eq!(excerpt("吾輩は猫である。\n名前はまだ無い。", Truncation::WholeLine), "");
    assert_eq!(excerpt("", Truncation::AtFirstStop), "");
    assert_eq!(excerpt("\n\n", Truncation::AtFirstStop), "");
    // an ordinary space is no indent
    assert_eq!(excerpt(" 吾輩は猫である。", Truncation::AtFirstStop), "");
}

#[test]
fn the_first_indented_line_with_a_stop_wins() {
    let text = "題名\n　一行目には句点がない\n二行目は字下げがない。\n　三行目。つづき。\n　四行目。";
    assert_eq!(excerpt(text, Truncation::AtFirstStop), "三行目。");
    assert_eq!(excerpt(text, Truncation::WholeLine), "一行目には句点がない");
}

#[test]
fn without_a_stop_the_first_indented_line_stands_in() {
    let text = "題名\n　　一行目には句点がない\n　二行目にもない\n";
    assert_eq!(excerpt(text, Truncation::AtFirstStop), "一行目には句点がない");
}

#[test]
fn the_whole_indent_is_taken_off() {
    assert_eq!(excerpt("　　　春。", Truncation::AtFirstStop), "春。");
    assert_eq!(excerpt("　　　春", Truncation::WholeLine), "春");
    assert_eq!(excerpt("　", Truncation::WholeLine), "");
    // only the indent at the start of the line
    assert_eq!(excerpt("　春　夏。秋", Truncation::AtFirstStop), "春　夏。");
    assert_eq!(excerpt("　。", Truncation::AtFirstStop), "。");
}

#[test]
fn lines_end_at_line_feeds_and_lose_their_carriage_return() {
    assert_eq!(excerpt("題\r\n　春\r\n　夏。\r\n", Truncation::WholeLine), "春");
    assert_eq!(excerpt("題\r\n　春\r\n　夏。秋\r\n", Truncation::AtFirstStop), "夏。");
    // a carriage return alone ends no line, and stays at the end of the text
    assert_eq!(excerpt("題\r　春\n　夏\r", Truncation::WholeLine), "夏\r");
    let chars: Vec<char> = "ab\r\n\ncd\n\re".chars().collect();
    assert_eq!(line_ranges(&chars), vec![(0, 2), (4, 4), (5, 7), (8, 10)]);
    let chars: Vec<char> = "ab\n".chars().collect();
    assert_eq!(line_ranges(&chars), vec![(0, 2)]);
    assert_eq!(line_ranges(&Vec::new()), Vec::new());
}

#[test]
fn the_marks_are_the_ideographic_ones() {
    assert_eq!(INDENT, '　');
    assert_eq!(STOP, '。');
    assert_eq!(excerpt("　Spring. Summer.", Truncation::AtFirstStop), "Spring. Summer.");
}

#[test]
fn the_archived_text_is_stripped_before_the_excerpt_is_taken() {
    let archived = "吾輩は猫である\n夏目漱石\n\n　吾輩《わがはい》は猫である。名前はまだ無い。\n　どこで生れたか見当《けんとう》がつかぬ。\n\n底本：「夏目漱石全集」";
    assert_eq!(extract_text_from_zip(archived.as_bytes()), "吾輩は猫である。");
    assert_eq!(
        extract_text(archived.as_bytes(), Truncation::WholeLine),
        "吾輩は猫である。名前はまだ無い。"
    );
    assert_eq!(extract_text(archived.as_bytes(), Truncation::AtFirstStop), "吾輩は猫である。");
}

#[test]
fn the_archived_text_is_decoded_from_shift_jis() {
    // 題 / 著者 / 空行 / 　春。夏。 in Shift_JIS
    let archived: Vec<u8> = vec![
        0x91, 0xe8, 0x0d, 0x0a, 0x92, 0x98, 0x8e, 0xd2, 0x0d, 0x0a, 0x0d, 0x0a, 0x81, 0x40, 0x8f,
        0x74, 0x81, 0x42, 0x89, 0xc4, 0x81, 0x42, 0x0d, 0x0a,
    ];
    assert_eq!(extract_text_from_zip(&archived), "春。");
}

#[test]
fn an_archived_text_without_body_gives_no_excerpt() {
    assert_eq!(extract_text_from_zip(b""), "");
    assert_eq!(extract_text_from_zip(&[0xff, 0xfe, 0x00]), "");
}

#[test]
fn a_character_named_by_its_code_point_is_put_in() {
    assert_eq!(extract_text_from_zip(&archived("　※［＃「丸印」、U+25CB］春。夏。")), "○春。");
    assert!(can_strip(&archived("　※［＃「丸印」、U+25CB］春。夏。")));
}

#[test]
fn a_note_whose_capitals_change_length_is_not_converted() {
    let note = "\n※［＃ŉU+］".as_bytes();
    assert!(!can_strip(note));
    assert_eq!(extract_text_from_zip(note), "");
    let line = archived("　春。※［＃ŉU+］");
    assert!(!can_strip(&line));
    assert_eq!(extract_text_from_zip(&line), "");
    assert_eq!(extract_text(&line, Truncation::WholeLine), "");
    // a note runs to the bracket that closes it, brackets inside it counted
    assert!(!can_strip(&archived("　※［＃「［＃二字下げ］」ŉ］春。")));
    assert!(!can_strip(&archived("　※［＃《ŉ》")));
    assert!(!can_strip("※［＃ﬁ".as_bytes()));
}

#[test]
fn outside_the_notes_every_character_may_stand() {
    assert_eq!(extract_text_from_zip(&archived("　café ŉ ﬁ。つづき。")), "café ŉ ﬁ。");
    assert_eq!(extract_text_from_zip(&archived("　※［＃「丸印」、U+25CB］ŉ。")), "○ŉ。");
    assert_eq!(extract_text_from_zip(&archived("　ŉ［＃ここから二字下げ］春。")), "ŉ春。");
    // a note ends with its line
    assert_eq!(extract_text_from_zip(&archived("※［＃閉じない\n　ŉ春。")), "ŉ春。");
    assert_eq!(extract_text_from_zip(&archived("　※［＃é、U+25CB］。")), "○。");
    assert!(can_strip("cafe 春《はる》｜※［＃］〔〕。\r\n".as_bytes()));
    assert!(can_strip(b""));
    let text: Vec<char> = "※［ŉ＃ŉ※＃ŉ［＃ŉ".chars().collect();
    assert!(is_calm_text(&text));
    let text: Vec<char> = "※［＃a］ŉ※［＃b［c］ｄ］ŉ".chars().collect();
    assert!(is_calm_text(&text));
    let text: Vec<char> = "※［＃b［c］ŉ］".chars().collect();
    assert!(!is_calm_text(&text));
    assert_eq!(
        [NOTE_MARK, NOTE_OPEN, NOTE_SIGN, NOTE_CLOSE, RUBY_OPEN, RUBY_CLOSE],
        ['※', '［', '＃', '］', '《', '》']
    );
}

#[test]
fn bytes_under_a_byte_order_mark_are_converted_only_as_utf8() {
    // a line feed and the note ※［＃ŉu+］ in UTF-16
    let utf16: [u8; 18] = [
        0xff, 0xfe, 0x0a, 0x00, 0x3b, 0x20, 0x3b, 0xff, 0x03, 0xff, 0x49, 0x01, 0x75, 0x00, 0x2b,
        0x00, 0x3d, 0xff,
    ];
    assert!(has_bom(&utf16));
    assert!(!can_strip(&utf16));
    assert_eq!(extract_text_from_zip(&utf16), "");
    assert!(!can_strip(&[0xff, 0xfe, 0x00]));
    assert!(!can_strip(&[0xfe, 0xff, 0x30, 0x42]));
    assert!(!can_strip(&[0xff, 0xfe]));
    // the mark of UTF-8 before bytes that are not UTF-8
    assert!(!can_strip(&[0xef, 0xbb, 0xbf, 0xef, 0xbb, 0xbf, 0xff]));
    assert!(!can_strip(&[0xef, 0xbb, 0xbf, 0x8f, 0x74]));
    assert!(has_bom(&[0xef, 0xbb, 0xbf]));
    assert!(!has_bom(&[0xef, 0xbb]));
    assert!(!has_bom(&[0xff]));
    assert!(!has_bom(&[]));
    // the mark of UTF-8 before UTF-8
    let mut marked: Vec<u8> = vec![0xef, 0xbb, 0xbf];
    marked.extend_from_slice(&archived("　春。夏。"));
    assert!(can_strip(&marked));
    assert_eq!(extract_text_from_zip(&marked), "春。");
    // no mark, and not UTF-8: Shift_JIS
    assert!(can_strip(&[0x8f, 0x74, 0x81, 0x42]));
    assert!(can_strip(&[0xff, 0xff, 0x00]));
}

#[test]
fn listed_characters_keep_their_length() {
    let mut kept = 0;
    let mut n: u32 = 0;
    while n <= 0x10ffff {
        if let Some(c) = char::from_u32(n) {
            if keeps_its_length(c) {
                kept += 1;
                let upper: usize = c.to_uppercase().map(|u| u.len_utf8()).sum();
                assert_eq!(upper, c.len_utf8(), "U+{:X}", n);
            }
            // only `u`, `U` and `+` give the `U+` that is looked for
            for u in c.to_uppercase() {
                assert!(u != 'U' || c == 'u' || c == 'U', "U+{:X}", n);
                assert!(u != '+' || c == '+', "U+{:X}", n);
            }
        }
        n += 1;
    }
    assert!(kept > 100_000);
    for c in ['a', '~', '\u{80}', 'é', 'ß', 'ÿ', '\u{2000}', '※', '\u{2bff}', '\u{2e80}', '《',
        '吾', '\u{a4cf}', '豈', '\u{feff}', 'ａ', '｜', '\u{ffef}', '\u{20000}', '\u{3ffff}'] {
        assert!(keeps_its_length(c));
    }
    for c in ['\u{100}', 'ŉ', 'ı', 'ſ', '\u{1fff}', '\u{2c00}', '\u{2e7f}', '\u{a4d0}', 'ﬁ',
        '\u{fe2f}', '\u{fe50}', '\u{fffd}', '\u{10000}', '\u{1ffff}', '\u{40000}'] {
        assert!(!keeps_its_length(c));
    }
}

#[test]
fn a_line_that_leaves_too_many_rubies_open_is_not_converted() {
    assert_eq!(MAX_RUBY_MARKS, 256);
    let most = archived(&with_marks(256));
    assert!(can_strip(&most));
    let _ = extract_text(&most, Truncation::WholeLine);
    let more = archived(&with_marks(257));
    assert!(!can_strip(&more));
    assert_eq!(extract_text_from_zip(&more), "");
    let deep = archived(&with_marks(100_000));
    assert_eq!(extract_text_from_zip(&deep), "");
    // the marks are counted line by line
    let spread = archived(&format!("{}\n{}", with_marks(200), with_marks(200)));
    assert!(can_strip(&spread));
    assert_eq!(extract_text_from_zip(&archived(&format!("　春。\n{}", with_marks(200)))), "春。");
}

#[test]
fn rubies_that_are_closed_do_not_count() {
    let mut line = String::from("\u{3000}");
    for _ in 0..5000 {
        line.push_str("春《はる》");
    }
    line.push_str("。つづき。");
    let mut expected = String::new();
    for _ in 0..5000 {
        expected.push('春');
    }
    expected.push('。');
    assert!(can_strip(&archived(&line)));
    assert_eq!(extract_text_from_zip(&archived(&line)), expected);
    // open marks count from the last closing mark
    let text: Vec<char> = format!("{}》{}", "《".repeat(256), "《".repeat(256)).chars().collect();
    assert!(is_calm_text(&text));
    let text: Vec<char> = format!("{}》{}", "《".repeat(256), "《".repeat(257)).chars().collect();
    assert!(!is_calm_text(&text));
    let text: Vec<char> = format!("{}\n{}", "《".repeat(256), "《".repeat(256)).chars().collect();
    assert!(is_calm_text(&text));
    let text: Vec<char> = format!("{}｜〔{}", "《".repeat(200), "《".repeat(57)).chars().collect();
    assert!(!is_calm_text(&text));
}

#[test]
fn ruby_marks_are_found_in_shift_jis() {
    let open = [0x81u8, 0x73];
    let close = [0x81u8, 0x74];
    let mut sjis: Vec<u8> = open.repeat(256);
    assert!(is_calm_sjis(&sjis));
    assert!(can_strip(&sjis));
    let _ = extract_text_from_zip(&sjis);
    sjis.extend_from_slice(&open);
    assert!(!is_calm_sjis(&sjis));
    assert_eq!(extract_text_from_zip(&sjis), "");
    // a closing mark, or a line feed, between them
    let mut closed: Vec<u8> = open.repeat(256);
    closed.extend_from_slice(&close);
    closed.extend_from_slice(&open.repeat(256));
    closed.push(0x0a);
    closed.extend_from_slice(&open.repeat(256));
    assert!(is_calm_sjis(&closed));
    // `81 74` after a first byte is the second byte of a character and a `t`
    let mut split: Vec<u8> = open.repeat(256);
    split.extend_from_slice(&[0x83, 0x81, 0x74]);
    split.extend_from_slice(&open);
    assert!(!is_calm_sjis(&split));
    // `81 73` after a first byte is no mark either
    let mut none: Vec<u8> = Vec::new();
    for _ in 0..300 {
        none.extend_from_slice(&[0x83, 0x81, 0x73]);
    }
    assert!(is_calm_sjis(&none));
    assert!(is_calm_sjis(&[0x81]));
    assert!(is_calm_sjis(&[]));
    // 5000 rubies, each closed: 春《はる》
    let mut many: Vec<u8> = vec![b't', 0x0a, b'a', 0x0a, 0x0a, 0x81, 0x40];
    for _ in 0..5000 {
        many.extend_from_slice(&[0x8f, 0x74, 0x81, 0x73, 0x82, 0xcd, 0x82, 0xe9, 0x81, 0x74]);
    }
    many.extend_from_slice(&[0x81, 0x42, 0x0a]);
    assert!(can_strip(&many));
    assert_eq!(extract_text_from_zip(&many).chars().count(), 5001);
}

#[test]
fn every_character_of_shift_jis_can_stand_in_a_note() {
    let mut tried = 0;
    for lead in 0x80u16..=0xff {
        for trail in 0x00u16..=0xff {
            let mut text: Vec<u8> = vec![b't', 0x0a, b'a', 0x0a, 0x0a, 0x81, 0x40];
            text.extend_from_slice(&[0x81, 0xa6, 0x81, 0x6d, 0x81, 0x94]);
            text.extend_from_slice(&[lead as u8, trail as u8]);
            text.extend_from_slice(b"U+25CB");
            text.extend_from_slice(&[0x81, 0x6e, 0x81, 0x42, 0x0a]);
            if std::str::from_utf8(&text).is_err() {
                assert!(can_strip(&text));
                let _ = extract_text(&text, Truncation::WholeLine);
                tried += 1;
            }
        }
    }
    assert!(tried > 30_000);
}
