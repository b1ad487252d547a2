//! Texts: numbers, white space, lines, searching, and tables keyed by text.
use polaris::text::{
    count_text, decimal_text, join, parse_number, split_lines, text_after, text_before, text_begins,
    text_holds, trim_text, white,
};
use polaris::textmap::TextMap;
use polaris::{char_diff, CharIndex, CharRange, DiffPart};

#[test]
fn white_space_is_that_of_char() {
    for code in 0..=0x10ffffu32 {
        if let Some(c) = char::from_u32(code) {
            assert_eq!(white(c), c.is_whitespace(), "{code:x}");
        }
    }
}

#[test]
fn numbers_are_written_in_decimal() {
    for n in [0, 1, 9, 10, 11, 99, 100, 1009, 1234567890123, u64::MAX] {
        assert_eq!(decimal_text(n), n.to_string());
        assert_eq!(parse_number(&decimal_text(n)), Some(n));
    }
    assert_eq!(count_text(usize::MAX), usize::MAX.to_string());
}

#[test]
fn numbers_are_read_as_str_parse_reads_them() {
    let inputs = [
        "", "+", "-", "0", "007", "+5", "++5", "-0", "5+", "1 ", " 1", "1a", "１", "18446744073709551615",
        "18446744073709551616", "99999999999999999999", "0000000000000000000000001", "+18446744073709551615",
    ];
    for s in inputs {
        assert_eq!(parse_number(s), s.parse::<u64>().ok(), "{s:?}");
    }
}

#[test]
fn lines_and_trimming_are_those_of_str() {
    let inputs = [
        "", "\n", "a", "a\n", "a\nb", "a\r\nb\r\n", "a\r", "a\r\r\n", "\r\n\r\n", "\n\na", " x \t", "\u{3000}字\u{a0}",
        "\u{200b}x", "  ", "a \n b",
    ];
    for s in inputs {
        let lines: Vec<String> = s.lines().map(|l| l.to_string()).collect();
        assert_eq!(split_lines(s), lines, "{s:?}");
        assert_eq!(trim_text(s), s.trim(), "{s:?}");
    }
}

#[test]
fn searching_finds_the_first_place() {
    assert!(text_holds("abcabc", "ca"));
    assert!(text_holds("abc", ""));
    assert!(!text_holds("abc", "abcd"));
    assert!(text_begins("new:3", "new:"));
    assert!(!text_begins("ne", "new:"));
    assert_eq!(text_before("a=b=c", "="), "a");
    assert_eq!(text_before("abc", "="), "abc");
    assert_eq!(text_after("a=b=c", "="), Some("b=c".to_string()));
    assert_eq!(text_after("abc", "="), None);
    assert_eq!(text_after("aab", "ab"), Some(String::new()));
}

#[test]
fn joining_puts_the_separator_between() {
    assert_eq!(join(&vec![], ", "), "");
    assert_eq!(join(&vec!["a".to_string()], ", "), "a");
    assert_eq!(join(&vec!["a".to_string(), "".to_string(), "c".to_string()], ", "), "a, , c");
}

#[test]
fn char_positions_become_byte_offsets() {
    let s = "a语😀b";
    assert_eq!(CharIndex::char_len(s), 4);
    let offsets: Vec<Option<usize>> = (0..6).map(|i| CharIndex::byte_offset(s, i)).collect();
    assert_eq!(offsets, [Some(0), Some(1), Some(4), Some(8), Some(9), None]);
    assert_eq!(CharIndex::byte_range(s, &CharRange::chars(1, 3)), Some((1, 8)));
    assert_eq!(CharIndex::byte_range(s, &CharRange::chars(3, 1)), None);
    assert_eq!(CharIndex::byte_range(s, &CharRange::chars(3, 5)), None);
}

#[test]
fn text_map_keeps_the_order_of_first_entry() {
    let mut m: TextMap<String> = TextMap::new();
    assert!(m.is_empty());
    m.insert("b".to_string(), "1".to_string());
    m.insert("a".to_string(), "2".to_string());
    m.insert("b".to_string(), "3".to_string());
    assert_eq!(m.len(), 2);
    assert_eq!(m.get("b"), Some(&"3".to_string()));
    let keys: Vec<&str> = m.entries.iter().map(|e| e.0.as_str()).collect();
    assert_eq!(keys, ["b", "a"]);
    if let Some(v) = m.get_mut("a") {
        v.push('!');
    }
    assert_eq!(m.get("a"), Some(&"2!".to_string()));
    m.remove("b");
    assert!(!m.contains_key("b"));
    assert!(m.contains_key("a"));
    assert_eq!(m.get("b"), None);
}

#[test]
fn diff_keeps_the_longest_common_part_and_deletes_first() {
    let part = |s: &str| s.to_string();
    assert_eq!(
        char_diff("ABCBDAB", "BDCABA"),
        vec![
            DiffPart::Delete(part("A")),
            DiffPart::Equal(part("B")),
            DiffPart::Delete(part("CB")),
            DiffPart::Equal(part("D")),
            DiffPart::Insert(part("C")),
            DiffPart::Equal(part("AB")),
            DiffPart::Insert(part("A")),
        ]
    );
    for (old, new) in [("ab", "cd"), ("axb", "cxd"), ("abcabc", "cbacba"), ("语言学", "文学语")] {
        let parts = char_diff(old, new);
        for pair in parts.windows(2) {
            assert!(!matches!(pair, [DiffPart::Insert(_), DiffPart::Delete(_)]), "{old} {new}");
        }
    }
    assert_eq!(char_diff("x", "y"), vec![DiffPart::Delete(part("x")), DiffPart::Insert(part("y"))]);
    for (old, new) in [("", ""), ("一二三", "一三"), ("kitten", "sitting"), ("aaa", "aa")] {
        let parts = char_diff(old, new);
        let mut a = String::new();
        let mut b = String::new();
        for p in &parts {
            match p {
                DiffPart::Equal(s) => {
                    a.push_str(s);
                    b.push_str(s);
                }
                DiffPart::Delete(s) => a.push_str(s),
                DiffPart::Insert(s) => b.push_str(s),
            }
        }
        assert_eq!((a.as_str(), b.as_str()), (old, new));
    }
}
