use gaggle::number::{parse_unsigned, to_decimal, to_signed, wide_to_decimal};
use gaggle::text::{
    below_bytes, chars_of, contains, contains_char, control, debug_list, drop_empty, ends_with,
    find, find_byte, head_chars, join, less, lines_of, member, owned, pad_left, pad_right,
    replace, same, space, split, split_once, starts_with, string_of, strip_prefix, trim,
    trim_start_text, unlines_of, width, CharSet,
};

fn list(items: &[&str]) -> Vec<String> {
    items.iter().map(|s| s.to_string()).collect()
}

const SAMPLES: [&str; 9] = [
    "",
    "a",
    " \u{a0}x\u{2003} ",
    "a\r\nb\n\nc",
    "a\n",
    "\r",
    "é|ü|",
    "— - —",
    "x\r\r\n",
];

#[test]
fn character_classes_agree_with_the_standard_library() {
    for n in 0..=0x10ffff {
        if let Some(c) = char::from_u32(n) {
            assert_eq!(space(c), c.is_whitespace(), "{n:x}");
            assert_eq!(control(c), c.is_control(), "{n:x}");
            assert_eq!(width(c), c.len_utf8(), "{n:x}");
        }
    }
}

#[test]
fn texts_agree_with_the_standard_library() {
    for s in SAMPLES {
        assert_eq!(trim(s), s.trim());
        let lines: Vec<&str> = s.lines().collect();
        assert_eq!(lines_of(s), lines);
        let parts: Vec<&str> = s.split('|').collect();
        assert_eq!(split(s, CharSet::One('|')), parts);
        assert_eq!(replace(s, CharSet::LineEnd, "·"), s.replace(['\n', '\r'], "·"));
        assert_eq!(split_once(s, " - "), s.split_once(" - "));
        assert_eq!(pad_right(s, 5), format!("{s:<5}"));
        assert_eq!(pad_left(s, 5), format!("{s:>5}"));
        assert_eq!(string_of(&chars_of(s)), s);
        assert_eq!(owned(s), s);
        for t in SAMPLES {
            assert_eq!(less(s, t), s < t);
            assert_eq!(same(s, t), s == t);
            assert_eq!(contains(s, t), s.contains(t));
            assert_eq!(starts_with(s, t), s.starts_with(t));
            assert_eq!(ends_with(s, t), s.ends_with(t));
            assert_eq!(strip_prefix(s, t), s.strip_prefix(t));
        }
    }
}

#[test]
fn pieces_of_texts() {
    assert_eq!(find("aéb", "b"), Some(2));
    assert_eq!(find("", ""), Some(0));
    assert_eq!(find("a", "b"), None);
    assert!(contains_char("a\tb", CharSet::Control));
    assert!(!contains_char("ab", CharSet::Slash));
    assert_eq!(trim_start_text("././x", "./"), "x");
    assert_eq!(drop_empty(list(&["", "a", "", "b"])), list(&["a", "b"]));
    assert!(member(&list(&["a", "b"]), "b"));
    assert!(!member(&list(&["a", "b"]), "c"));
    assert_eq!(join(&list(&["a", "b", "c"]), ", "), "a, b, c");
    assert_eq!(join(&list(&[]), ", "), "");
    assert_eq!(unlines_of(&list(&["a", ""])), "a\n\n");
    assert_eq!(head_chars("héllo", 2), "hé");
    assert_eq!(head_chars("h", 2), "h");
    assert_eq!(debug_list(&list(&["a\"", "é\n"])), "[\"a\\\"\", \"é\\n\"]");
    assert_eq!(debug_list(&list(&[])), "[]");
}

#[test]
fn bytes_of_texts() {
    assert_eq!(find_byte("aé", 1), Some(1));
    assert_eq!(find_byte("aé", 2), None);
    assert_eq!(find_byte("aé", 3), Some(2));
    assert_eq!(find_byte("aé", 4), None);
    assert!(below_bytes("aé", 4));
    assert!(!below_bytes("aé", 3));
}

#[test]
fn numbers_in_decimal() {
    for n in [0u64, 7, 10, 99, 100, 65536, u64::MAX] {
        assert_eq!(to_decimal(n), n.to_string());
    }
    assert_eq!(wide_to_decimal(u128::MAX), u128::MAX.to_string());
    for n in [0i32, -1, 42, i32::MIN, i32::MAX] {
        assert_eq!(to_signed(n), n.to_string());
    }
    for s in ["", "+", "0", "007", "+5", "-5", " 5", "18446744073709551615", "18446744073709551616", "1_0", "٣"] {
        assert_eq!(parse_unsigned(s, u64::MAX), s.parse::<u64>().ok(), "{s}");
    }
    assert_eq!(parse_unsigned("256", 255), None);
}

#[test]
fn bytes_are_counted_by_character() {
    let s = "aé€😀z";
    for (k, (at, _)) in s.char_indices().enumerate() {
        assert_eq!(gaggle::text::bytes_before(s, k), at);
    }
    assert_eq!(gaggle::text::bytes_before(s, 5), s.len());
}
