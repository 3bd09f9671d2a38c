//! Text, its display, and the order of paths.

use context_index::order::{path_le, stable_sort};
use context_index::text::{chars_of, decimal_string, find_from, is_white_space, join, lines};
use context_index::text::{split, split_once, starts_with, string_of, trim, trim_bounds, CharClass};
use context_index::{format_chunk_debug, truncate_preview, Chunk, CHUNKER_VERSION};

#[test]
fn truncate_preview_handles_multibyte_at_cut() {
    // ✅ is 3 bytes; cutting at a byte index inside it used to panic.
    let s = format!("{}{}", "a".repeat(155), "✅ more text after emoji");
    let preview = truncate_preview(&s, 157);
    assert!(preview.ends_with("..."));
    assert!(!preview.contains('\u{FFFD}'));
    assert!(preview.chars().count() <= 160);
}

#[test]
fn previews_have_known_values() {
    assert_eq!(truncate_preview("ab\ncd", 5), "ab cd");
    assert_eq!(truncate_preview("ab\ncd", 4), "ab c...");
    assert_eq!(truncate_preview("ab\ncd", 3), "ab ...");
    assert_eq!(truncate_preview("✅✅", 1), "✅...");
    assert_eq!(truncate_preview("ab", 0), "...");
    assert_eq!(truncate_preview("", 0), "");
    assert_eq!(truncate_preview("a\r\nb", 9), "a\r b");
}

#[test]
fn debug_lines_have_known_values() {
    let mut c = Chunk {
        source_path: "x.md".to_string(),
        chunk_index: 12,
        text: "A > B\n\nbody".to_string(),
        headings: vec!["A".to_string(), "B".to_string()],
        metadata: serde_json::Map::new(),
    };
    assert_eq!(format_chunk_debug(&c), "[12] A > B | A > B  body");
    c.headings = vec![];
    c.chunk_index = 0;
    c.text = "t".repeat(118);
    assert_eq!(format_chunk_debug(&c), format!("[0] (root) | {}...", "t".repeat(117)));
    c.text = "t".repeat(117);
    assert_eq!(format_chunk_debug(&c), format!("[0] (root) | {}", "t".repeat(117)));
    assert_eq!(CHUNKER_VERSION, "1");
}

#[test]
fn white_space_is_that_of_unicode() {
    for n in 0..=0x10ffffu32 {
        if let Some(c) = char::from_u32(n) {
            assert_eq!(is_white_space(c), c.is_whitespace(), "{:x}", n);
        }
    }
}

#[test]
fn lines_are_those_of_std() {
    for s in ["", "\n", "a", "a\n", "a\r\n", "a\r", "\r\n\r\n", "a\n\nb", "a\rb\nc\r\r\nd", "é\n✅"] {
        assert_eq!(lines(s), s.lines().collect::<Vec<_>>(), "{:?}", s);
    }
}

#[test]
fn lines_make_up_the_text() {
    for s in ["", "\n", "a", "a\n", "\n\n", "a\n\nb", "a\rb\n\nc\n"] {
        let feed = if s.ends_with('\n') { "\n" } else { "" };
        assert_eq!(format!("{}{}", join(&lines(s), "\n"), feed), s);
    }
}

#[test]
fn trimming_is_that_of_std() {
    for s in ["", " ", "a", " a ", "\u{a0}a b\u{3000}\n", "\"\"a\"b\"", "[[x]]", "'"] {
        assert_eq!(trim(s, CharClass::WhiteSpace), s.trim());
        assert_eq!(trim(s, CharClass::Only('"')), s.trim_matches('"'));
        assert_eq!(trim(s, CharClass::Brackets), s.trim_matches(|c| c == '[' || c == ']'));
    }
    assert_eq!(trim_bounds(&[' ', 'a', ' '], CharClass::WhiteSpace), (1, 2));
}

#[test]
fn splitting_is_that_of_std() {
    for s in ["", ",", "a,b", ",a,,b,", "é,✅"] {
        assert_eq!(split(s, ','), s.split(',').collect::<Vec<_>>());
        let expected = s.split_once(',').map(|(a, b)| (a.to_string(), b.to_string()));
        assert_eq!(split_once(s, ','), expected);
    }
    assert_eq!(find_from(&['a', ',', 'b', ','], 2, ','), 3);
    assert_eq!(find_from(&['a', ','], 2, ','), 2);
}

#[test]
fn joining_is_that_of_std() {
    let words = vec!["a".to_string(), String::new(), "é".to_string()];
    assert_eq!(join(&words, " > "), words.join(" > "));
    assert_eq!(join(&words[..1].to_vec(), " > "), "a");
    assert_eq!(join(&vec![], " > "), "");
}

#[test]
fn characters_and_numbers() {
    assert_eq!(chars_of("aé✅"), ['a', 'é', '✅']);
    assert_eq!(string_of(&['a', 'é', '✅']), "aé✅");
    assert!(starts_with(&['a', 'b'], &['a']));
    assert!(starts_with(&['a'], &[]));
    assert!(!starts_with(&['a'], &['a', 'b']));
    for n in [0, 7, 10, 117, 1800, usize::MAX] {
        assert_eq!(decimal_string(n), n.to_string());
    }
}

#[test]
fn paths_are_ordered_like_strings() {
    let names = ["", "a", "a/b", "a.md", "Z", "é", "z", "ab", "✅", "a.md"];
    for a in names {
        for b in names {
            assert_eq!(path_le(a, b), a <= b, "{:?} {:?}", a, b);
        }
    }
    let list: Vec<String> = names.iter().map(|s| s.to_string()).collect();
    let mut expected = list.clone();
    expected.sort();
    assert_eq!(stable_sort(list), expected);
    assert_eq!(stable_sort(expected.clone()), expected);
}
