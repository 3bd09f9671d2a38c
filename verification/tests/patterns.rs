//! The two patterns on every short text.

use context_index::pattern::{front_matter, heading};

/// Calls `f` on every text of at most `len` characters of `alphabet`, behind `head`.
fn every(head: &str, alphabet: &[char], len: usize, f: &dyn Fn(&str)) {
    f(head);
    if len > 0 {
        for c in alphabet {
            every(&format!("{head}{c}"), alphabet, len - 1, f);
        }
    }
}

fn expected_heading(line: &str) -> Option<(usize, String)> {
    let rest = line.trim_start_matches('#');
    let level = line.len() - rest.len();
    let gap = rest.chars().take_while(|c| c.is_whitespace()).count();
    let title = rest.trim();
    let found = (1..=6).contains(&level) && (if title.is_empty() { gap > 1 } else { gap > 0 });
    found.then_some((level, title.to_string()))
}

#[test]
fn headings_on_every_short_line() {
    let check = |line: &str| assert_eq!(heading(line), expected_heading(line), "{:?}", line);
    every("", &['#', ' ', '\r', 'a'], 5, &check);
    every("#", &['#', ' ', '\u{a0}', 'é'], 5, &check);
    every("#####", &['#', ' ', 'a'], 4, &check);
}

fn expected_front_matter(s: &str) -> Option<(usize, String)> {
    let body = s.strip_prefix("---\n").or_else(|| s.strip_prefix("---\r\n"))?;
    let (inner, rest) = body.split_once("\n---")?;
    let inner = inner.strip_suffix('\r').unwrap_or(inner);
    let rest = rest.strip_prefix('\r').unwrap_or(rest);
    let rest = rest.strip_prefix('\n').unwrap_or(rest);
    Some((s.chars().count() - rest.chars().count(), inner.to_string()))
}

#[test]
fn front_matter_on_every_short_text() {
    let check =
        |s: &str| assert_eq!(front_matter(s), expected_front_matter(s), "{:?}", s);
    every("", &['-', '\n', '\r', 'a'], 5, &check);
    every("---\n", &['-', '\n', '\r', 'é'], 6, &check);
    every("---\r\nb", &['-', '\n', '\r', 'a'], 5, &check);
    every("---\n\r\n---", &['-', '\n', '\r', 'a'], 3, &check);
}
