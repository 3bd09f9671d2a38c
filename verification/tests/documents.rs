//! Splitting documents into chunks.

use context_index::front_matter::parse_front_matter;
use context_index::markdown::split_markdown;
use context_index::oversize::split_oversized;
use context_index::pattern::{front_matter, heading};
use context_index::{format_chunk_debug, heading_path, Chunk, CHUNK_OVERLAP_CHARS, MAX_CHUNK_CHARS};
use serde_json::Value;

fn text(s: &str) -> Value {
    Value::String(s.to_string())
}

fn list(items: &[&str]) -> Value {
    Value::Array(items.iter().map(|s| text(s)).collect())
}

fn texts(chunks: &[Chunk]) -> Vec<&str> {
    chunks.iter().map(|c| c.text.as_str()).collect()
}

#[test]
fn headings_and_hierarchy() {
    let md = r#"---
name: example
---

# Backport Process

Intro paragraph about backports.

## Overview

When a bug fix targets the current release.

## Requirements by Bug Status

### NEW

No PR requirements.

### ASSIGNED

Required:
- Fix version set

## Branch Naming

Upstream repos use stable branches.
"#;
    let chunks = split_markdown("backport-process.md", md);
    assert_eq!(
        chunks.len(),
        5,
        "{:?}",
        chunks.iter().map(format_chunk_debug).collect::<Vec<_>>()
    );
    assert_eq!(chunks[0].headings, ["Backport Process"]);
    assert!(chunks[0].text.contains("Intro paragraph"));
    assert_eq!(
        chunks[2].headings,
        ["Backport Process", "Requirements by Bug Status", "NEW"]
    );
}

#[test]
fn front_matter_tags_extracted_to_metadata() {
    let md = r#"---
title: Test Document
tags:
  - backend
  - "storage"
category: guides
---

# Guide

Body content here.
"#;
    let chunks = split_markdown("test.md", md);
    assert_eq!(chunks.len(), 1);
    let tags = chunks[0].metadata.get("tags").expect("tags present");
    assert_eq!(tags, &list(&["backend", "storage"]));
    assert_eq!(chunks[0].metadata.get("category"), Some(&text("guides")));
}

#[test]
fn front_matter_inline_array_tags() {
    let md = r#"---
tags: [devops, infra, kubevirt]
---

# Title
Text.
"#;
    let chunks = split_markdown("x.md", md);
    assert_eq!(chunks.len(), 1);
    let tags = chunks[0].metadata.get("tags").unwrap();
    assert_eq!(tags, &list(&["devops", "infra", "kubevirt"]));
}

#[test]
fn empty_sections_skipped() {
    let md = "# Title\n\n## Empty\n\n## Has Content\n\nHello.\n";
    let chunks = split_markdown("x.md", md);
    assert_eq!(chunks.len(), 1);
    assert_eq!(chunks[0].headings, ["Title", "Has Content"]);
}

#[test]
fn oversized_section_is_split() {
    let long = "word ".repeat(400); // well over MAX_CHUNK_CHARS
    let md = format!("# Doc\n\n## Big\n\n{long}");
    let chunks = split_markdown("big.md", &md);
    assert!(chunks.len() > 1, "expected split, got {}", chunks.len());
    for c in &chunks {
        assert!(
            c.text.chars().count() <= MAX_CHUNK_CHARS + 50,
            "chunk too long: {}",
            c.text.chars().count()
        );
        assert!(c.text.contains("Doc > Big") || c.headings.contains(&"Big".into()));
    }
}

#[test]
fn whole_chunks_are_as_expected() {
    let md = "---\nname: n\n---\nBefore.\n\n# T\r\nOne\r\n\r\n## S\nTwo\n### U\nThree\n## V\nFour\n# W\nFive";
    let chunks = split_markdown("p/q.md", md);
    assert_eq!(
        texts(&chunks),
        [
            "Before.",
            "T\n\nOne",
            "T > S\n\nTwo",
            "T > S > U\n\nThree",
            "T > V\n\nFour",
            "W\n\nFive",
        ]
    );
    for (i, c) in chunks.iter().enumerate() {
        assert_eq!(c.chunk_index, i);
        assert_eq!(c.source_path, "p/q.md");
        assert_eq!(c.metadata.len(), 1);
        assert_eq!(c.metadata.get("name"), Some(&text("n")));
    }
    assert_eq!(heading_path(&chunks[0]), "(root)");
    assert_eq!(heading_path(&chunks[3]), "T > S > U");
    assert!(chunks[0].headings.is_empty());
}

#[test]
fn deep_headings_stay_in_the_body() {
    let chunks = split_markdown("x.md", "# T\n#### Deep\ntext\n###### Deeper\n#No heading\n####### seven\n");
    assert_eq!(
        texts(&chunks),
        ["T\n\n#### Deep\ntext\n###### Deeper\n#No heading\n####### seven"]
    );
}

#[test]
fn subsections_may_skip_a_level() {
    let chunks = split_markdown("x.md", "### Deep\na\n# Top\nb\n### Deep\nc\n");
    assert_eq!(texts(&chunks), ["Deep\n\na", "Top\n\nb", "Top > Deep\n\nc"]);
}

#[test]
fn documents_without_text_have_no_chunks() {
    assert!(split_markdown("x.md", "").is_empty());
    assert!(split_markdown("x.md", " \n\t\n").is_empty());
    assert!(split_markdown("x.md", "# Only\n## Headings\n").is_empty());
    assert!(split_markdown("x.md", "---\na: b\n---\n").is_empty());
}

#[test]
fn an_empty_heading_ends_the_one_before() {
    let chunks = split_markdown("x.md", "# T\n## S\na\n##  \nb\n## \nc\n");
    assert_eq!(texts(&chunks), ["T > S\n\na", "T\n\nb\n## \nc"]);
}

#[test]
fn heading_lines() {
    assert_eq!(heading("# Title"), Some((1, "Title".to_string())));
    assert_eq!(heading("###\t  A b \u{a0} "), Some((3, "A b".to_string())));
    assert_eq!(heading("###### six"), Some((6, "six".to_string())));
    assert_eq!(heading("####### seven"), None);
    assert_eq!(heading("#title"), None);
    assert_eq!(heading(" # title"), None);
    assert_eq!(heading("#"), None);
    assert_eq!(heading("# "), None);
    assert_eq!(heading("#  "), Some((1, String::new())));
    assert_eq!(heading("# # #"), Some((1, "# #".to_string())));
    assert_eq!(heading(""), None);
    assert_eq!(heading("plain"), None);
    assert_eq!(heading("## a\rb"), Some((2, "a\rb".to_string())));
}

#[test]
fn front_matter_blocks() {
    assert_eq!(front_matter("---\na\n---\nrest"), Some((10, "a".to_string())));
    assert_eq!(front_matter("---\r\na\r\n---\r\nrest"), Some((13, "a".to_string())));
    assert_eq!(front_matter("---\n\n---"), Some((8, String::new())));
    assert_eq!(front_matter("---\n---\n"), None);
    assert_eq!(front_matter("---\na\nb"), None);
    assert_eq!(front_matter("----\na\n---\n"), None);
    assert_eq!(front_matter("x---\na\n---\n"), None);
    assert_eq!(front_matter("---\né\n--- tail\n---\n"), Some((9, "é".to_string())));
    assert_eq!(front_matter("---\na\r\n---\r\r\n"), Some((11, "a".to_string())));
}

#[test]
fn front_matter_values() {
    let (meta, rest) = parse_front_matter(
        "---\n# comment\nname:  \"quoted\" \nsingle: 'x'\nurl: http://h/p\ncsv: a, 'b' ,, \"c\"\nempty: []\nitems:\n\n  - one\n  # note\n  -  \"two\"\n- 'three'\nno colon here\n- lost\nlast:\n---\nbody",
    );
    assert_eq!(rest, "body");
    assert_eq!(meta.get("name"), Some(&text("quoted")));
    assert_eq!(meta.get("single"), Some(&text("x")));
    assert_eq!(meta.get("url"), Some(&text("http://h/p")));
    assert_eq!(meta.get("csv"), Some(&list(&["a", "b", "c"])));
    assert_eq!(meta.get("empty"), Some(&list(&[])));
    assert_eq!(meta.get("items"), Some(&list(&["one", "two", "three"])));
    assert_eq!(meta.get("last"), Some(&list(&[])));
    assert_eq!(meta.len(), 7);
}

#[test]
fn later_entries_replace_earlier_ones() {
    let (meta, _) = parse_front_matter("---\na: 1\nb: 2\na: 3\n---\n");
    assert_eq!(meta.get("a"), Some(&text("3")));
    assert_eq!(meta.get("b"), Some(&text("2")));
    assert_eq!(meta.len(), 2);
}

#[test]
fn items_outside_a_list_are_names() {
    let (meta, _) = parse_front_matter("---\n- k: v\na: b\n- c: d\n---\n");
    assert_eq!(meta.get("- k"), Some(&text("v")));
    assert_eq!(meta.get("- c"), Some(&text("d")));
    assert_eq!(meta.get("a"), Some(&text("b")));
}

#[test]
fn documents_without_a_fence_are_kept() {
    let (meta, rest) = parse_front_matter("a: b\n---\n");
    assert!(meta.is_empty());
    assert_eq!(rest, "a: b\n---\n");
    let (meta, rest) = parse_front_matter("---\nnever closed\n");
    assert!(meta.is_empty());
    assert_eq!(rest, "---\nnever closed\n");
}

#[test]
fn windows_break_at_white_space_and_overlap() {
    let long = "word ".repeat(400);
    let body = long.trim();
    let chunks = split_markdown("big.md", &format!("# Doc\n\n## Big\n\n{long}"));
    assert_eq!(chunks.len(), 2);
    assert_eq!(chunks[0].text, format!("Doc > Big\n\n{}", &body[..1784]));
    assert_eq!(chunks[1].text, format!("Doc > Big\n\n{}", &body[1585..]));
    assert_eq!(chunks[1].chunk_index, 1);
    assert_eq!(chunks[1].headings, ["Doc", "Big"]);
}

#[test]
fn windows_of_a_single_word() {
    let body: String = ('a'..='z').cycle().take(2000).collect();
    let chunks = split_markdown("x.md", &body);
    assert_eq!(texts(&chunks), [&body[..1800], &body[1800 - CHUNK_OVERLAP_CHARS..]]);
}

#[test]
fn windows_beside_long_headings() {
    let title = "t".repeat(1700);
    let body = "y".repeat(300);
    let chunks = split_markdown("x.md", &format!("# {title}\n{body}\n"));
    assert_eq!(chunks.len(), 2);
    assert_eq!(chunks[0].text, format!("{title}\n\n{}", "y".repeat(200)));
    assert_eq!(chunks[1].text, format!("{title}\n\n{}", "y".repeat(166)));
}

#[test]
fn short_windows_follow_without_overlap() {
    // A window of 60 characters is shorter than the overlap of 66.
    let title = "t".repeat(1700);
    let body = format!("{} {}", "a".repeat(60), "b".repeat(199));
    let chunks = split_markdown("x.md", &format!("# {title}\n{body}\n"));
    assert_eq!(chunks.len(), 2);
    assert_eq!(chunks[0].text, format!("{title}\n\n{}", "a".repeat(60)));
    assert_eq!(chunks[1].text, format!("{title}\n\n{}", "b".repeat(199)));
}

#[test]
fn early_white_space_is_no_break() {
    let title = "t".repeat(1700);
    let body = format!("{} {}", "a".repeat(50), "b".repeat(200));
    let chunks = split_markdown("x.md", &format!("# {title}\n{body}\n"));
    assert_eq!(chunks[0].text, format!("{title}\n\n{} {}", "a".repeat(50), "b".repeat(149)));
    assert_eq!(chunks[1].text, format!("{title}\n\n{}", "b".repeat(117)));
}

#[test]
fn blank_windows_are_left_out() {
    let chunks = split_markdown("x.md", &format!("a{}b", " ".repeat(4000)));
    assert_eq!(texts(&chunks), ["a", "b"]);
    assert_eq!(chunks[1].chunk_index, 1);
}

#[test]
fn characters_are_counted_not_bytes() {
    let body = "é".repeat(1800);
    let chunks = split_markdown("x.md", &body);
    assert_eq!(texts(&chunks), [body.as_str()]);
    let longer = "é".repeat(1801);
    assert_eq!(split_markdown("x.md", &longer).len(), 2);
}

fn chunk(index: usize, text: &str, headings: &[&str]) -> Chunk {
    Chunk {
        source_path: "x.md".to_string(),
        chunk_index: index,
        text: text.to_string(),
        headings: headings.iter().map(|h| h.to_string()).collect(),
        metadata: serde_json::Map::new(),
    }
}

#[test]
fn short_chunks_are_only_numbered() {
    let out = split_oversized(vec![chunk(7, "one", &["H"]), chunk(7, "two", &[])]);
    assert_eq!(texts(&out), ["one", "two"]);
    assert_eq!(out[0].chunk_index, 0);
    assert_eq!(out[1].chunk_index, 1);
}

#[test]
fn a_chunk_without_its_prefix_is_cut_whole() {
    let body = "z".repeat(1900);
    let out = split_oversized(vec![chunk(0, &body, &["H"])]);
    assert_eq!(out.len(), 2);
    assert_eq!(out[0].text, format!("H\n\n{}", "z".repeat(1797)));
    assert_eq!(out[1].text, format!("H\n\n{}", "z".repeat(303)));
}

#[test]
fn a_long_prefix_without_a_body_is_kept() {
    let title = "t".repeat(1900);
    let whole = format!("{title}\n\n");
    let out = split_oversized(vec![chunk(3, &whole, &[&title])]);
    assert_eq!(texts(&out), [whole.as_str()]);
    assert_eq!(out[0].chunk_index, 0);
}

#[test]
fn splitting_again_changes_nothing() {
    let md = format!("# A\n{}\n## B\nshort\n", "lorem ipsum ".repeat(500));
    let once = split_markdown("x.md", &md);
    let twice = split_oversized(once.clone());
    assert_eq!(texts(&once), texts(&twice));
    assert!(once.iter().all(|c| c.text.chars().count() <= MAX_CHUNK_CHARS));
}

#[test]
fn every_word_is_in_some_chunk() {
    let words: Vec<String> = (0..1500).map(|i| format!("w{i}w")).collect();
    let chunks = split_markdown("x.md", &format!("# H\n{}\n", words.join(" ")));
    for w in &words {
        assert!(chunks.iter().any(|c| c.text.contains(w.as_str())), "{}", w);
    }
    assert!(chunks.iter().all(|c| c.text.starts_with("H\n\n")));
}

#[test]
fn the_path_is_only_a_label() {
    let md = "---\nk: v\n---\n# H\ntext\n";
    let a = split_markdown("a.md", md);
    let b = split_markdown("dir/b.md", md);
    assert_eq!(texts(&a), texts(&b));
    assert_eq!(a[0].metadata, b[0].metadata);
    assert_eq!(b[0].source_path, "dir/b.md");
}

#[test]
fn windows_line_ends_change_nothing() {
    for md in [
        "---\nname: n\ntags:\n  - a\n---\n\n# T\nOne\n\n## S\nTwo",
        "---\na: b\n---",
        "---\nnever closed\n",
        "---\n\n---x\n---\ntext\n",
        "# T\n\n\nbody\n",
        "\n",
        "",
    ] {
        let plain = split_markdown("x.md", md);
        let windows = split_markdown("x.md", &md.replace('\n', "\r\n"));
        assert_eq!(texts(&plain), texts(&windows), "{:?}", md);
        for (p, w) in plain.iter().zip(&windows) {
            assert_eq!(p.headings, w.headings);
            assert_eq!(p.metadata, w.metadata);
            assert_eq!(p.chunk_index, w.chunk_index);
        }
        let (meta, rest) = parse_front_matter(md);
        let (meta_w, rest_w) = parse_front_matter(&md.replace('\n', "\r\n"));
        assert_eq!(meta, meta_w);
        assert_eq!(rest.replace('\n', "\r\n"), rest_w);
    }
}
