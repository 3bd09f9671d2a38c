//! Hashes, groups and plans.

use context_index::files::{add_document, is_collected, is_ignored, is_markdown};
use context_index::hash::{hash_bytes, push_record, text_or, HASH_DOMAIN};
use context_index::{group_chunks_by_path, hash_chunks, plan_index, split_markdown};
use context_index::{Chunk, IndexPlan, StoredHashes};
use serde_json::Value;

fn chunk(path: &str, index: usize, text: &str) -> Chunk {
    Chunk {
        source_path: path.into(),
        chunk_index: index,
        text: text.into(),
        headings: vec![],
        metadata: serde_json::Map::new(),
    }
}

fn pairs(list: &[(&str, &str)]) -> Vec<(String, String)> {
    list.iter().map(|(p, h)| (p.to_string(), h.to_string())).collect()
}

fn stored(list: &[(&str, &str)]) -> StoredHashes {
    StoredHashes::from_pairs(pairs(list))
}

#[test]
fn content_hash_is_stable_and_changes_with_text() {
    let a = [chunk("a.md", 0, "hello")];
    let b = [chunk("a.md", 0, "hello")];
    let c = [chunk("a.md", 0, "hello!")];
    assert_eq!(hash_chunks(&a), hash_chunks(&b));
    assert_ne!(hash_chunks(&a), hash_chunks(&c));
}

#[test]
fn group_chunks_by_path_sorts() {
    let grouped = group_chunks_by_path(vec![
        chunk("b.md", 0, "b"),
        chunk("a.md", 1, "a1"),
        chunk("a.md", 0, "a0"),
    ]);
    assert_eq!(grouped.len(), 2);
    assert_eq!(grouped[0].0, "a.md");
    assert_eq!(grouped[0].1[0].chunk_index, 0);
    assert_eq!(grouped[0].1[1].chunk_index, 1);
    assert_eq!(grouped[1].0, "b.md");
}

#[test]
fn plan_skips_unchanged_embeds_changed_prunes_missing() {
    let incoming = vec![
        ("keep.md".into(), "hash-keep".into()),
        ("edit.md".into(), "hash-new".into()),
        ("new.md".into(), "hash-new-file".into()),
    ];
    let existing = StoredHashes::from_pairs(vec![
        ("keep.md".into(), "hash-keep".into()),
        ("edit.md".into(), "hash-old".into()),
        ("gone.md".into(), "hash-gone".into()),
    ]);
    let plan = plan_index(&incoming, &existing, true, false);
    assert_eq!(plan.skip, ["keep.md"]);
    assert_eq!(plan.embed, ["edit.md", "new.md"]);
    assert_eq!(plan.prune, ["gone.md"]);
}

#[test]
fn plan_update_does_not_prune() {
    let incoming = vec![("a.md".into(), "h".into())];
    let existing = StoredHashes::from_pairs(vec![
        ("a.md".into(), "h".into()),
        ("b.md".into(), "x".into()),
    ]);
    let plan = plan_index(&incoming, &existing, false, false);
    assert_eq!(plan.skip, ["a.md"]);
    assert!(plan.embed.is_empty());
    assert!(plan.prune.is_empty());
}

#[test]
fn plan_full_reembeds_even_when_hash_matches() {
    let incoming = vec![("a.md".into(), "h".into())];
    let existing = StoredHashes::from_pairs(vec![("a.md".into(), "h".into())]);
    let plan = plan_index(&incoming, &existing, true, true);
    assert!(plan.skip.is_empty());
    assert_eq!(plan.embed, ["a.md"]);
}

#[test]
fn hashes_have_known_values() {
    assert_eq!(
        hash_chunks(&[]),
        "283e121123be43631467eadd1c40bd2cdfbb7e1bc89547b42128641b2b314a7c"
    );
    assert_eq!(
        hash_chunks(&[chunk("a.md", 0, "hello")]),
        "a0acdc24bf3647068d2b2ab8075b7b58ad210f29f6592afcdc07f9f5849aa015"
    );
    let mut metadata = serde_json::Map::new();
    metadata.insert("title".to_string(), Value::String("T".to_string()));
    metadata.insert(
        "tags".to_string(),
        Value::Array(vec![Value::String("x".to_string()), Value::String("y".to_string())]),
    );
    let first = Chunk {
        headings: vec!["Guide".to_string()],
        metadata,
        ..chunk("a.md", 0, "Guide\n\né")
    };
    let second = Chunk {
        headings: vec!["a \"q\"".to_string(), "c".to_string()],
        ..chunk("a.md", 1, "b")
    };
    assert_eq!(
        hash_chunks(&[first, second]),
        "f476d6b14367c211a8930b1de01de03c993188248e505207fe7b80541526a828"
    );
}

#[test]
fn hash_depends_on_every_part() {
    let base = hash_chunks(&[chunk("a.md", 0, "x")]);
    assert_ne!(hash_chunks(&[chunk("a.md", 1, "x")]), base);
    let headed = Chunk { headings: vec!["H".to_string()], ..chunk("a.md", 0, "x") };
    assert_ne!(hash_chunks(&[headed]), base);
    let mut tagged = chunk("a.md", 0, "x");
    tagged.metadata.insert("k".to_string(), Value::Bool(true));
    assert_ne!(hash_chunks(&[tagged]), base);
    assert_eq!(hash_chunks(&[chunk("b.md", 0, "x")]), base);
    assert_ne!(hash_chunks(&[chunk("a.md", 0, "x"), chunk("a.md", 1, "")]), base);
}

#[test]
fn hash_survives_a_move_and_follows_the_content() {
    let md = "---\nk: v\n---\n# H\ntext\n";
    let here = hash_chunks(&split_markdown("a.md", md));
    assert_eq!(here, hash_chunks(&split_markdown("b/c.md", md)));
    assert_ne!(here, hash_chunks(&split_markdown("a.md", "---\nk: w\n---\n# H\ntext\n")));
    assert_ne!(here, hash_chunks(&split_markdown("a.md", "---\nk: v\n---\n# H\ntexts\n")));
}

#[test]
fn records_are_framed_by_their_lengths() {
    let mut buf = vec![9u8];
    push_record(&mut buf, 258, "é", "[]", "{}");
    assert_eq!(
        buf,
        [
            9, 2, 1, 0, 0, 0, 0, 0, 0, 2, 0, 0, 0, 0, 0, 0, 0, 0xc3, 0xa9, 2, 0, 0, 0, 0, 0, 0, 0,
            b'[', b']', 2, 0, 0, 0, 0, 0, 0, 0, b'{', b'}'
        ]
    );
    let (mut a, mut b) = (Vec::new(), Vec::new());
    push_record(&mut a, 0, "ab", "c", "");
    push_record(&mut b, 0, "a", "bc", "");
    assert_ne!(a, b);
    assert_eq!(HASH_DOMAIN.as_bytes(), b"context-server-file-v1\0");
    let mut whole = HASH_DOMAIN.as_bytes().to_vec();
    push_record(&mut whole, 0, "x", "[]", "{}");
    push_record(&mut whole, 1, "y", "[\"H\"]", "{\"k\":\"v\"}");
    let mut second = chunk("a.md", 1, "y");
    second.headings.push("H".to_string());
    second.metadata.insert("k".to_string(), Value::String("v".to_string()));
    assert_eq!(hash_bytes(&[chunk("a.md", 0, "x"), second]), whole);
}

#[test]
fn failed_serialization_has_a_stand_in() {
    assert_eq!(text_or(Ok("[1]".to_string()), "[]"), "[1]");
    let error = serde_json::from_str::<Value>("{").unwrap_err();
    assert_eq!(text_or(Err(error), "{}"), "{}");
}

#[test]
fn groups_are_stable_and_in_byte_order() {
    let grouped = group_chunks_by_path(vec![
        chunk("é.md", 0, "1"),
        chunk("a.md", 2, "2"),
        chunk("Z.md", 0, "3"),
        chunk("a.md", 0, "4"),
        chunk("a.md", 2, "5"),
        chunk("a/b.md", 0, "6"),
        chunk("a.md", 2, "7"),
        chunk("z.md", 0, "8"),
    ]);
    let seen: Vec<(&str, Vec<&str>)> = grouped
        .iter()
        .map(|(p, cs)| (p.as_str(), cs.iter().map(|c| c.text.as_str()).collect()))
        .collect();
    assert_eq!(
        seen,
        [
            ("Z.md", vec!["3"]),
            ("a.md", vec!["4", "2", "5", "7"]),
            ("a/b.md", vec!["6"]),
            ("z.md", vec!["8"]),
            ("é.md", vec!["1"]),
        ]
    );
    assert!(group_chunks_by_path(vec![]).is_empty());
}

#[test]
fn a_group_is_its_document() {
    let (a, b) = ("# A\none\n## B\ntwo\n", "three\n");
    let mut chunks = Vec::new();
    add_document(&mut chunks, "z.md", a);
    add_document(&mut chunks, "y.md", b);
    let grouped = group_chunks_by_path(chunks);
    assert_eq!(grouped.len(), 2);
    assert_eq!(grouped[0].0, "y.md");
    assert_eq!(hash_chunks(&grouped[0].1), hash_chunks(&split_markdown("y.md", b)));
    assert_eq!(grouped[1].0, "z.md");
    assert_eq!(hash_chunks(&grouped[1].1), hash_chunks(&split_markdown("z.md", a)));
    assert_eq!(grouped[1].1[1].text, "A > B\n\ntwo");
}

#[test]
fn plans_are_sorted_and_keep_repeats() {
    let incoming = pairs(&[("b", "1"), ("é", "1"), ("a", "2"), ("b", "1"), ("B", "3"), ("a", "1")]);
    let existing = stored(&[("b", "1"), ("a", "1"), ("y", ""), ("x", "9"), ("X", "9")]);
    let plan = plan_index(&incoming, &existing, true, false);
    assert_eq!(plan.skip, ["a", "b", "b"]);
    assert_eq!(plan.embed, ["B", "a", "é"]);
    assert_eq!(plan.prune, ["X", "x", "y"]);
}

#[test]
fn an_empty_stored_hash_is_not_a_match() {
    let existing = stored(&[("a", "")]);
    let plan = plan_index(&pairs(&[("a", "h")]), &existing, true, false);
    assert_eq!(plan.embed, ["a"]);
    assert!(plan.skip.is_empty() && plan.prune.is_empty());
}

#[test]
fn nothing_in_prunes_everything() {
    let plan = plan_index(&[], &stored(&[("b", "1"), ("a", "2")]), true, false);
    assert_eq!(
        plan,
        IndexPlan { prune: vec!["a".to_string(), "b".to_string()], ..IndexPlan::default() }
    );
}

#[test]
fn a_second_run_does_nothing() {
    let incoming = pairs(&[("a", "1"), ("b", "2")]);
    let first = plan_index(&incoming, &stored(&[("a", "0"), ("c", "3")]), true, false);
    assert_eq!(first.embed, ["a", "b"]);
    assert_eq!(first.prune, ["c"]);
    let second = plan_index(&incoming, &StoredHashes::from_pairs(incoming.clone()), true, false);
    assert_eq!(second.skip, ["a", "b"]);
    assert!(second.embed.is_empty() && second.prune.is_empty());
}

#[test]
fn later_hashes_replace_earlier_ones() {
    let existing = stored(&[("a", "1"), ("b", "1"), ("a", "2")]);
    assert!(existing.holds("a", &"2".to_string()));
    assert!(!existing.holds("a", &"1".to_string()));
    assert!(!existing.holds("c", &"1".to_string()));
    let mut paths = existing.paths().clone();
    paths.sort();
    assert_eq!(paths, ["a", "b"]);
}

#[test]
fn markdown_files_by_extension() {
    for e in ["md", "MD", "mD", "markdown", "Markdown", "MARKDOWN"] {
        assert!(is_markdown(Some(e)), "{}", e);
    }
    for e in ["", "m", "mdx", "markdow", "txt", "mark down", "ｍｄ"] {
        assert!(!is_markdown(Some(e)), "{}", e);
    }
    assert!(!is_markdown(None));
}

#[test]
fn ignored_directories() {
    let parts = |s: &str| s.split('/').map(|p| p.to_string()).collect::<Vec<String>>();
    for p in [".git/a.md", "x/node_modules/y/a.md", "vendor", "a/target/b.md"] {
        assert!(is_ignored(&parts(p)), "{}", p);
        assert!(!is_collected(Some("md"), &parts(p)));
    }
    for p in ["a.md", "targets/a.md", "x/git/a.md", "Vendor/a.md", ""] {
        assert!(!is_ignored(&parts(p)), "{}", p);
        assert!(is_collected(Some("md"), &parts(p)));
        assert!(!is_collected(Some("txt"), &parts(p)));
    }
}

#[test]
fn other_chunks_have_another_hash() {
    let headed = |index: usize, text: &str, headings: &[&str]| Chunk {
        headings: headings.iter().map(|h| h.to_string()).collect(),
        ..chunk("a.md", index, text)
    };
    let mut tagged = headed(0, "ab", &["c"]);
    tagged.metadata.insert("c".to_string(), Value::String("d".to_string()));
    let with = |key: &str, value: Value| {
        let mut c = headed(0, "ab", &["c"]);
        c.metadata.insert(key.to_string(), value);
        vec![c]
    };
    let files = [
        vec![],
        with("k", Value::Null),
        with("k", Value::Bool(true)),
        with("k", Value::from(1)),
        with("k", Value::String("1".to_string())),
        with("k", Value::String("1\",\"l\":\"2".to_string())),
        with("k", Value::Array(vec![Value::from(1)])),
        with("k", Value::Array(vec![])),
        with("k", Value::Object(serde_json::Map::new())),
        with("k\n", Value::Null),
        with("k\\n", Value::Null),
        vec![headed(0, "ab", &["c"])],
        vec![headed(0, "a", &["bc"])],
        vec![headed(0, "ab", &["c", ""])],
        vec![headed(0, "ab", &["c\",\""])],
        vec![headed(0, "abc", &[])],
        vec![tagged],
        vec![headed(0, "a", &[]), headed(1, "b", &[])],
        vec![headed(1, "b", &[]), headed(0, "a", &[])],
        vec![headed(0, "b", &[]), headed(1, "a", &[])],
        vec![headed(0, "ab", &[]), headed(1, "", &[])],
    ];
    for (i, a) in files.iter().enumerate() {
        for (j, b) in files.iter().enumerate() {
            assert_eq!(hash_chunks(a) == hash_chunks(b), i == j, "{} {}", i, j);
            assert_eq!(hash_bytes(a) == hash_bytes(b), i == j, "{} {}", i, j);
        }
    }
}
