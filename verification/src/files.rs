//! Which files are collected, and what is collected of them.

use crate::chunk::{chunk_views, Chunk};
use crate::markdown::{document_chunks, split_markdown};
use crate::text::chars_of;
use vstd::prelude::*;

verus! {

/// A character with ASCII capitals in lower case.
pub open spec fn ascii_lower(c: char) -> char {
    if 'A' <= c <= 'Z' {
        (c as u8 + 32) as char
    } else {
        c
    }
}

/// A text with ASCII capitals in lower case.
pub open spec fn ascii_lowered(s: Seq<char>) -> Seq<char> {
    s.map_values(|c: char| ascii_lower(c))
}

/// Whether the extension is that of a Markdown file, in whatever case.
pub open spec fn markdown_extension(extension: Option<Seq<char>>) -> bool {
    match extension {
        Some(e) => ascii_lowered(e) == "md"@ || ascii_lowered(e) == "markdown"@,
        None => false,
    }
}

/// Whether a file or directory of this name, and all below it, stays out of the
/// index.
pub open spec fn ignored_name(name: Seq<char>) -> bool {
    name == ".git"@ || name == "node_modules"@ || name == "vendor"@ || name == "target"@
}

/// Whether a path with these components lies under a name that is ignored.
pub open spec fn ignored_path(components: Seq<String>) -> bool {
    exists|i: int| 0 <= i < components.len() && ignored_name((#[trigger] components[i])@)
}

/// A character with ASCII capitals in lower case.
fn lower(c: char) -> (r: char)
    ensures
        r == ascii_lower(c),
{
    if 'A' <= c && c <= 'Z' {
        (c as u8 + 32) as char
    } else {
        c
    }
}

/// Whether `s` is `word`, but for ASCII capitals.
fn is_lowered(s: &str, word: &str) -> (r: bool)
    ensures
        r == (ascii_lowered(s@) == word@),
{
    let a = chars_of(s);
    let b = chars_of(word);
    if a.len() != b.len() {
        return false;
    }
    let mut i: usize = 0;
    while i < a.len()
        invariant
            a@ == s@,
            b@ == word@,
            i <= a@.len() == b@.len(),
            forall|k: int| 0 <= k < i ==> ascii_lower(a@[k]) == #[trigger] b@[k],
        decreases a@.len() - i,
    {
        if lower(a[i]) != b[i] {
            proof {
                assert(ascii_lowered(s@)[i as int] != word@[i as int]);
            }
            return false;
        }
        i += 1;
    }
    assert(ascii_lowered(s@) == word@);
    true
}

/// Whether the extension is that of a Markdown file: `md` or `markdown`, in
/// whatever case.
pub fn is_markdown(extension: Option<&str>) -> (r: bool)
    ensures
        r == markdown_extension(
            match extension {
                Some(e) => Some(e@),
                None => None,
            },
        ),
{
    match extension {
        Some(e) => is_lowered(e, "md") || is_lowered(e, "markdown"),
        None => false,
    }
}

/// Whether a path with these components lies under `.git`, `node_modules`,
/// `vendor` or `target`, or is one of them.
pub fn is_ignored(components: &Vec<String>) -> (r: bool)
    ensures
        r == ignored_path(components@),
{
    let mut i: usize = 0;
    while i < components.len()
        invariant
            i <= components@.len(),
            forall|k: int| 0 <= k < i ==> !ignored_name((#[trigger] components@[k])@),
        decreases components@.len() - i,
    {
        let name = &components[i];
        if *name == ".git".to_string() || *name == "node_modules".to_string() || *name
            == "vendor".to_string() || *name == "target".to_string() {
            assert(ignored_name(components@[i as int]@));
            return true;
        }
        i += 1;
    }
    false
}

/// Whether a file that a walk comes upon is collected: it is a Markdown file, and
/// no part of its path is ignored.
pub fn is_collected(extension: Option<&str>, components: &Vec<String>) -> (r: bool)
    ensures
        r == (markdown_extension(
            match extension {
                Some(e) => Some(e@),
                None => None,
            },
        ) && !ignored_path(components@)),
{
    is_markdown(extension) && !is_ignored(components)
}

/// Add the chunks of a document to those of the documents before it.
pub fn add_document(chunks: &mut Vec<Chunk>, source_path: &str, content: &str)
    ensures
        chunk_views(final(chunks)@) == chunk_views(old(chunks)@) + document_chunks(
            source_path@,
            content@,
        ),
{
    let mut more = split_markdown(source_path, content);
    let ghost added = more@;
    chunks.append(&mut more);
    assert(chunk_views(old(chunks)@ + added) == chunk_views(old(chunks)@) + chunk_views(added));
}

/// The extensions of Markdown files are `md` and `markdown`, each letter small or
/// capital, and no others.
pub proof fn law_markdown_extensions(e: Seq<char>)
    ensures
        !markdown_extension(None),
        markdown_extension(Some(e)) <==> {
            ||| e.len() == 2 && (e[0] == 'm' || e[0] == 'M') && (e[1] == 'd' || e[1] == 'D')
            ||| {
                &&& e.len() == 8
                &&& e[0] == 'm' || e[0] == 'M'
                &&& e[1] == 'a' || e[1] == 'A'
                &&& e[2] == 'r' || e[2] == 'R'
                &&& e[3] == 'k' || e[3] == 'K'
                &&& e[4] == 'd' || e[4] == 'D'
                &&& e[5] == 'o' || e[5] == 'O'
                &&& e[6] == 'w' || e[6] == 'W'
                &&& e[7] == 'n' || e[7] == 'N'
            }
        },
{
    reveal_strlit("md");
    reveal_strlit("markdown");
    let low = ascii_lowered(e);
    assert(low.len() == e.len());
    if e.len() == 2 {
        assert(low[0] == ascii_lower(e[0]) && low[1] == ascii_lower(e[1]));
        if low[0] == 'm' && low[1] == 'd' {
            assert(low == "md"@);
        }
    }
    if e.len() == 8 {
        assert(low[0] == ascii_lower(e[0]) && low[1] == ascii_lower(e[1]));
        assert(low[2] == ascii_lower(e[2]) && low[3] == ascii_lower(e[3]));
        assert(low[4] == ascii_lower(e[4]) && low[5] == ascii_lower(e[5]));
        assert(low[6] == ascii_lower(e[6]) && low[7] == ascii_lower(e[7]));
        if low[0] == 'm' && low[1] == 'a' && low[2] == 'r' && low[3] == 'k' && low[4] == 'd'
            && low[5] == 'o' && low[6] == 'w' && low[7] == 'n' {
            assert(low == "markdown"@);
        }
    }
}

/// A path is ignored exactly if one of its components is `.git`, `node_modules`,
/// `vendor` or `target`.
pub proof fn law_ignored_names(components: Seq<String>)
    ensures
        ignored_path(components) <==> exists|i: int|
            0 <= i < components.len() && {
                ||| (#[trigger] components[i])@ == seq!['.', 'g', 'i', 't']
                ||| components[i]@ == seq!['n', 'o', 'd', 'e', '_', 'm', 'o', 'd', 'u', 'l', 'e', 's']
                ||| components[i]@ == seq!['v', 'e', 'n', 'd', 'o', 'r']
                ||| components[i]@ == seq!['t', 'a', 'r', 'g', 'e', 't']
            },
{
    reveal_strlit(".git");
    reveal_strlit("node_modules");
    reveal_strlit("vendor");
    reveal_strlit("target");
    assert(".git"@ == seq!['.', 'g', 'i', 't']);
    assert("node_modules"@ == seq!['n', 'o', 'd', 'e', '_', 'm', 'o', 'd', 'u', 'l', 'e', 's']);
    assert("vendor"@ == seq!['v', 'e', 'n', 'd', 'o', 'r']);
    assert("target"@ == seq!['t', 'a', 'r', 'g', 'e', 't']);
}

} // verus!
