//! A chunk of a document, and how it is shown.

use crate::metadata::{metadata_entries, Json};
use crate::order::{path_le, Ranked};
use crate::text::{chars_of, decimal, decimal_string, join, joined, law_joining, views};
use vstd::prelude::*;
use vstd::string::StringExecFns;

verus! {

/// Stored with an index; bump when chunking rules change so that an incremental
/// run re-embeds even if file bytes look the same.
pub const CHUNKER_VERSION: &'static str = "1";

/// A piece of a document, small enough to be embedded.
#[derive(Debug, Clone)]
pub struct Chunk {
    /// The path of the document.
    pub source_path: String,
    /// The position among the chunks of the document.
    pub chunk_index: usize,
    /// The text to embed, with the headings above it.
    pub text: String,
    /// The headings above the text, the outermost first.
    pub headings: Vec<String>,
    /// The front matter of the document.
    pub metadata: serde_json::Map<String, serde_json::Value>,
}

/// What a chunk says.
#[verifier::ext_equal]
pub struct ChunkView {
    /// The path of the document.
    pub source_path: Seq<char>,
    /// The position among the chunks of the document.
    pub chunk_index: nat,
    /// The text to embed.
    pub text: Seq<char>,
    /// The headings above the text.
    pub headings: Seq<Seq<char>>,
    /// The front matter of the document.
    pub metadata: Map<Seq<char>, Json>,
}

impl View for Chunk {
    type V = ChunkView;

    open spec fn view(&self) -> ChunkView {
        ChunkView {
            source_path: self.source_path@,
            chunk_index: self.chunk_index as nat,
            text: self.text@,
            headings: views(self.headings@),
            metadata: metadata_entries(self.metadata),
        }
    }
}

/// What each of the chunks says.
pub open spec fn chunk_views(chunks: Seq<Chunk>) -> Seq<ChunkView> {
    chunks.map_values(|c: Chunk| c@)
}

impl Ranked for Chunk {
    open spec fn rank(&self) -> (Seq<char>, nat) {
        (self.source_path@, self.chunk_index as nat)
    }

    fn leq(&self, other: &Self) -> (r: bool) {
        if self.source_path == other.source_path {
            self.chunk_index <= other.chunk_index
        } else {
            path_le(self.source_path.as_str(), other.source_path.as_str())
        }
    }
}

/// The headings as one line, the outermost first.
pub open spec fn breadcrumb(headings: Seq<Seq<char>>) -> Seq<char> {
    joined(headings, " > "@)
}

/// The headings above `c` as one line, or `(root)` where there are none.
pub fn heading_path(c: &Chunk) -> (r: String)
    ensures
        r@ == heading_path_of(c@),
{
    if c.headings.len() == 0 {
        "(root)".to_string()
    } else {
        join(&c.headings, " > ")
    }
}

/// What `heading_path` shows of a chunk.
pub open spec fn heading_path_of(c: ChunkView) -> Seq<char> {
    if c.headings.len() == 0 {
        "(root)"@
    } else {
        breadcrumb(c.headings)
    }
}

/// `s` with a space for each line feed.
pub open spec fn on_one_line(s: Seq<char>) -> Seq<char> {
    s.map_values(
        |c: char|
            if c == '\n' {
                ' '
            } else {
                c
            },
    )
}

/// The first `max_chars` characters of `text` on one line, with `...` where some
/// are left out.
pub open spec fn preview(text: Seq<char>, max_chars: nat) -> Seq<char> {
    if text.len() <= max_chars {
        on_one_line(text)
    } else {
        on_one_line(text.take(max_chars as int) + "..."@)
    }
}

/// Truncate for display. Characters are counted, not bytes, so no character is
/// cut in two.
pub fn truncate_preview(text: &str, max_chars: usize) -> (r: String)
    ensures
        r@ == preview(text@, max_chars as nat),
{
    let v = chars_of(text);
    let n = if v.len() <= max_chars {
        v.len()
    } else {
        max_chars
    };
    let mut r = String::new();
    let mut i: usize = 0;
    while i < n
        invariant
            i <= n <= v@.len(),
            r@ == on_one_line(v@.take(i as int)),
        decreases n - i,
    {
        let c = if v[i] == '\n' {
            ' '
        } else {
            v[i]
        };
        r.push(c);
        proof {
            assert(v@.take(i + 1) == v@.take(i as int).push(v@[i as int]));
            assert(on_one_line(v@.take(i + 1)) == on_one_line(v@.take(i as int)).push(c));
        }
        i += 1;
    }
    if max_chars < v.len() {
        r.append("...");
        proof {
            reveal_strlit("...");
            assert(r@ == on_one_line(v@.take(n as int) + "..."@));
        }
    } else {
        assert(v@.take(n as int) == v@);
    }
    r
}

/// The length of the text that `format_chunk_debug` shows.
pub const DEBUG_PREVIEW_CHARS: usize = 117;

/// One line about a chunk.
pub open spec fn debug_line(c: ChunkView) -> Seq<char> {
    "["@ + decimal(c.chunk_index) + "] "@ + heading_path_of(c) + " | "@ + preview(
        c.text,
        DEBUG_PREVIEW_CHARS as nat,
    )
}

/// One line about `c`: its position, its headings, and how its text begins.
pub fn format_chunk_debug(c: &Chunk) -> (r: String)
    ensures
        r@ == debug_line(c@),
{
    let mut r = "[".to_string();
    r.append(decimal_string(c.chunk_index).as_str());
    r.append("] ");
    r.append(heading_path(c).as_str());
    r.append(" | ");
    r.append(truncate_preview(c.text.as_str(), DEBUG_PREVIEW_CHARS).as_str());
    r
}

/// A preview is no longer than what was asked for and the three dots.
pub proof fn law_preview_is_short(text: Seq<char>, max_chars: nat)
    ensures
        preview(text, max_chars).len() <= max_chars + 3,
        text.len() > max_chars ==> preview(text, max_chars).len() == max_chars + 3,
{
    reveal_strlit("...");
}

/// A preview is one line.
pub proof fn law_preview_is_one_line(text: Seq<char>, max_chars: nat)
    ensures
        !preview(text, max_chars).contains('\n'),
{
    reveal_strlit("...");
}

/// A preview shows every character it has room for, at its place, but for line
/// feeds, which it shows as spaces.
pub proof fn law_preview_keeps_characters(text: Seq<char>, max_chars: nat, i: int)
    requires
        0 <= i < text.len(),
        i < max_chars,
    ensures
        text[i] != '\n' ==> preview(text, max_chars)[i] == text[i],
        text[i] == '\n' ==> preview(text, max_chars)[i] == ' ',
{
    reveal_strlit("...");
}

/// A chunk is taken for what its fields hold.
pub proof fn law_chunks_are_their_fields(chunks: Seq<Chunk>, i: int)
    requires
        0 <= i < chunks.len(),
    ensures
        chunk_views(chunks).len() == chunks.len(),
        chunk_views(chunks)[i].source_path == chunks[i].source_path@,
        chunk_views(chunks)[i].chunk_index == chunks[i].chunk_index,
        chunk_views(chunks)[i].text == chunks[i].text@,
        chunk_views(chunks)[i].headings == views(chunks[i].headings@),
        chunk_views(chunks)[i].metadata == metadata_entries(chunks[i].metadata),
{
}

/// A text that fits is shown whole; of a longer one all that fits, and then three
/// dots.
pub proof fn law_preview_marks_what_is_left_out(text: Seq<char>, max_chars: nat)
    ensures
        text.len() <= max_chars ==> preview(text, max_chars).len() == text.len(),
        text.len() > max_chars ==> preview(text, max_chars).skip(max_chars as int) == seq![
            '.',
            '.',
            '.',
        ],
{
    reveal_strlit("...");
    if text.len() > max_chars {
        assert(preview(text, max_chars).skip(max_chars as int) == seq!['.', '.', '.']);
    }
}

/// The headings are shown as a path: `(root)` where there are none, one by itself,
/// and each further one behind ` > `.
pub proof fn law_headings_are_shown_as_a_path(c: ChunkView, heading: Seq<char>)
    ensures
        heading_path_of((ChunkView { headings: seq![], ..c })) == seq!['(', 'r', 'o', 'o', 't', ')'],
        heading_path_of((ChunkView { headings: seq![heading], ..c })) == heading,
        c.headings.len() > 0 ==> heading_path_of(
            (ChunkView { headings: c.headings.push(heading), ..c }),
        ) == heading_path_of(c) + seq![' ', '>', ' '] + heading,
{
    reveal_strlit("(root)");
    reveal_strlit(" > ");
    assert("(root)"@ == seq!['(', 'r', 'o', 'o', 't', ')']);
    assert(" > "@ == seq![' ', '>', ' ']);
    law_joining(c.headings, heading, " > "@);
}

/// The line about a chunk shows its position in brackets, the path of its headings,
/// and behind a bar at most 117 characters of its text.
pub proof fn law_debug_line_shows_the_chunk(c: ChunkView)
    ensures
        debug_line(c) == seq!['['] + decimal(c.chunk_index) + seq![']', ' '] + heading_path_of(c)
            + seq![' ', '|', ' '] + preview(c.text, 117),
{
    reveal_strlit("[");
    reveal_strlit("] ");
    reveal_strlit(" | ");
    assert("["@ == seq!['[']);
    assert("] "@ == seq![']', ' ']);
    assert(" | "@ == seq![' ', '|', ' ']);
}

} // verus!
