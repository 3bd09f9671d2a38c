//! Markdown documents as chunks, one or more for each section.

use crate::chunk::{chunk_views, Chunk, ChunkView};
use crate::front_matter::{document_parts, law_front_matter_is_cut_off};
use crate::front_matter::{law_parts_with_windows_line_ends, parse_front_matter, stripped};
use crate::metadata::{metadata_entries, Json};
use crate::oversize::{all_pieces, chunk_body, chunk_windows, heading_prefix};
use crate::oversize::{law_no_text_is_lost, law_pieces_are_not_blank, law_pieces_are_short};
use crate::oversize::{law_pieces_keep_the_prefix, law_pieces_keep_the_rest};
use crate::oversize::{lemma_piece_has_place, lemma_piece_has_source, pieces, prefix_of, resized};
use crate::oversize::{split_oversized, MAX_CHUNK_CHARS, MIN_WINDOW_CHARS};
use crate::pattern::{heading, heading_of};
use crate::text::{begins_with, join, joined, law_lines_are_without_returns, lemma_joined_place};
use crate::text::{lemma_span, lemma_trimmed, lines, lines_of, span, trim, views, white_space};
use crate::text::{with_returns, without_return, CharClass};
use vstd::prelude::*;
use vstd::string::StringExecFns;

verus! {

/// The headings that hold at some place of a document.
pub struct Outline {
    /// The heading of the first level.
    pub title: String,
    /// The heading of the second level.
    pub section: String,
    /// The heading of the third level.
    pub subsection: String,
}

/// The headings that hold at some place of a document; those that are empty are
/// missing.
#[verifier::ext_equal]
pub struct OutlineView {
    /// The heading of the first level.
    pub title: Seq<char>,
    /// The heading of the second level.
    pub section: Seq<char>,
    /// The heading of the third level.
    pub subsection: Seq<char>,
}

impl View for Outline {
    type V = OutlineView;

    open spec fn view(&self) -> OutlineView {
        OutlineView {
            title: self.title@,
            section: self.section@,
            subsection: self.subsection@,
        }
    }
}

/// The outline before the first heading.
pub open spec fn no_outline() -> OutlineView {
    OutlineView { title: seq![], section: seq![], subsection: seq![] }
}

impl OutlineView {
    /// The headings that are there, the outermost first.
    pub open spec fn headings(self) -> Seq<Seq<char>> {
        seq![self.title, self.section, self.subsection].filter(|h: Seq<char>| h.len() > 0)
    }

    /// The outline behind a heading: it replaces the one of its level and ends
    /// those below.
    pub open spec fn entered(self, level: nat, title: Seq<char>) -> OutlineView {
        if level <= 1 {
            OutlineView { title, section: seq![], subsection: seq![] }
        } else if level == 2 {
            OutlineView { section: title, subsection: seq![], ..self }
        } else {
            OutlineView { subsection: title, ..self }
        }
    }
}

/// The deepest level of headings that begin a section.
pub const SECTION_LEVELS: usize = 3;

/// The heading that begins a section, if `line` is one.
pub open spec fn section_heading(line: Seq<char>) -> Option<(nat, Seq<char>)> {
    match heading_of(line) {
        Some((level, title)) if level <= SECTION_LEVELS => Some((level, title)),
        _ => None,
    }
}

/// A section: the lines under an outline, up to the next heading.
#[verifier::ext_equal]
pub struct Section {
    /// The headings above the lines.
    pub outline: OutlineView,
    /// The lines.
    pub body: Seq<Seq<char>>,
}

/// The sections of a document of which `lines` are still to come, when `body` has
/// been read under `outline`.
pub open spec fn sections_from(
    outline: OutlineView,
    body: Seq<Seq<char>>,
    lines: Seq<Seq<char>>,
) -> Seq<Section>
    decreases lines.len(),
{
    if lines.len() == 0 {
        seq![Section { outline, body }]
    } else {
        match section_heading(lines[0]) {
            Some((level, title)) => seq![Section { outline, body }] + sections_from(
                outline.entered(level, title),
                seq![],
                lines.drop_first(),
            ),
            None => sections_from(outline, body.push(lines[0]), lines.drop_first()),
        }
    }
}

/// The sections of a document.
pub open spec fn sections(lines: Seq<Seq<char>>) -> Seq<Section> {
    sections_from(no_outline(), seq![], lines)
}

/// The text of a section.
pub open spec fn section_text(section: Section) -> Seq<char> {
    stripped(joined(section.body, "\n"@))
}

/// The chunk of a section.
pub open spec fn section_chunk(
    source_path: Seq<char>,
    metadata: Map<Seq<char>, Json>,
    index: nat,
    section: Section,
) -> ChunkView {
    ChunkView {
        source_path,
        chunk_index: index,
        text: heading_prefix(section.outline.headings()) + section_text(section),
        headings: section.outline.headings(),
        metadata,
    }
}

/// The chunks of the sections that have a text.
pub open spec fn section_chunks(
    source_path: Seq<char>,
    metadata: Map<Seq<char>, Json>,
    sections: Seq<Section>,
) -> Seq<ChunkView>
    decreases sections.len(),
{
    if sections.len() == 0 {
        seq![]
    } else {
        let before = section_chunks(source_path, metadata, sections.drop_last());
        if section_text(sections.last()).len() == 0 {
            before
        } else {
            before.push(section_chunk(source_path, metadata, before.len(), sections.last()))
        }
    }
}

/// The chunks of a document.
pub open spec fn document_chunks(source_path: Seq<char>, content: Seq<char>) -> Seq<ChunkView> {
    let (metadata, text) = document_parts(content);
    resized(section_chunks(source_path, metadata, sections(lines_of(text))))
}

/// A line holds no line feed.
pub proof fn lemma_lines_are_single(s: Seq<char>)
    ensures
        forall|i: int|
            0 <= i < lines_of(s).len() ==> !(#[trigger] lines_of(s)[i]).contains('\n'),
    decreases s.len(),
{
    if s.len() > 0 {
        let class = CharClass::Except('\n');
        let n = span(s, class) as int;
        lemma_span(s, class);
        let all = lines_of(s);
        if n < s.len() {
            let rest = lines_of(s.skip(n + 1));
            lemma_lines_are_single(s.skip(n + 1));
            let first = without_return(s.take(n));
            assert(all == seq![first] + rest);
            assert(!first.contains('\n')) by {
                assert forall|k: int| 0 <= k < first.len() implies first[k] != '\n' by {
                    assert(first[k] == s[k]);
                }
            }
            assert forall|i: int| 0 <= i < all.len() implies !(#[trigger] all[i]).contains(
                '\n',
            ) by {
                if i > 0 {
                    assert(all[i] == rest[i - 1]);
                }
            }
        } else {
            assert(all == seq![s]);
            assert(!s.contains('\n'));
        }
    }
}

/// The headings of an outline that are there.
fn headings_of(outline: &Outline) -> (r: Vec<String>)
    ensures
        views(r@) == outline@.headings(),
{
    let mut r: Vec<String> = Vec::new();
    let ghost p = |h: Seq<char>| h.len() > 0;
    let ghost all = seq![outline.title@, outline.section@, outline.subsection@];
    proof {
        reveal_with_fuel(Seq::filter, 4);
        assert(all.drop_last() == seq![outline.title@, outline.section@]);
        assert(all.drop_last().drop_last() == seq![outline.title@]);
        assert(all.drop_last().drop_last().drop_last() == Seq::<Seq<char>>::empty());
        assert(views(r@) == Seq::<Seq<char>>::empty());
    }
    if !outline.title.as_str().is_empty() {
        r.push(outline.title.clone());
    }
    assert(views(r@) == all.drop_last().drop_last().filter(p));
    let ghost first = r@;
    if !outline.section.as_str().is_empty() {
        r.push(outline.section.clone());
        assert(views(r@) == views(first).push(outline.section@));
    }
    assert(views(r@) == all.drop_last().filter(p));
    let ghost second = r@;
    if !outline.subsection.as_str().is_empty() {
        r.push(outline.subsection.clone());
        assert(views(r@) == views(second).push(outline.subsection@));
    }
    r
}

/// Add the chunk of the section that has been read, unless it has no text.
fn emit(
    chunks: &mut Vec<Chunk>,
    source_path: &str,
    metadata: &serde_json::Map<String, serde_json::Value>,
    outline: &Outline,
    body: &Vec<String>,
    Ghost(done): Ghost<Seq<Section>>,
)
    requires
        chunk_views(old(chunks)@) == section_chunks(
            source_path@,
            metadata_entries(*metadata),
            done,
        ),
    ensures
        chunk_views(final(chunks)@) == section_chunks(
            source_path@,
            metadata_entries(*metadata),
            done.push((Section { outline: outline@, body: views(body@) })),
        ),
{
    let text = trim(join(body, "\n").as_str(), CharClass::WhiteSpace);
    let ghost section = Section { outline: outline@, body: views(body@) };
    let ghost before = chunks@;
    proof {
        assert(done.push(section).drop_last() == done);
        assert(text@ == section_text(section));
    }
    if text.as_str().is_empty() {
        return ;
    }
    let headings = headings_of(outline);
    let mut prefixed = prefix_of(&headings);
    prefixed.append(text.as_str());
    let chunk = Chunk {
        source_path: source_path.to_string(),
        chunk_index: chunks.len(),
        text: prefixed,
        headings,
        metadata: metadata.clone(),
    };
    chunks.push(chunk);
    proof {
        assert(before.len() == chunk_views(before).len());
        assert(chunk_views(chunks@) == chunk_views(before).push(chunk@));
    }
}

/// Split markdown into chunks at headings of the first three levels.
pub fn split_markdown(source_path: &str, content: &str) -> (r: Vec<Chunk>)
    ensures
        chunk_views(r@) == document_chunks(source_path@, content@),
{
    let (metadata, text) = parse_front_matter(content);
    let all = lines(text.as_str());
    let ghost every = views(all@);
    let ghost mut done: Seq<Section> = seq![];
    let mut outline = Outline {
        title: String::new(),
        section: String::new(),
        subsection: String::new(),
    };
    let mut body: Vec<String> = Vec::new();
    let mut chunks: Vec<Chunk> = Vec::new();
    let mut i: usize = 0;
    proof {
        lemma_lines_are_single(text@);
        assert(every.skip(0) == every);
        assert(views(body@) == Seq::<Seq<char>>::empty());
        assert(outline@ == no_outline());
        assert(done + sections(every) == sections(every));
        assert(chunk_views(chunks@) == Seq::<ChunkView>::empty());
    }
    while i < all.len()
        invariant
            i <= all@.len(),
            every == views(all@),
            every == lines_of(text@),
            forall|k: int| 0 <= k < every.len() ==> !(#[trigger] every[k]).contains('\n'),
            sections(every) == done + sections_from(
                outline@,
                views(body@),
                every.skip(i as int),
            ),
            chunk_views(chunks@) == section_chunks(source_path@, metadata_entries(metadata), done),
        decreases all@.len() - i,
    {
        let line = &all[i];
        proof {
            assert(every[i as int] == line@);
            assert(every.skip(i as int)[0] == line@);
            assert(every.skip(i as int).drop_first() == every.skip(i + 1));
        }
        let found = heading(line.as_str());
        match found {
            Some((level, title)) if level <= SECTION_LEVELS => {
                emit(&mut chunks, source_path, &metadata, &outline, &body, Ghost(done));
                let ghost section = Section { outline: outline@, body: views(body@) };
                let ghost later = sections_from(
                    outline@.entered(level as nat, title@),
                    seq![],
                    every.skip(i + 1),
                );
                proof {
                    assert(done + (seq![section] + later) == done.push(section) + later);
                    done = done.push(section);
                }
                body = Vec::new();
                let ghost entered = outline@.entered(level as nat, title@);
                if level <= 1 {
                    outline = Outline {
                        title,
                        section: String::new(),
                        subsection: String::new(),
                    };
                } else if level == 2 {
                    outline = Outline {
                        title: outline.title,
                        section: title,
                        subsection: String::new(),
                    };
                } else {
                    outline = Outline {
                        title: outline.title,
                        section: outline.section,
                        subsection: title,
                    };
                }
                proof {
                    assert(views(body@) == Seq::<Seq<char>>::empty());
                    assert(outline@ == entered);
                }
            },
            _ => {
                let ghost before = body@;
                body.push(line.clone());
                assert(views(body@) == views(before).push(line@));
            },
        }
        i += 1;
    }
    emit(&mut chunks, source_path, &metadata, &outline, &body, Ghost(done));
    proof {
        let section = Section { outline: outline@, body: views(body@) };
        assert(every.skip(i as int) == Seq::<Seq<char>>::empty());
        assert(done + seq![section] == done.push(section));
    }
    split_oversized(chunks)
}

/// The lines of all the sections, in a row.
pub open spec fn section_lines(sections: Seq<Section>) -> Seq<Seq<char>>
    decreases sections.len(),
{
    if sections.len() == 0 {
        seq![]
    } else {
        sections[0].body + section_lines(sections.drop_first())
    }
}

/// The lines of a section and of those behind it.
proof fn lemma_section_lines_first(section: Section, later: Seq<Section>)
    ensures
        section_lines(seq![section] + later) == section.body + section_lines(later),
{
    assert((seq![section] + later).drop_first() == later);
}

/// A first line is kept if it begins no section.
proof fn lemma_plain_lines_first(line: Seq<char>, rest: Seq<Seq<char>>)
    ensures
        (seq![line] + rest).filter(|line: Seq<char>| section_heading(line) is None) == (
        if section_heading(line) is None {
            seq![line]
        } else {
            Seq::empty()
        }) + rest.filter(|line: Seq<char>| section_heading(line) is None),
{
    let plain = |line: Seq<char>| section_heading(line) is None;
    Seq::filter_distributes_over_add(seq![line], rest, plain);
    reveal_with_fuel(Seq::filter, 2);
    assert(seq![line].drop_last() == Seq::<Seq<char>>::empty());
}

proof fn lemma_section_lines(outline: OutlineView, body: Seq<Seq<char>>, lines: Seq<Seq<char>>)
    ensures
        section_lines(sections_from(outline, body, lines)) == body + lines.filter(
            |line: Seq<char>| section_heading(line) is None,
        ),
    decreases lines.len(),
{
    let plain = |line: Seq<char>| section_heading(line) is None;
    let one = Section { outline, body };
    if lines.len() == 0 {
        reveal(Seq::filter);
        lemma_section_lines_first(one, seq![]);
        assert(seq![one] + Seq::<Section>::empty() == seq![one]);
        assert(body + lines.filter(plain) == body + Seq::<Seq<char>>::empty());
    } else {
        let rest = lines.drop_first();
        assert(lines == seq![lines[0]] + rest);
        lemma_plain_lines_first(lines[0], rest);
        let kept = rest.filter(plain);
        match section_heading(lines[0]) {
            Some((level, title)) => {
                let next = outline.entered(level, title);
                lemma_section_lines(next, seq![], rest);
                lemma_section_lines_first(one, sections_from(next, seq![], rest));
                assert(Seq::<Seq<char>>::empty() + kept == kept);
            },
            None => {
                lemma_section_lines(outline, body.push(lines[0]), rest);
                assert(body.push(lines[0]) + kept == body + (seq![lines[0]] + kept));
            },
        }
    }
}

/// No line is lost and none is made up: the lines of the sections are the lines of
/// the document, in their order, but for the headings that begin a section.
pub proof fn law_sections_keep_every_line(lines: Seq<Seq<char>>)
    ensures
        section_lines(sections(lines)) == lines.filter(
            |line: Seq<char>| section_heading(line) is None,
        ),
{
    lemma_section_lines(no_outline(), seq![], lines);
    assert(section_lines(sections(lines)) == lines.filter(
        |line: Seq<char>| section_heading(line) is None,
    ));
}

/// Every chunk of the sections is that of a section, in its position.
proof fn lemma_chunk_has_section(
    source_path: Seq<char>,
    metadata: Map<Seq<char>, Json>,
    sections: Seq<Section>,
    i: int,
) -> (k: int)
    requires
        0 <= i < section_chunks(source_path, metadata, sections).len(),
    ensures
        0 <= k < sections.len(),
        section_text(sections[k]).len() > 0,
        section_chunks(source_path, metadata, sections)[i] == section_chunk(
            source_path,
            metadata,
            i as nat,
            sections[k],
        ),
    decreases sections.len(),
{
    let init = sections.drop_last();
    if i < section_chunks(source_path, metadata, init).len() {
        lemma_chunk_has_section(source_path, metadata, init, i)
    } else {
        sections.len() - 1
    }
}

/// Every section that has a text has its chunk.
proof fn lemma_section_has_chunk(
    source_path: Seq<char>,
    metadata: Map<Seq<char>, Json>,
    sections: Seq<Section>,
    k: int,
) -> (i: int)
    requires
        0 <= k < sections.len(),
        section_text(sections[k]).len() > 0,
    ensures
        0 <= i < section_chunks(source_path, metadata, sections).len(),
        section_chunks(source_path, metadata, sections)[i] == section_chunk(
            source_path,
            metadata,
            i as nat,
            sections[k],
        ),
    decreases sections.len(),
{
    let init = sections.drop_last();
    if k < init.len() {
        lemma_section_has_chunk(source_path, metadata, init, k)
    } else {
        section_chunks(source_path, metadata, init).len() as int
    }
}

/// The body of the chunk of a section is its text.
proof fn lemma_section_chunk_body(
    source_path: Seq<char>,
    metadata: Map<Seq<char>, Json>,
    index: nat,
    section: Section,
)
    ensures
        ({
            let c = section_chunk(source_path, metadata, index, section);
            &&& begins_with(c.text, heading_prefix(c.headings))
            &&& chunk_body(c) == section_text(section)
        }),
{
    let c = section_chunk(source_path, metadata, index, section);
    let prefix = heading_prefix(c.headings);
    assert(c.text.take(prefix.len() as int) == prefix);
    assert(c.text.skip(prefix.len() as int) == section_text(section));
}

/// Every chunk of a document stands in its position, has the path that was given
/// and the metadata of the document, and shows a part of the text of a section
/// behind the headings above that section.
pub proof fn law_chunks_come_from_sections(
    source_path: Seq<char>,
    content: Seq<char>,
    i: int,
) -> (r: (int, int, int))
    requires
        0 <= i < document_chunks(source_path, content).len(),
    ensures
        ({
            let (metadata, text) = document_parts(content);
            let all = sections(lines_of(text));
            let headings = all[r.0].outline.headings();
            &&& 0 <= r.0 < all.len()
            &&& 0 <= r.1 < r.2 <= section_text(all[r.0]).len()
            &&& document_chunks(source_path, content)[i] == (ChunkView {
                source_path,
                chunk_index: i as nat,
                text: heading_prefix(headings) + section_text(all[r.0]).subrange(r.1, r.2),
                headings,
                metadata,
            })
        }),
{
    let (metadata, text) = document_parts(content);
    let all = sections(lines_of(text));
    let chunks = section_chunks(source_path, metadata, all);
    let (j, p) = lemma_piece_has_source(chunks, i);
    let k = lemma_chunk_has_section(source_path, metadata, all, j);
    let c = chunks[j];
    lemma_section_chunk_body(source_path, metadata, j as nat, all[k]);
    let (a, b) = law_pieces_keep_the_prefix(c, p);
    law_pieces_keep_the_rest(c, p);
    if c.text.len() > MAX_CHUNK_CHARS {
        law_pieces_are_not_blank(c, p);
    } else {
        assert(pieces(c)[p] == c);
        assert(chunk_body(c).len() > 0);
    }
    assert(pieces(c)[p].text.len() > heading_prefix(c.headings).len());
    (k, a, b)
}

/// Nothing of a document is lost: every character of the text of a section that is
/// not white space is in the part of the text that some chunk shows, behind the
/// headings above the section.
pub proof fn law_every_section_is_shown(
    source_path: Seq<char>,
    content: Seq<char>,
    k: int,
    q: int,
) -> (r: (int, int, int))
    requires
        0 <= k < sections(lines_of(document_parts(content).1)).len(),
        0 <= q < section_text(sections(lines_of(document_parts(content).1))[k]).len(),
        !white_space(section_text(sections(lines_of(document_parts(content).1))[k])[q]),
    ensures
        ({
            let section = sections(lines_of(document_parts(content).1))[k];
            let headings = section.outline.headings();
            &&& 0 <= r.0 < document_chunks(source_path, content).len()
            &&& 0 <= r.1 <= q < r.2 <= section_text(section).len()
            &&& document_chunks(source_path, content)[r.0].headings == headings
            &&& document_chunks(source_path, content)[r.0].text == heading_prefix(headings)
                + section_text(section).subrange(r.1, r.2)
        }),
{
    let (metadata, text) = document_parts(content);
    let all = sections(lines_of(text));
    let chunks = section_chunks(source_path, metadata, all);
    let j = lemma_section_has_chunk(source_path, metadata, all, k);
    lemma_section_chunk_body(source_path, metadata, j as nat, all[k]);
    let (p, a, b) = law_no_text_is_lost(chunks[j], q);
    law_pieces_keep_the_rest(chunks[j], p);
    let i = lemma_piece_has_place(chunks, j, p);
    (i, a, b)
}

/// Every chunk of a document is short enough: it has at most `MAX_CHUNK_CHARS`
/// characters, or, where the headings leave too little room, at most
/// `MIN_WINDOW_CHARS` beside them.
pub proof fn law_chunks_are_short(source_path: Seq<char>, content: Seq<char>, i: int)
    requires
        0 <= i < document_chunks(source_path, content).len(),
    ensures
        ({
            let c = document_chunks(source_path, content)[i];
            c.text.len() <= MAX_CHUNK_CHARS || c.text.len() <= heading_prefix(c.headings).len()
                + MIN_WINDOW_CHARS
        }),
{
    let (metadata, text) = document_parts(content);
    let chunks = section_chunks(source_path, metadata, sections(lines_of(text)));
    let (j, p) = lemma_piece_has_source(chunks, i);
    law_pieces_are_short(chunks[j], p);
    law_pieces_keep_the_rest(chunks[j], p);
}

/// The chunks, with another path.
pub open spec fn moved(chunks: Seq<ChunkView>, path: Seq<char>) -> Seq<ChunkView> {
    chunks.map_values(|c: ChunkView| ChunkView { source_path: path, ..c })
}

proof fn lemma_section_chunks_moved(
    a: Seq<char>,
    b: Seq<char>,
    metadata: Map<Seq<char>, Json>,
    sections: Seq<Section>,
)
    ensures
        section_chunks(b, metadata, sections) == moved(section_chunks(a, metadata, sections), b),
    decreases sections.len(),
{
    if sections.len() > 0 {
        lemma_section_chunks_moved(a, b, metadata, sections.drop_last());
    }
    assert(section_chunks(b, metadata, sections) == moved(
        section_chunks(a, metadata, sections),
        b,
    ));
}

proof fn lemma_pieces_moved(c: ChunkView, b: Seq<char>)
    ensures
        pieces((ChunkView { source_path: b, ..c })) == moved(pieces(c), b),
{
    let d = ChunkView { source_path: b, ..c };
    assert(chunk_body(d) == chunk_body(c));
    assert(chunk_windows(d) == chunk_windows(c));
    assert(pieces(d) == moved(pieces(c), b));
}

proof fn lemma_all_pieces_moved(chunks: Seq<ChunkView>, b: Seq<char>)
    ensures
        all_pieces(moved(chunks, b)) == moved(all_pieces(chunks), b),
    decreases chunks.len(),
{
    let other = moved(chunks, b);
    if chunks.len() > 0 {
        lemma_all_pieces_moved(chunks.drop_last(), b);
        lemma_pieces_moved(chunks.last(), b);
        assert(other.drop_last() == moved(chunks.drop_last(), b));
        assert(other.last() == (ChunkView { source_path: b, ..chunks.last() }));
    }
    assert(all_pieces(other) == moved(all_pieces(chunks), b));
}

/// The path of a document is only a label: the chunks of a document under another
/// path differ in nothing else.
pub proof fn law_path_is_a_label(a: Seq<char>, b: Seq<char>, content: Seq<char>)
    ensures
        document_chunks(b, content) == moved(document_chunks(a, content), b),
{
    let (metadata, text) = document_parts(content);
    let all = sections(lines_of(text));
    lemma_section_chunks_moved(a, b, metadata, all);
    lemma_all_pieces_moved(section_chunks(a, metadata, all), b);
    assert(document_chunks(b, content) == moved(document_chunks(a, content), b));
}

/// A heading of the first level ends all those before it, one of the second level
/// those of the second and third, one of the third only the one before it.
pub proof fn law_headings_follow_the_outline(o: OutlineView, title: Seq<char>)
    ensures
        o.entered(1, title).headings() == seq![title].filter(|h: Seq<char>| h.len() > 0),
        o.entered(2, title).headings() == seq![o.title, title].filter(|h: Seq<char>| h.len() > 0),
        o.entered(3, title).headings() == seq![o.title, o.section, title].filter(
            |h: Seq<char>| h.len() > 0,
        ),
{
    let p = |h: Seq<char>| h.len() > 0;
    let none = Seq::<char>::empty();
    reveal_with_fuel(Seq::filter, 4);
    assert(seq![title, none, none].drop_last() == seq![title, none]);
    assert(seq![title, none].drop_last() == seq![title]);
    assert(seq![o.title, title, none].drop_last() == seq![o.title, title]);
}

/// There are at most three headings above a section, and none of them is empty.
pub proof fn law_headings_are_few(o: OutlineView)
    ensures
        o.headings().len() <= SECTION_LEVELS,
        forall|i: int| 0 <= i < o.headings().len() ==> (#[trigger] o.headings()[i]).len() > 0,
{
    let p = |h: Seq<char>| h.len() > 0;
    let all = seq![o.title, o.section, o.subsection];
    broadcast use vstd::seq_lib::group_filter_ensures;

    assert forall|i: int| 0 <= i < o.headings().len() implies (#[trigger] o.headings()[i]).len()
        > 0 by {
        assert(p(all.filter(p)[i]));
    }
}

/// Windows line ends change nothing: a document that has them, in its front matter
/// and below, gives the chunks of the same document with plain ones.
pub proof fn law_windows_line_ends_change_nothing(path: Seq<char>, content: Seq<char>)
    requires
        !content.contains('\r'),
    ensures
        document_chunks(path, with_returns(content)) == document_chunks(path, content),
{
    law_parts_with_windows_line_ends(content);
    let text = document_parts(content).1;
    let n = law_front_matter_is_cut_off(content);
    assert(!text.contains('\r')) by {
        assert forall|i: int| 0 <= i < text.len() implies text[i] != '\r' by {
            assert(content.contains(content[n + i]));
        }
    }
    law_lines_are_without_returns(text);
}

/// What one line more makes of the sections.
proof fn lemma_sections_push(
    outline: OutlineView,
    body: Seq<Seq<char>>,
    lines: Seq<Seq<char>>,
    line: Seq<char>,
)
    ensures
        ({
            let before = sections_from(outline, body, lines);
            let last = before.last();
            &&& before.len() > 0
            &&& sections_from(outline, body, lines.push(line)) == (match section_heading(line) {
                Some((level, title)) => before.push(
                    Section { outline: last.outline.entered(level, title), body: seq![] },
                ),
                None => before.drop_last().push(
                    Section { outline: last.outline, body: last.body.push(line) },
                ),
            })
        }),
    decreases lines.len(),
{
    reveal_with_fuel(sections_from, 2);
    let all = lines.push(line);
    let before = sections_from(outline, body, lines);
    if lines.len() == 0 {
        assert(all[0] == line);
        assert(all.drop_first() == Seq::<Seq<char>>::empty());
        let one = Section { outline, body };
        assert(before == seq![one]);
        match section_heading(line) {
            Some((level, title)) => {
                let next = Section { outline: outline.entered(level, title), body: seq![] };
                assert(seq![one] + seq![next] == seq![one].push(next));
            },
            None => {
                let longer = Section { outline, body: body.push(line) };
                assert(seq![one].drop_last().push(longer) == seq![longer]);
            },
        }
    } else {
        let rest = lines.drop_first();
        assert(all[0] == lines[0]);
        assert(all.drop_first() == rest.push(line));
        match section_heading(lines[0]) {
            Some((level, title)) => {
                let next = outline.entered(level, title);
                lemma_sections_push(next, seq![], rest, line);
                let later = sections_from(next, seq![], rest);
                let one = seq![Section { outline, body }];
                assert(before == one + later);
                assert(before.last() == later.last());
                assert(before.drop_last() == one + later.drop_last());
                match section_heading(line) {
                    Some((l, t)) => {
                        let s = Section { outline: later.last().outline.entered(l, t), body: seq![] };
                        assert(one + later.push(s) == before.push(s));
                    },
                    None => {
                        let s = Section {
                            outline: later.last().outline,
                            body: later.last().body.push(line),
                        };
                        assert(one + later.drop_last().push(s) == before.drop_last().push(s));
                    },
                }
            },
            None => {
                lemma_sections_push(outline, body.push(lines[0]), rest, line);
            },
        }
    }
}

/// A document without lines is one section without headings and without text.
pub proof fn law_documents_begin_without_headings()
    ensures
        sections(Seq::<Seq<char>>::empty()) == seq![
            Section {
                outline: OutlineView { title: seq![], section: seq![], subsection: seq![] },
                body: seq![],
            },
        ],
{
}

/// A heading of the first three levels begins a section. One of the first level ends
/// all headings before it; one of the second keeps that of the first; one of the
/// third keeps those of the first and the second. Deeper ones are lines of the
/// section that they stand in.
pub proof fn law_headings_begin_sections(
    lines: Seq<Seq<char>>,
    line: Seq<char>,
    level: nat,
    title: Seq<char>,
)
    requires
        heading_of(line) == Some((level, title)),
    ensures
        ({
            let before = sections(lines);
            let after = sections(lines.push(line));
            let o = before.last().outline;
            let none = Seq::<char>::empty();
            &&& before.len() > 0
            &&& 1 <= level <= 6
            &&& level == 1 ==> after == before.push(
                Section {
                    outline: OutlineView { title, section: none, subsection: none },
                    body: seq![],
                },
            )
            &&& level == 2 ==> after == before.push(
                Section {
                    outline: OutlineView { title: o.title, section: title, subsection: none },
                    body: seq![],
                },
            )
            &&& level == 3 ==> after == before.push(
                Section {
                    outline: OutlineView { title: o.title, section: o.section, subsection: title },
                    body: seq![],
                },
            )
            &&& level > 3 ==> after == before.drop_last().push(
                Section { outline: o, body: before.last().body.push(line) },
            )
        }),
{
    lemma_span(line, CharClass::Only('#'));
    lemma_sections_push(no_outline(), seq![], lines, line);
}

/// A line that is no heading belongs to the section that it stands in, behind the
/// lines before it.
pub proof fn law_other_lines_stay_in_their_section(lines: Seq<Seq<char>>, line: Seq<char>)
    requires
        heading_of(line) is None,
    ensures
        ({
            let before = sections(lines);
            let last = before.last();
            &&& before.len() > 0
            &&& sections(lines.push(line)) == before.drop_last().push(
                Section { outline: last.outline, body: last.body.push(line) },
            )
        }),
{
    lemma_sections_push(no_outline(), seq![], lines, line);
}

/// The headings above a section are those of its outline that are not empty, the
/// outermost first.
pub proof fn law_headings_are_those_of_the_outline(o: OutlineView)
    ensures
        o.headings() == (if o.title.len() > 0 {
            seq![o.title]
        } else {
            Seq::empty()
        }) + (if o.section.len() > 0 {
            seq![o.section]
        } else {
            Seq::empty()
        }) + (if o.subsection.len() > 0 {
            seq![o.subsection]
        } else {
            Seq::empty()
        }),
{
    let p = |h: Seq<char>| h.len() > 0;
    let all = seq![o.title, o.section, o.subsection];
    reveal_with_fuel(Seq::filter, 4);
    assert(all.drop_last() == seq![o.title, o.section]);
    assert(all.drop_last().drop_last() == seq![o.title]);
    assert(all.drop_last().drop_last().drop_last() == Seq::<Seq<char>>::empty());
    assert(o.headings() == all.filter(p));
    assert(o.headings() == (if o.title.len() > 0 {
        seq![o.title]
    } else {
        Seq::empty()
    }) + (if o.section.len() > 0 {
        seq![o.section]
    } else {
        Seq::empty()
    }) + (if o.subsection.len() > 0 {
        seq![o.subsection]
    } else {
        Seq::empty()
    }));
}

/// Which sections the chunks of sections come from.
proof fn lemma_section_places(
    source_path: Seq<char>,
    metadata: Map<Seq<char>, Json>,
    sections: Seq<Section>,
) -> (ks: Seq<int>)
    ensures
        ({
            let chunks = section_chunks(source_path, metadata, sections);
            &&& ks.len() == chunks.len()
            &&& forall|i: int|
                0 <= i < ks.len() ==> {
                    &&& 0 <= #[trigger] ks[i] < sections.len()
                    &&& section_text(sections[ks[i]]).len() > 0
                    &&& chunks[i] == section_chunk(
                        source_path,
                        metadata,
                        i as nat,
                        sections[ks[i]],
                    )
                }
            &&& forall|i: int, j: int|
                0 <= i < j < ks.len() ==> (#[trigger] ks[i]) < (#[trigger] ks[j])
            &&& forall|k: int|
                0 <= k < sections.len() && section_text(#[trigger] sections[k]).len() > 0
                    ==> ks.contains(k)
        }),
    decreases sections.len(),
{
    if sections.len() == 0 {
        Seq::empty()
    } else {
        let init = sections.drop_last();
        let before = lemma_section_places(source_path, metadata, init);
        let last = sections.len() - 1;
        let chunks = section_chunks(source_path, metadata, sections);
        if section_text(sections.last()).len() == 0 {
            assert forall|i: int| 0 <= i < before.len() implies {
                &&& 0 <= #[trigger] before[i] < sections.len()
                &&& section_text(sections[before[i]]).len() > 0
                &&& chunks[i] == section_chunk(
                    source_path,
                    metadata,
                    i as nat,
                    sections[before[i]],
                )
            } by {
                assert(init[before[i]] == sections[before[i]]);
            }
            assert forall|k: int|
                0 <= k < sections.len() && section_text(
                    #[trigger] sections[k],
                ).len() > 0 implies before.contains(k) by {
                assert(init[k] == sections[k]);
            }
            before
        } else {
            let ks = before.push(last);
            assert forall|i: int| 0 <= i < ks.len() implies {
                &&& 0 <= #[trigger] ks[i] < sections.len()
                &&& section_text(sections[ks[i]]).len() > 0
                &&& chunks[i] == section_chunk(source_path, metadata, i as nat, sections[ks[i]])
            } by {
                if i < before.len() {
                    assert(ks[i] == before[i]);
                    assert(init[before[i]] == sections[before[i]]);
                }
            }
            assert forall|i: int, j: int| 0 <= i < j < ks.len() implies (#[trigger] ks[i]) < (
            #[trigger] ks[j]) by {
                assert(ks[i] == before[i]);
                if j < before.len() {
                    assert(ks[j] == before[j]);
                }
            }
            assert forall|k: int|
                0 <= k < sections.len() && section_text(
                    #[trigger] sections[k],
                ).len() > 0 implies ks.contains(k) by {
                if k < last {
                    assert(init[k] == sections[k]);
                    let i = choose|i: int| 0 <= i < before.len() && before[i] == k;
                    assert(ks[i] == k);
                } else {
                    assert(ks[before.len() as int] == k);
                }
            }
            ks
        }
    }
}

/// The text of a section is made up of all its lines: they are joined with line
/// feeds, and only white space at both ends is dropped.
proof fn lemma_section_text(section: Section)
    ensures
        section_text(section) == stripped(joined(section.body, seq!['\n'])),
{
    reveal_strlit("\n");
    assert("\n"@ == seq!['\n']);
}

/// A document is made of its sections. Each section with a character that is not
/// white space becomes one chunk, in the order of the document: with the path of the
/// document, its metadata, the headings above the section, and as text these
/// headings and all lines of the section, joined with line feeds, without white
/// space at both ends. What is too long of that is cut.
pub proof fn law_documents_are_made_of_their_sections(
    source_path: Seq<char>,
    content: Seq<char>,
) -> (r: (Seq<ChunkView>, Seq<int>))
    ensures
        ({
            let (whole, ks) = r;
            let (metadata, text) = document_parts(content);
            let all = sections(lines_of(text));
            &&& document_chunks(source_path, content) == resized(whole)
            &&& whole.len() == ks.len()
            &&& forall|i: int|
                0 <= i < ks.len() ==> {
                    &&& 0 <= #[trigger] ks[i] < all.len()
                    &&& whole[i] == (ChunkView {
                        source_path,
                        chunk_index: i as nat,
                        text: heading_prefix(all[ks[i]].outline.headings()) + stripped(
                            joined(all[ks[i]].body, seq!['\n']),
                        ),
                        headings: all[ks[i]].outline.headings(),
                        metadata,
                    })
                    &&& stripped(joined(all[ks[i]].body, seq!['\n'])).len() > 0
                }
            &&& forall|i: int, j: int|
                0 <= i < j < ks.len() ==> (#[trigger] ks[i]) < (#[trigger] ks[j])
            &&& forall|k: int, m: int, q: int|
                0 <= k < all.len() && 0 <= m < all[k].body.len() && 0 <= q < all[k].body[m].len()
                    && !white_space(#[trigger] all[k].body[m][q]) ==> ks.contains(k)
        }),
{
    let (metadata, text) = document_parts(content);
    let all = sections(lines_of(text));
    let whole = section_chunks(source_path, metadata, all);
    let ks = lemma_section_places(source_path, metadata, all);
    assert forall|i: int| 0 <= i < ks.len() implies {
        &&& 0 <= #[trigger] ks[i] < all.len()
        &&& whole[i] == (ChunkView {
            source_path,
            chunk_index: i as nat,
            text: heading_prefix(all[ks[i]].outline.headings()) + stripped(
                joined(all[ks[i]].body, seq!['\n']),
            ),
            headings: all[ks[i]].outline.headings(),
            metadata,
        })
        &&& stripped(joined(all[ks[i]].body, seq!['\n'])).len() > 0
    } by {
        lemma_section_text(all[ks[i]]);
    }
    assert forall|k: int, m: int, q: int|
        0 <= k < all.len() && 0 <= m < all[k].body.len() && 0 <= q < all[k].body[m].len()
            && !white_space(#[trigger] all[k].body[m][q]) implies ks.contains(k) by {
        let whole_text = joined(all[k].body, seq!['\n']);
        let start = lemma_joined_place(all[k].body, seq!['\n'], m);
        let (a, b) = lemma_trimmed(whole_text, CharClass::WhiteSpace);
        assert(whole_text[start + q] == all[k].body[m][q]);
        lemma_section_text(all[k]);
        assert(section_text(all[k]).len() > 0);
    }
    (whole, ks)
}

/// Every line that begins no section is a line of some section.
proof fn lemma_line_has_section(lines: Seq<Seq<char>>, n: int) -> (r: (int, int))
    requires
        0 <= n < lines.len(),
        section_heading(lines[n]) is None,
    ensures
        0 <= r.0 < sections(lines).len(),
        0 <= r.1 < sections(lines)[r.0].body.len(),
        sections(lines)[r.0].body[r.1] == lines[n],
    decreases lines.len(),
{
    let init = lines.drop_last();
    let line = lines.last();
    assert(lines == init.push(line));
    lemma_sections_push(no_outline(), seq![], init, line);
    let (before, after) = (sections(init), sections(lines));
    if n < init.len() {
        let (k, m) = lemma_line_has_section(init, n);
        if section_heading(line) is Some {
            assert(after[k] == before[k]);
        } else if k < before.len() - 1 {
            assert(after[k] == before[k]);
        } else {
            assert(after[k].body == before[k].body.push(line));
        }
        (k, m)
    } else {
        let k = before.len() - 1;
        assert(after[k].body == before.last().body.push(line));
        (k, before.last().body.len() as int)
    }
}

/// Every character of every line that begins no section is shown, unless it is white
/// space: it stands in the text of some chunk, behind the headings above its line.
/// Around it, as far as the chunk reaches, stands its line.
pub proof fn law_every_line_is_shown(
    source_path: Seq<char>,
    content: Seq<char>,
    n: int,
    q: int,
) -> (r: (int, int))
    requires
        0 <= n < lines_of(document_parts(content).1).len(),
        ({
            let line = lines_of(document_parts(content).1)[n];
            &&& (heading_of(line) matches Some((level, title)) ==> level > 3)
            &&& 0 <= q < line.len()
            &&& !white_space(line[q])
        }),
    ensures
        ({
            let line = lines_of(document_parts(content).1)[n];
            let chunks = document_chunks(source_path, content);
            let text = chunks[r.0].text;
            let prefix = heading_prefix(chunks[r.0].headings).len();
            &&& 0 <= r.0 < chunks.len()
            &&& prefix <= r.1 < text.len()
            &&& text[r.1] == line[q]
            &&& forall|d: int|
                0 <= q + d < line.len() && prefix <= r.1 + d < text.len() ==> #[trigger] text[r.1
                    + d] == line[q + d]
        }),
{
    let lines = lines_of(document_parts(content).1);
    let line = lines[n];
    let (k, m) = lemma_line_has_section(lines, n);
    let section = sections(lines)[k];
    let whole = joined(section.body, seq!['\n']);
    let start = lemma_joined_place(section.body, seq!['\n'], m);
    let (a0, b0) = lemma_trimmed(whole, CharClass::WhiteSpace);
    assert(section.body[m][q] == line[q]);
    let pos = start + q;
    assert(whole[pos] == line[q]);
    lemma_section_text(section);
    let st = section_text(section);
    assert(st == whole.subrange(a0, b0));
    assert(st[pos - a0] == line[q]);
    let (i, a, b) = law_every_section_is_shown(source_path, content, k, pos - a0);
    let c = document_chunks(source_path, content)[i];
    let prefix = heading_prefix(c.headings);
    let p = prefix.len() + (pos - a0) - a;
    assert(c.text == prefix + st.subrange(a, b));
    assert forall|d: int|
        0 <= q + d < line.len() && prefix.len() <= p + d < c.text.len() implies #[trigger] c.text[p
        + d] == line[q + d] by {
        assert(c.text[p + d] == st[a + (p + d - prefix.len())]);
        assert(st[pos - a0 + d] == whole[pos + d]);
        assert(section.body[m][q + d] == line[q + d]);
        assert(whole[start + (q + d)] == section.body[m][q + d]);
    }
    assert(c.text[p + 0] == line[q + 0]);
    (i, p)
}

} // verus!
