//! Chunks that are too long to be embedded are cut into overlapping windows.

use crate::chunk::{breadcrumb, chunk_views, Chunk, ChunkView};
use crate::front_matter::stripped;
use crate::text::{begins_with, chars_of, is_white_space, join, joined};
use crate::text::{law_trimming_leaves_the_middle, lemma_trimmed, starts_with, string_of};
use crate::text::{trim_bounds, views, white_space, CharClass};
use vstd::prelude::*;
use vstd::slice::slice_subrange;
use vstd::string::StringExecFns;

verus! {

/// Soft cap on embedded text length. BGE-small truncates around ~512 tokens;
/// ~4 chars/token, so chunks under this keep their tail.
pub const MAX_CHUNK_CHARS: usize = 1800;

/// Overlap between consecutive windows of an oversized section.
pub const CHUNK_OVERLAP_CHARS: usize = 200;

/// The room that a window has at least, however long the headings are.
pub const MIN_WINDOW_CHARS: usize = 200;

/// What stands before the text of a section: its headings, and an empty line.
pub open spec fn heading_prefix(headings: Seq<Seq<char>>) -> Seq<char> {
    if headings.len() == 0 {
        seq![]
    } else {
        breadcrumb(headings) + "\n\n"@
    }
}

/// The room that is left for a window beside a prefix.
pub open spec fn window_room(prefix_len: nat) -> int {
    if MAX_CHUNK_CHARS - prefix_len >= MIN_WINDOW_CHARS {
        MAX_CHUNK_CHARS - prefix_len
    } else {
        MIN_WINDOW_CHARS as int
    }
}

/// How far a window reaches back into the one before it.
pub open spec fn window_overlap(room: int) -> int {
    if room / 3 <= CHUNK_OVERLAP_CHARS {
        room / 3
    } else {
        CHUNK_OVERLAP_CHARS as int
    }
}

/// The index of the last white space in `s`, or -1.
pub open spec fn last_white(s: Seq<char>) -> int
    decreases s.len(),
{
    if s.len() == 0 {
        -1
    } else if white_space(s.last()) {
        s.len() - 1
    } else {
        last_white(s.drop_last())
    }
}

/// Where the window that begins at `start` ends: where the body ends, if there
/// is room for that; else at the last white space that there is room for, if it
/// lies in the last three quarters of the room; else where the room ends.
pub open spec fn window_end(body: Seq<char>, start: int, room: int) -> int {
    if start + room >= body.len() {
        body.len() as int
    } else {
        let white = last_white(body.subrange(start, start + room));
        if white > room / 4 {
            start + white
        } else {
            start + room
        }
    }
}

/// Where the window after the one from `start` to `end` begins.
pub open spec fn next_start(start: int, end: int, overlap: int) -> int {
    if end - overlap <= start {
        end
    } else {
        end - overlap
    }
}

/// The windows of `body` from `start` on, each by its first place and the place
/// behind its last.
pub open spec fn windows(body: Seq<char>, start: int, room: int, overlap: int) -> Seq<(int, int)>
    recommends
        0 <= start,
        0 < room,
        0 <= overlap,
    decreases body.len() - start,
    when 0 <= start && 0 < room && 0 <= overlap
{
    if start >= body.len() {
        seq![]
    } else {
        let end = window_end(body, start, room);
        if end >= body.len() {
            seq![(start, end)]
        } else {
            seq![(start, end)] + windows(body, next_start(start, end, overlap), room, overlap)
        }
    }
}

/// What the windows show of `body`, without the white space around it; windows
/// with nothing but white space are left out.
pub open spec fn window_texts(body: Seq<char>, ws: Seq<(int, int)>) -> Seq<Seq<char>> {
    ws.map_values(|w: (int, int)| stripped(body.subrange(w.0, w.1))).filter(
        |t: Seq<char>| t.len() > 0,
    )
}

/// The text of a chunk without its heading prefix.
pub open spec fn chunk_body(c: ChunkView) -> Seq<char> {
    let prefix = heading_prefix(c.headings);
    if begins_with(c.text, prefix) {
        c.text.skip(prefix.len() as int)
    } else {
        c.text
    }
}

/// The windows that a chunk is cut into if it is too long.
pub open spec fn chunk_windows(c: ChunkView) -> Seq<(int, int)> {
    let room = window_room(heading_prefix(c.headings).len());
    windows(chunk_body(c), 0, room, window_overlap(room))
}

/// What becomes of a chunk: itself if it is short enough or has no body; else a
/// chunk for each window, each with the heading prefix. Positions are not yet
/// given.
pub open spec fn pieces(c: ChunkView) -> Seq<ChunkView> {
    let prefix = heading_prefix(c.headings);
    let body = chunk_body(c);
    if c.text.len() <= MAX_CHUNK_CHARS || body.len() == 0 {
        seq![c]
    } else {
        window_texts(body, chunk_windows(c)).map_values(
            |t: Seq<char>| ChunkView { text: prefix + t, ..c },
        )
    }
}

/// The pieces of all the chunks, in a row.
pub open spec fn all_pieces(chunks: Seq<ChunkView>) -> Seq<ChunkView>
    decreases chunks.len(),
{
    if chunks.len() == 0 {
        seq![]
    } else {
        all_pieces(chunks.drop_last()) + pieces(chunks.last())
    }
}

/// The chunks, their positions counted from `n` on.
pub open spec fn numbered_from(chunks: Seq<ChunkView>, n: nat) -> Seq<ChunkView> {
    Seq::new(chunks.len(), |i: int| ChunkView { chunk_index: (n + i) as nat, ..chunks[i] })
}

/// The chunks with none of them too long, in their positions.
pub open spec fn resized(chunks: Seq<ChunkView>) -> Seq<ChunkView> {
    numbered_from(all_pieces(chunks), 0)
}

proof fn lemma_last_white(s: Seq<char>, at: int)
    requires
        -1 <= at < s.len(),
        at >= 0 ==> white_space(s[at]),
        forall|i: int| at < i < s.len() ==> !white_space(#[trigger] s[i]),
    ensures
        last_white(s) == at,
    decreases s.len(),
{
    if s.len() > 0 && at < s.len() - 1 {
        assert(!white_space(s[s.len() - 1]));
        lemma_last_white(s.drop_last(), at);
    }
}

/// Where the window of `body` that begins at `start` ends.
fn window_stop(body: &[char], start: usize, room: usize) -> (end: usize)
    requires
        start < body@.len(),
        0 < room,
    ensures
        end == window_end(body@, start as int, room as int),
        start < end <= body@.len(),
{
    if body.len() - start <= room {
        return body.len();
    }
    let hard = start + room;
    let ghost view = body@.subrange(start as int, hard as int);
    let mut i: usize = hard;
    while i > start && !is_white_space(body[i - 1])
        invariant
            start <= i <= hard <= body@.len(),
            hard == start + room,
            view == body@.subrange(start as int, hard as int),
            forall|k: int| i - start <= k < view.len() ==> !white_space(#[trigger] view[k]),
        decreases i - start,
    {
        i -= 1;
    }
    proof {
        lemma_last_white(view, i - start - 1);
    }
    if i > start && i - 1 - start > room / 4 {
        i - 1
    } else {
        hard
    }
}

proof fn lemma_window_texts_add(body: Seq<char>, a: Seq<(int, int)>, b: Seq<(int, int)>)
    ensures
        window_texts(body, a + b) == window_texts(body, a) + window_texts(body, b),
{
    let f = |w: (int, int)| stripped(body.subrange(w.0, w.1));
    let p = |t: Seq<char>| t.len() > 0;
    assert((a + b).map_values(f) == a.map_values(f) + b.map_values(f));
    Seq::filter_distributes_over_add(a.map_values(f), b.map_values(f), p);
}

proof fn lemma_window_texts_one(body: Seq<char>, w: (int, int))
    ensures
        window_texts(body, seq![w]) == (if stripped(body.subrange(w.0, w.1)).len() > 0 {
            seq![stripped(body.subrange(w.0, w.1))]
        } else {
            Seq::empty()
        }),
{
    let f = |w: (int, int)| stripped(body.subrange(w.0, w.1));
    let one = seq![w].map_values(f);
    assert(one == seq![f(w)]);
    assert(one.drop_last() == Seq::<Seq<char>>::empty());
    reveal_with_fuel(Seq::filter, 2);
}

/// What the windows show of `body`, without the white space around it.
fn cut(body: &[char], room: usize, overlap: usize) -> (r: Vec<String>)
    requires
        0 < room,
    ensures
        views(r@) == window_texts(
            body@,
            windows(body@, 0, room as int, overlap as int),
        ),
{
    let mut r: Vec<String> = Vec::new();
    let mut start: usize = 0;
    let ghost all = windows(body@, 0, room as int, overlap as int);
    let ghost mut rest = all;
    proof {
        reveal(Seq::filter);
        assert(views(r@) == window_texts(body@, seq![]));
        assert(seq![] + all == all);
        lemma_window_texts_add(body@, seq![], all);
    }
    while start < body.len()
        invariant
            0 < room,
            start <= body@.len(),
            rest == windows(body@, start as int, room as int, overlap as int),
            window_texts(body@, all) == views(r@) + window_texts(body@, rest),
        decreases body@.len() - start,
    {
        let end = window_stop(body, start, room);
        let (a, b) = trim_bounds(slice_subrange(body, start, end), CharClass::WhiteSpace);
        let ghost before = r@;
        let ghost piece = stripped(body@.subrange(start as int, end as int));
        if a < b {
            r.push(string_of(slice_subrange(slice_subrange(body, start, end), a, b)));
        }
        let next = if end == body.len() {
            end
        } else if end - start <= overlap {
            end
        } else {
            end - overlap
        };
        proof {
            let w = (start as int, end as int);
            let after = windows(body@, next as int, room as int, overlap as int);
            assert(rest == seq![w] + after);
            lemma_window_texts_add(body@, seq![w], after);
            lemma_window_texts_one(body@, w);
            assert(piece.len() == b - a);
            if a < b {
                assert(views(r@) == views(before).push(piece));
            }
            assert(views(before) + (window_texts(body@, seq![w]) + window_texts(body@, after))
                == views(r@) + window_texts(body@, after));
            rest = after;
        }
        start = next;
    }
    proof {
        reveal(Seq::filter);
        assert(rest == Seq::<(int, int)>::empty());
        assert(window_texts(body@, rest) == Seq::<Seq<char>>::empty());
    }
    r
}

/// What stands before the text of a section: its headings, and an empty line.
pub fn prefix_of(headings: &Vec<String>) -> (r: String)
    ensures
        r@ == heading_prefix(views(headings@)),
{
    if headings.len() == 0 {
        String::new()
    } else {
        let mut r = join(headings, " > ");
        r.append("\n\n");
        r
    }
}

/// Copies of the given strings.
pub fn copies(v: &Vec<String>) -> (r: Vec<String>)
    ensures
        views(r@) == views(v@),
{
    let r = v.clone();
    assert(views(r@) == views(v@));
    r
}

/// Cut a chunk that is too long into its windows and add these to `out`.
fn push_pieces(out: &mut Vec<Chunk>, chunk: &Chunk, prefix: &str, texts: &Vec<String>)
    ensures
        chunk_views(final(out)@) == chunk_views(old(out)@) + numbered_from(
            views(texts@).map_values(
                |t: Seq<char>| ChunkView { text: prefix@ + t, ..chunk@ },
            ),
            old(out)@.len(),
        ),
{
    let ghost f = |t: Seq<char>| ChunkView { text: prefix@ + t, ..chunk@ };
    let ghost all = numbered_from(views(texts@).map_values(f), old(out)@.len());
    let mut i: usize = 0;
    proof {
        assert(chunk_views(out@) == chunk_views(old(out)@) + all.take(0));
    }
    while i < texts.len()
        invariant
            i <= texts@.len(),
            f == (|t: Seq<char>| ChunkView { text: prefix@ + t, ..chunk@ }),
            all == numbered_from(views(texts@).map_values(f), old(out)@.len()),
            out@.len() == old(out)@.len() + i,
            chunk_views(out@) == chunk_views(old(out)@) + all.take(i as int),
        decreases texts@.len() - i,
    {
        let mut text = prefix.to_string();
        text.append(texts[i].as_str());
        let ghost before = out@;
        let piece = Chunk {
            source_path: chunk.source_path.clone(),
            chunk_index: out.len(),
            text,
            headings: copies(&chunk.headings),
            metadata: chunk.metadata.clone(),
        };
        proof {
            assert(piece@ == all[i as int]);
            assert(all.take(i + 1) == all.take(i as int).push(all[i as int]));
        }
        out.push(piece);
        proof {
            assert(chunk_views(out@) == chunk_views(before).push(all[i as int]));
        }
        i += 1;
    }
    assert(all.take(i as int) == all);
}

proof fn lemma_numbered_from_add(a: Seq<ChunkView>, b: Seq<ChunkView>, n: nat)
    ensures
        numbered_from(a + b, n) == numbered_from(a, n) + numbered_from(b, n + a.len()),
{
}

/// Split any chunk whose embedded text exceeds `MAX_CHUNK_CHARS`, keeping the
/// heading prefix on each piece and overlapping body windows.
pub fn split_oversized(chunks: Vec<Chunk>) -> (r: Vec<Chunk>)
    ensures
        chunk_views(r@) == resized(chunk_views(chunks@)),
{
    let ghost all = chunk_views(chunks@);
    let mut out: Vec<Chunk> = Vec::new();
    proof {
        assert(all.take(0) == Seq::<ChunkView>::empty());
        assert(chunk_views(out@) == resized(all.take(0)));
    }
    for chunk in it: chunks
        invariant
            all == chunk_views(it.seq()),
            chunk_views(out@) == resized(all.take(it.index() as int)),
    {
        let ghost i = it.index() as int;
        let ghost before = out@;
        proof {
            assert(all.take(i + 1).drop_last() == all.take(i));
            assert(all.take(i + 1).last() == chunk@);
            lemma_numbered_from_add(all_pieces(all.take(i)), pieces(chunk@), 0);
        }
        let text = chars_of(chunk.text.as_str());
        let prefix = prefix_of(&chunk.headings);
        let prefix_chars = chars_of(prefix.as_str());
        let body_start = if starts_with(text.as_slice(), prefix_chars.as_slice()) {
            prefix_chars.len()
        } else {
            0
        };
        if text.len() <= MAX_CHUNK_CHARS || body_start == text.len() {
            let mut whole = chunk;
            whole.chunk_index = out.len();
            out.push(whole);
            proof {
                assert(chunk_views(out@) == chunk_views(before) + numbered_from(
                    seq![chunk@],
                    before.len(),
                ));
            }
        } else {
            let body = slice_subrange(text.as_slice(), body_start, text.len());
            let room = if prefix_chars.len() <= MAX_CHUNK_CHARS - MIN_WINDOW_CHARS {
                MAX_CHUNK_CHARS - prefix_chars.len()
            } else {
                MIN_WINDOW_CHARS
            };
            let overlap = if room / 3 <= CHUNK_OVERLAP_CHARS {
                room / 3
            } else {
                CHUNK_OVERLAP_CHARS
            };
            proof {
                assert(body@ == chunk_body(chunk@));
            }
            let texts = cut(body, room, overlap);
            push_pieces(&mut out, &chunk, prefix.as_str(), &texts);
        }
    }
    assert(all.take(all.len() as int) == all);
    out
}

proof fn lemma_last_white_is_last(s: Seq<char>, at: int)
    requires
        0 <= at < s.len(),
        white_space(s[at]),
    ensures
        at <= last_white(s) < s.len(),
        white_space(s[last_white(s)]),
    decreases s.len(),
{
    if !white_space(s.last()) {
        lemma_last_white_is_last(s.drop_last(), at);
    }
}

proof fn lemma_last_white_bound(s: Seq<char>)
    ensures
        -1 <= last_white(s) < s.len(),
    decreases s.len(),
{
    if s.len() > 0 && !white_space(s.last()) {
        lemma_last_white_bound(s.drop_last());
    }
}

/// A window is not cut inside a word where that can be helped: if the window
/// does not reach the end of the body, and there is white space in the last three
/// quarters of its room, it ends at white space.
pub proof fn law_windows_break_at_white_space(body: Seq<char>, start: int, room: int, at: int)
    requires
        0 <= start,
        start + room < body.len(),
        room / 4 < at < room,
        white_space(body[start + at]),
    ensures
        white_space(body[window_end(body, start, room)]),
        start + at <= window_end(body, start, room) < start + room,
{
    let view = body.subrange(start, start + room);
    assert(view[at] == body[start + at]);
    lemma_last_white_is_last(view, at);
    assert(view[last_white(view)] == body[start + last_white(view)]);
}

proof fn lemma_window_end(body: Seq<char>, start: int, room: int)
    requires
        0 <= start < body.len(),
        0 < room,
    ensures
        start < window_end(body, start, room) <= body.len(),
        window_end(body, start, room) <= start + room,
        window_end(body, start, room) < body.len() ==> room / 4 < window_end(body, start, room)
            - start,
{
    if start + room < body.len() {
        lemma_last_white_bound(body.subrange(start, start + room));
    }
}

/// Each of `ws` lies between `from` and `to` and has the given room; the first
/// begins at `from`, the last ends at `to`, and each begins in the one before, or
/// where that one ends, but behind its beginning.
pub open spec fn tiled(ws: Seq<(int, int)>, from: int, to: int, room: int, overlap: int) -> bool {
    &&& ws.len() > 0
    &&& ws[0].0 == from
    &&& ws[ws.len() - 1].1 == to
    &&& forall|i: int|
        0 <= i < ws.len() ==> from <= (#[trigger] ws[i]).0 < ws[i].1 <= to && ws[i].1 - ws[i].0
            <= room
    &&& forall|i: int, j: int|
        0 <= i && j == i + 1 && j < ws.len() ==> {
            &&& (#[trigger] ws[i]).0 < (#[trigger] ws[j]).0 <= ws[i].1
            &&& ws[j].0 == ws[i].1 - overlap || (ws[j].0 == ws[i].1 && ws[i].1 - ws[i].0
                <= overlap)
        }
}

proof fn lemma_windows_tile(body: Seq<char>, start: int, room: int, overlap: int)
    requires
        0 <= start < body.len(),
        0 < room,
        0 <= overlap,
    ensures
        tiled(windows(body, start, room, overlap), start, body.len() as int, room, overlap),
    decreases body.len() - start,
{
    let ws = windows(body, start, room, overlap);
    let end = window_end(body, start, room);
    lemma_window_end(body, start, room);
    if end >= body.len() {
        assert(ws == seq![(start, end)]);
    } else {
        let next = next_start(start, end, overlap);
        lemma_windows_tile(body, next, room, overlap);
        let rest = windows(body, next, room, overlap);
        assert(ws == seq![(start, end)] + rest);
        assert(ws[ws.len() - 1] == rest[rest.len() - 1]);
        assert forall|i: int| 0 <= i < ws.len() implies start <= (#[trigger] ws[i]).0 < ws[i].1
            <= body.len() && ws[i].1 - ws[i].0 <= room by {
            if i > 0 {
                assert(ws[i] == rest[i - 1]);
            }
        }
        assert forall|i: int, j: int| 0 <= i && j == i + 1 && j < ws.len() implies {
            &&& (#[trigger] ws[i]).0 < (#[trigger] ws[j]).0 <= ws[i].1
            &&& ws[j].0 == ws[i].1 - overlap || (ws[j].0 == ws[i].1 && ws[i].1 - ws[i].0
                <= overlap)
        } by {
            assert(ws[j] == rest[j - 1]);
            if i > 0 {
                assert(ws[i] == rest[i - 1]);
            }
        }
    }
}

/// The windows of a body cover it from end to end: the first begins with it, the
/// last ends with it, none is longer than its room, and each begins `overlap`
/// characters before the end of the one before, or at that end where the one
/// before is no longer than the overlap.
pub proof fn law_windows_cover_the_body(body: Seq<char>, room: int, overlap: int)
    requires
        body.len() > 0,
        0 < room,
        0 <= overlap,
    ensures
        tiled(windows(body, 0, room, overlap), 0, body.len() as int, room, overlap),
{
    lemma_windows_tile(body, 0, room, overlap);
}

/// Every place that is tiled is in a window.
proof fn lemma_place_in_window(
    ws: Seq<(int, int)>,
    from: int,
    to: int,
    room: int,
    overlap: int,
    k: int,
    upto: int,
) -> (i: int)
    requires
        tiled(ws, from, to, room, overlap),
        0 <= upto < ws.len(),
        from <= k < ws[upto].1,
    ensures
        0 <= i <= upto,
        ws[i].0 <= k < ws[i].1,
    decreases upto,
{
    if ws[upto].0 <= k {
        upto
    } else {
        if upto == 0 {
            assert(ws[0].0 == from);
            0
        } else {
            assert(ws[upto - 1].0 < ws[upto].0 <= ws[upto - 1].1);
            lemma_place_in_window(ws, from, to, room, overlap, k, upto - 1)
        }
    }
}

/// The room for a window and the overlap of windows beside a prefix.
proof fn lemma_room(prefix_len: nat)
    ensures
        MIN_WINDOW_CHARS <= window_room(prefix_len) <= MAX_CHUNK_CHARS,
        0 <= window_overlap(window_room(prefix_len)) <= CHUNK_OVERLAP_CHARS,
        prefix_len + window_room(prefix_len) <= MAX_CHUNK_CHARS || window_room(prefix_len)
            == MIN_WINDOW_CHARS,
{
}

/// What a window shows is one of the texts, unless it is blank.
proof fn lemma_window_text_is_there(body: Seq<char>, ws: Seq<(int, int)>, i: int)
    requires
        0 <= i < ws.len(),
        stripped(body.subrange(ws[i].0, ws[i].1)).len() > 0,
    ensures
        window_texts(body, ws).contains(stripped(body.subrange(ws[i].0, ws[i].1))),
{
    let f = |w: (int, int)| stripped(body.subrange(w.0, w.1));
    let p = |t: Seq<char>| t.len() > 0;
    let all = ws.map_values(f);
    assert(all[i] == f(ws[i]));
    broadcast use vstd::seq_lib::group_filter_ensures;

    assert(all.filter(p).contains(all[i]));
}

/// Every text is what some window shows, and is not blank.
proof fn lemma_window_text_is_shown(body: Seq<char>, ws: Seq<(int, int)>, t: int) -> (i: int)
    requires
        0 <= t < window_texts(body, ws).len(),
    ensures
        0 <= i < ws.len(),
        window_texts(body, ws)[t] == stripped(body.subrange(ws[i].0, ws[i].1)),
        window_texts(body, ws)[t].len() > 0,
{
    let f = |w: (int, int)| stripped(body.subrange(w.0, w.1));
    let p = |t: Seq<char>| t.len() > 0;
    let all = ws.map_values(f);
    let kept = all.filter(p);
    broadcast use vstd::seq_lib::group_filter_ensures;

    assert(p(kept[t]));
    assert(kept.contains(kept[t]));
    all.lemma_filter_contains_rev(p, kept[t]);
    let i = choose|i: int| 0 <= i < all.len() && all[i] == kept[t];
    i
}

/// Every piece of a chunk has its path, headings and metadata.
pub proof fn law_pieces_keep_the_rest(c: ChunkView, i: int)
    requires
        0 <= i < pieces(c).len(),
    ensures
        pieces(c)[i] == (ChunkView { text: pieces(c)[i].text, ..c }),
{
}

/// Every piece of a chunk that begins with its heading prefix begins with it too,
/// and goes on with a part of the body.
pub proof fn law_pieces_keep_the_prefix(c: ChunkView, i: int) -> (r: (int, int))
    requires
        begins_with(c.text, heading_prefix(c.headings)),
        0 <= i < pieces(c).len(),
    ensures
        0 <= r.0 <= r.1 <= chunk_body(c).len(),
        pieces(c)[i].text == heading_prefix(c.headings) + chunk_body(c).subrange(r.0, r.1),
{
    let prefix = heading_prefix(c.headings);
    let body = chunk_body(c);
    if c.text.len() <= MAX_CHUNK_CHARS || body.len() == 0 {
        assert(c.text == prefix + body.subrange(0, body.len() as int));
        (0, body.len() as int)
    } else {
        let ws = chunk_windows(c);
        let w = lemma_window_text_is_shown(body, ws, i);
        let room = window_room(prefix.len());
        lemma_room(prefix.len());
        lemma_windows_tile(body, 0, room, window_overlap(room));
        let view = body.subrange(ws[w].0, ws[w].1);
        let (a, b) = lemma_trimmed(view, CharClass::WhiteSpace);
        assert(view.subrange(a, b) == body.subrange(ws[w].0 + a, ws[w].0 + b));
        (ws[w].0 + a, ws[w].0 + b)
    }
}

/// Every piece is short enough: it has at most `MAX_CHUNK_CHARS` characters, or,
/// where the headings leave too little room, at most `MIN_WINDOW_CHARS` beside
/// them.
pub proof fn law_pieces_are_short(c: ChunkView, i: int)
    requires
        0 <= i < pieces(c).len(),
    ensures
        pieces(c)[i].text.len() <= MAX_CHUNK_CHARS || pieces(c)[i].text.len() <= heading_prefix(
            c.headings,
        ).len() + MIN_WINDOW_CHARS,
{
    let prefix = heading_prefix(c.headings);
    let body = chunk_body(c);
    if c.text.len() > MAX_CHUNK_CHARS && body.len() > 0 {
        let ws = chunk_windows(c);
        let w = lemma_window_text_is_shown(body, ws, i);
        let room = window_room(prefix.len());
        lemma_room(prefix.len());
        lemma_windows_tile(body, 0, room, window_overlap(room));
        let view = body.subrange(ws[w].0, ws[w].1);
        let bounds = lemma_trimmed(view, CharClass::WhiteSpace);
        assert(pieces(c)[i].text.len() <= prefix.len() + room);
    }
}

/// Nothing of a chunk is lost: every character of its body that is not white space
/// is in the part of the body that some piece shows.
pub proof fn law_no_text_is_lost(c: ChunkView, k: int) -> (r: (int, int, int))
    requires
        begins_with(c.text, heading_prefix(c.headings)),
        0 <= k < chunk_body(c).len(),
        !white_space(chunk_body(c)[k]),
    ensures
        0 <= r.0 < pieces(c).len(),
        0 <= r.1 <= k < r.2 <= chunk_body(c).len(),
        pieces(c)[r.0].text == heading_prefix(c.headings) + chunk_body(c).subrange(r.1, r.2),
{
    let prefix = heading_prefix(c.headings);
    let body = chunk_body(c);
    if c.text.len() <= MAX_CHUNK_CHARS {
        assert(c.text == prefix + body.subrange(0, body.len() as int));
        (0, 0, body.len() as int)
    } else {
        let ws = chunk_windows(c);
        let room = window_room(prefix.len());
        let overlap = window_overlap(room);
        lemma_room(prefix.len());
        lemma_windows_tile(body, 0, room, overlap);
        let w = lemma_place_in_window(
            ws,
            0,
            body.len() as int,
            room,
            overlap,
            k,
            ws.len() - 1,
        );
        let view = body.subrange(ws[w].0, ws[w].1);
        let (a, b) = lemma_trimmed(view, CharClass::WhiteSpace);
        assert(view[k - ws[w].0] == body[k]);
        assert(a <= k - ws[w].0 < b);
        lemma_window_text_is_there(body, ws, w);
        let texts = window_texts(body, ws);
        let i = choose|i: int| 0 <= i < texts.len() && texts[i] == stripped(view);
        assert(pieces(c)[i].text == prefix + texts[i]);
        assert(view.subrange(a, b) == body.subrange(ws[w].0 + a, ws[w].0 + b));
        (i, ws[w].0 + a, ws[w].0 + b)
    }
}

/// A chunk that is cut gives no blank piece: behind the heading prefix, each begins
/// and ends with a character that is not white space.
pub proof fn law_pieces_are_not_blank(c: ChunkView, i: int)
    requires
        c.text.len() > MAX_CHUNK_CHARS,
        chunk_body(c).len() > 0,
        0 <= i < pieces(c).len(),
    ensures
        heading_prefix(c.headings).len() < pieces(c)[i].text.len(),
        !white_space(pieces(c)[i].text[heading_prefix(c.headings).len() as int]),
        !white_space(pieces(c)[i].text.last()),
{
    let prefix = heading_prefix(c.headings);
    let body = chunk_body(c);
    let ws = chunk_windows(c);
    let w = lemma_window_text_is_shown(body, ws, i);
    let view = body.subrange(ws[w].0, ws[w].1);
    let bounds = lemma_trimmed(view, CharClass::WhiteSpace);
    let text = pieces(c)[i].text;
    assert(text == prefix + stripped(view));
    assert(text[prefix.len() as int] == stripped(view)[0]);
    assert(text.last() == stripped(view)[stripped(view).len() - 1]);
}

/// Every one of the pieces is a piece of some chunk.
pub proof fn lemma_piece_has_source(chunks: Seq<ChunkView>, i: int) -> (r: (int, int))
    requires
        0 <= i < all_pieces(chunks).len(),
    ensures
        0 <= r.0 < chunks.len(),
        0 <= r.1 < pieces(chunks[r.0]).len(),
        all_pieces(chunks)[i] == pieces(chunks[r.0])[r.1],
    decreases chunks.len(),
{
    let init = chunks.drop_last();
    if i < all_pieces(init).len() {
        lemma_piece_has_source(init, i)
    } else {
        (chunks.len() - 1, i - all_pieces(init).len())
    }
}

/// Every piece of a chunk is one of the pieces.
pub proof fn lemma_piece_has_place(chunks: Seq<ChunkView>, j: int, p: int) -> (i: int)
    requires
        0 <= j < chunks.len(),
        0 <= p < pieces(chunks[j]).len(),
    ensures
        0 <= i < all_pieces(chunks).len(),
        all_pieces(chunks)[i] == pieces(chunks[j])[p],
    decreases chunks.len(),
{
    let init = chunks.drop_last();
    if j < init.len() {
        lemma_piece_has_place(init, j, p)
    } else {
        all_pieces(init).len() + p
    }
}

/// The chunks stand in their positions.
pub open spec fn numbered(chunks: Seq<ChunkView>) -> bool {
    forall|i: int| 0 <= i < chunks.len() ==> (#[trigger] chunks[i]).chunk_index == i
}

/// None of the chunks is too long.
pub open spec fn all_short(chunks: Seq<ChunkView>) -> bool {
    forall|i: int| 0 <= i < chunks.len() ==> (#[trigger] chunks[i]).text.len() <= MAX_CHUNK_CHARS
}

/// The chunks that come out are numbered from 0 on.
pub proof fn law_resized_chunks_are_numbered(chunks: Seq<ChunkView>)
    ensures
        numbered(resized(chunks)),
{
}

proof fn lemma_short_pieces(chunks: Seq<ChunkView>)
    requires
        all_short(chunks),
    ensures
        all_pieces(chunks) == chunks,
    decreases chunks.len(),
{
    if chunks.len() > 0 {
        let init = chunks.drop_last();
        assert forall|i: int| 0 <= i < init.len() implies (#[trigger] init[i]).text.len()
            <= MAX_CHUNK_CHARS by {
            assert(init[i] == chunks[i]);
        }
        lemma_short_pieces(init);
        assert(chunks[chunks.len() - 1].text.len() <= MAX_CHUNK_CHARS);
        assert(pieces(chunks.last()) == seq![chunks.last()]);
    }
    assert(all_pieces(chunks) == chunks);
}

/// Chunks that are numbered, and of which none is too long, stay as they are.
pub proof fn law_short_chunks_stay(chunks: Seq<ChunkView>)
    requires
        all_short(chunks),
        numbered(chunks),
    ensures
        resized(chunks) == chunks,
{
    lemma_short_pieces(chunks);
    assert forall|i: int| 0 <= i < chunks.len() implies resized(chunks)[i] == chunks[i] by {
        assert(chunks[i].chunk_index == i);
    }
    assert(resized(chunks) == chunks);
}

/// Splitting once is enough, where the headings leave the least room that a window
/// needs: what comes out is short, and stays as it is when it is split again.
pub proof fn law_splitting_is_idempotent(chunks: Seq<ChunkView>)
    requires
        forall|i: int|
            0 <= i < chunks.len() ==> heading_prefix((#[trigger] chunks[i]).headings).len()
                <= MAX_CHUNK_CHARS - MIN_WINDOW_CHARS,
    ensures
        all_short(resized(chunks)),
        resized(resized(chunks)) == resized(chunks),
{
    let out = resized(chunks);
    assert forall|i: int| 0 <= i < out.len() implies (#[trigger] out[i]).text.len()
        <= MAX_CHUNK_CHARS by {
        let (j, p) = lemma_piece_has_source(chunks, i);
        assert(heading_prefix(chunks[j].headings).len() <= MAX_CHUNK_CHARS - MIN_WINDOW_CHARS);
        law_pieces_are_short(chunks[j], p);
    }
    law_short_chunks_stay(out);
}

/// The headings stand before the text of a section as a path, with an empty line
/// behind them; without headings, nothing does.
pub proof fn law_headings_stand_before_the_text(headings: Seq<Seq<char>>)
    ensures
        headings.len() == 0 ==> heading_prefix(headings) == Seq::<char>::empty(),
        headings.len() > 0 ==> heading_prefix(headings) == joined(headings, seq![' ', '>', ' '])
            + seq!['\n', '\n'],
{
    reveal_strlit(" > ");
    reveal_strlit("\n\n");
    assert(" > "@ == seq![' ', '>', ' ']);
    assert("\n\n"@ == seq!['\n', '\n']);
}

/// A window from `start` to `end` fills its room: it ends with the body if that is
/// near enough, else at the last white space that there is room for, if more than a
/// quarter of the room is before it, and else where the room ends.
pub open spec fn fills_room(body: Seq<char>, start: int, end: int, room: int) -> bool {
    if start + room >= body.len() {
        end == body.len()
    } else {
        ||| {
            &&& room / 4 < end - start < room
            &&& white_space(body[end])
            &&& forall|k: int| end < k < start + room ==> !white_space(#[trigger] body[k])
        }
        ||| {
            &&& end == start + room
            &&& forall|k: int|
                start + room / 4 < k < start + room ==> !white_space(#[trigger] body[k])
        }
    }
}

/// Every window fills its room.
pub proof fn law_windows_fill_their_room(body: Seq<char>, start: int, room: int)
    requires
        0 <= start < body.len(),
        0 < room,
    ensures
        fills_room(body, start, window_end(body, start, room), room),
{
    let end = window_end(body, start, room);
    if start + room < body.len() {
        let view = body.subrange(start, start + room);
        let white = last_white(view);
        lemma_last_white_bound(view);
        lemma_nothing_white_behind(view);
        assert forall|k: int| start + white < k < start + room implies !white_space(
            #[trigger] body[k],
        ) by {
            assert(view[k - start] == body[k]);
        }
        if white >= 0 {
            lemma_last_white_is_white(view);
            assert(view[white] == body[start + white]);
        }
    }
}

proof fn lemma_nothing_white_behind(s: Seq<char>)
    ensures
        forall|k: int| last_white(s) < k < s.len() ==> !white_space(#[trigger] s[k]),
    decreases s.len(),
{
    if s.len() > 0 && !white_space(s.last()) {
        let init = s.drop_last();
        lemma_last_white_bound(init);
        lemma_nothing_white_behind(init);
        assert forall|k: int| last_white(s) < k < s.len() implies !white_space(
            #[trigger] s[k],
        ) by {
            if k < init.len() {
                assert(init[k] == s[k]);
            }
        }
    }
}

proof fn lemma_last_white_is_white(s: Seq<char>)
    requires
        last_white(s) >= 0,
    ensures
        last_white(s) < s.len(),
        white_space(s[last_white(s)]),
    decreases s.len(),
{
    if s.len() > 0 && !white_space(s.last()) {
        lemma_last_white_is_white(s.drop_last());
    }
}

/// Each window ends and is followed as the rules for one window say.
proof fn lemma_windows_follow(body: Seq<char>, start: int, room: int, overlap: int)
    requires
        0 <= start < body.len(),
        0 < room,
        0 <= overlap,
    ensures
        ({
            let ws = windows(body, start, room, overlap);
            &&& ws.len() > 0
            &&& ws[0].0 == start
            &&& forall|i: int|
                0 <= i < ws.len() ==> {
                    &&& start <= (#[trigger] ws[i]).0 < ws[i].1 <= body.len()
                    &&& ws[i].1 == window_end(body, ws[i].0, room)
                    &&& ws[i].1 == body.len() <==> i == ws.len() - 1
                }
            &&& forall|i: int, j: int|
                0 <= i && j == i + 1 && j < ws.len() ==> (#[trigger] ws[j]).0 == next_start(
                    (#[trigger] ws[i]).0,
                    ws[i].1,
                    overlap,
                )
        }),
    decreases body.len() - start,
{
    let ws = windows(body, start, room, overlap);
    let end = window_end(body, start, room);
    lemma_window_end(body, start, room);
    if end >= body.len() {
        assert(ws == seq![(start, end)]);
    } else {
        let next = next_start(start, end, overlap);
        lemma_windows_follow(body, next, room, overlap);
        let rest = windows(body, next, room, overlap);
        assert(ws == seq![(start, end)] + rest);
        assert forall|i: int| 0 <= i < ws.len() implies {
            &&& start <= (#[trigger] ws[i]).0 < ws[i].1 <= body.len()
            &&& ws[i].1 == window_end(body, ws[i].0, room)
            &&& ws[i].1 == body.len() <==> i == ws.len() - 1
        } by {
            if i > 0 {
                assert(ws[i] == rest[i - 1]);
            }
        }
        assert forall|i: int, j: int| 0 <= i && j == i + 1 && j < ws.len() implies (
        #[trigger] ws[j]).0 == next_start((#[trigger] ws[i]).0, ws[i].1, overlap) by {
            assert(ws[j] == rest[j - 1]);
            if i > 0 {
                assert(ws[i] == rest[i - 1]);
            }
        }
    }
}

/// Where the items that a test keeps stand.
proof fn lemma_kept_places(s: Seq<Seq<char>>, p: spec_fn(Seq<char>) -> bool) -> (idx: Seq<int>)
    ensures
        idx.len() == s.filter(p).len(),
        forall|i: int|
            0 <= i < idx.len() ==> 0 <= #[trigger] idx[i] < s.len() && s.filter(p)[i] == s[idx[i]],
        forall|i: int, j: int|
            0 <= i < j < idx.len() ==> (#[trigger] idx[i]) < (#[trigger] idx[j]),
        forall|k: int| 0 <= k < s.len() && p(#[trigger] s[k]) ==> idx.contains(k),
    decreases s.len(),
{
    reveal(Seq::filter);
    if s.len() == 0 {
        Seq::empty()
    } else {
        let init = s.drop_last();
        let before = lemma_kept_places(init, p);
        let last = s.len() - 1;
        if p(s.last()) {
            let idx = before.push(last);
            assert forall|i: int| 0 <= i < idx.len() implies 0 <= #[trigger] idx[i] < s.len()
                && s.filter(p)[i] == s[idx[i]] by {
                if i < before.len() {
                    assert(idx[i] == before[i]);
                }
            }
            assert forall|i: int, j: int| 0 <= i < j < idx.len() implies (#[trigger] idx[i]) < (
            #[trigger] idx[j]) by {
                assert(idx[i] == before[i]);
                if j < before.len() {
                    assert(idx[j] == before[j]);
                }
            }
            assert forall|k: int| 0 <= k < s.len() && p(#[trigger] s[k]) implies idx.contains(
                k,
            ) by {
                if k < last {
                    assert(p(init[k]));
                    let i = choose|i: int| 0 <= i < before.len() && before[i] == k;
                    assert(idx[i] == k);
                } else {
                    assert(idx[before.len() as int] == k);
                }
            }
            idx
        } else {
            assert forall|k: int| 0 <= k < s.len() && p(#[trigger] s[k]) implies before.contains(
                k,
            ) by {
                assert(p(init[k]));
            }
            before
        }
    }
}

/// A chunk of more than 1800 characters is cut into windows of its body, that is its
/// text behind the heading prefix, or all of it if it does not begin so. Beside a
/// prefix of at most 1600 characters a window has the room that is left of 1800,
/// and 200 characters beside a longer one. Each window fills its room; the first
/// begins with the body and the last ends with it; and each but the first begins
/// before the end of the one before, by a third of the room but at most 200
/// characters, or at that end if the one before is no longer than that. Each window
/// that is not blank gives a piece, in this order: the prefix, and what the window
/// shows, without white space around it.
pub proof fn law_long_chunks_are_cut_into_windows(c: ChunkView) -> (r: (
    Seq<(int, int)>,
    Seq<int>,
))
    requires
        c.text.len() > 1800,
        c.text != heading_prefix(c.headings),
    ensures
        ({
            let (ws, idx) = r;
            let prefix = heading_prefix(c.headings);
            let n = prefix.len() as int;
            let body = if n <= c.text.len() && c.text.take(n) == prefix {
                c.text.skip(n)
            } else {
                c.text
            };
            let room = if n <= 1600 {
                1800 - n
            } else {
                200
            };
            let overlap = if room / 3 < 200 {
                room / 3
            } else {
                200
            };
            &&& ws.len() > 0
            &&& ws[0].0 == 0
            &&& ws[ws.len() - 1].1 == body.len()
            &&& forall|i: int|
                0 <= i < ws.len() ==> {
                    &&& 0 <= (#[trigger] ws[i]).0 < ws[i].1 <= body.len()
                    &&& fills_room(body, ws[i].0, ws[i].1, room)
                }
            &&& forall|i: int, j: int|
                0 <= i && j == i + 1 && j < ws.len() ==> (#[trigger] ws[j]).0 == (if (
                #[trigger] ws[i]).1 - ws[i].0 > overlap {
                    ws[i].1 - overlap
                } else {
                    ws[i].1
                })
            &&& pieces(c).len() == idx.len()
            &&& forall|i: int|
                0 <= i < idx.len() ==> {
                    &&& 0 <= #[trigger] idx[i] < ws.len()
                    &&& pieces(c)[i] == (ChunkView {
                        text: prefix + stripped(body.subrange(ws[idx[i]].0, ws[idx[i]].1)),
                        ..c
                    })
                }
            &&& forall|i: int, j: int|
                0 <= i < j < idx.len() ==> (#[trigger] idx[i]) < (#[trigger] idx[j])
            &&& forall|j: int, k: int|
                0 <= j < ws.len() && ws[j].0 <= k < ws[j].1 && !white_space(#[trigger] body[k])
                    ==> #[trigger] idx.contains(j)
        }),
{
    let prefix = heading_prefix(c.headings);
    let n = prefix.len() as int;
    let body = if n <= c.text.len() && c.text.take(n) == prefix {
        c.text.skip(n)
    } else {
        c.text
    };
    if n == c.text.len() {
        assert(c.text.take(n) == c.text);
    }
    let room = window_room(prefix.len());
    let overlap = window_overlap(room);
    assert(body == chunk_body(c));
    lemma_room(prefix.len());
    let ws = windows(body, 0, room, overlap);
    lemma_windows_follow(body, 0, room, overlap);
    assert forall|i: int| 0 <= i < ws.len() implies {
        &&& 0 <= (#[trigger] ws[i]).0 < ws[i].1 <= body.len()
        &&& fills_room(body, ws[i].0, ws[i].1, room)
    } by {
        law_windows_fill_their_room(body, ws[i].0, room);
    }
    let f = |w: (int, int)| stripped(body.subrange(w.0, w.1));
    let p = |t: Seq<char>| t.len() > 0;
    let all = ws.map_values(f);
    let idx = lemma_kept_places(all, p);
    assert(window_texts(body, ws) == all.filter(p));
    assert forall|i: int| 0 <= i < idx.len() implies {
        &&& 0 <= #[trigger] idx[i] < ws.len()
        &&& pieces(c)[i] == (ChunkView {
            text: prefix + stripped(body.subrange(ws[idx[i]].0, ws[idx[i]].1)),
            ..c
        })
    } by {
        assert(all[idx[i]] == f(ws[idx[i]]));
    }
    assert forall|j: int, k: int|
        0 <= j < ws.len() && ws[j].0 <= k < ws[j].1 && !white_space(
            #[trigger] body[k],
        ) implies #[trigger] idx.contains(j) by {
        let view = body.subrange(ws[j].0, ws[j].1);
        let (a, b) = lemma_trimmed(view, CharClass::WhiteSpace);
        assert(view[k - ws[j].0] == body[k]);
        assert(all[j] == stripped(view));
        assert(p(all[j]));
    }
    assert(ws[ws.len() - 1].1 == body.len());
    (ws, idx)
}

/// Every piece but the last of a long body without white space is as long as it may
/// be: it fills the 1800 characters, or has 200 characters of the body where the
/// prefix leaves less room. The first begins the body, and each further one goes
/// back into the one before by a third of the room, but at most 200 characters.
pub proof fn law_pieces_use_the_room(c: ChunkView, i: int)
    requires
        c.text.len() > 1800,
        begins_with(c.text, heading_prefix(c.headings)),
        heading_prefix(c.headings).len() < c.text.len(),
        forall|k: int|
            heading_prefix(c.headings).len() <= k < c.text.len() ==> !white_space(
                #[trigger] c.text[k],
            ),
        0 <= i,
        i + 1 < pieces(c).len(),
    ensures
        ({
            let n = heading_prefix(c.headings).len() as int;
            let full = if n <= 1600 {
                1800
            } else {
                n + 200
            };
            let overlap = if (full - n) / 3 < 200 {
                (full - n) / 3
            } else {
                200
            };
            let (one, two) = (pieces(c)[i].text, pieces(c)[i + 1].text);
            &&& one.len() == full
            &&& pieces(c)[0].text == c.text.take(full)
            &&& n + overlap < two.len()
            &&& one.skip(full - overlap) == two.subrange(n, n + overlap)
        }),
{
    let prefix = heading_prefix(c.headings);
    let n = prefix.len() as int;
    let body = c.text.skip(n);
    let room = window_room(prefix.len());
    let overlap = window_overlap(room);
    assert(body == chunk_body(c));
    lemma_room(prefix.len());
    let ws = windows(body, 0, room, overlap);
    assert forall|k: int| 0 <= k < body.len() implies !white_space(#[trigger] body[k]) by {
        assert(body[k] == c.text[n + k]);
    }
    lemma_windows_of_a_word(body, room, overlap);
    let texts = window_texts(body, ws);
    assert(pieces(c)[0].text == prefix + texts[0]);
    assert(pieces(c)[i].text == prefix + texts[i]);
    assert(pieces(c)[i + 1].text == prefix + texts[i + 1]);
    assert(c.text == prefix + body) by {
        assert(c.text.take(n) == prefix);
    }
    assert(texts[0] == body.subrange(ws[0].0, ws[0].1));
    assert(texts[i] == body.subrange(ws[i].0, ws[i].1));
    assert(texts[i + 1] == body.subrange(ws[i + 1].0, ws[i + 1].1));
    assert(ws[i].1 == ws[i].0 + room && ws[0].1 == room);
    lemma_overlapping_pieces(prefix, body, ws[i], ws[i + 1], room, overlap);
    assert(c.text.take(n + room) == prefix + body.subrange(0, room));
}

/// Windows that overlap show the same characters.
proof fn lemma_overlapping_pieces(
    prefix: Seq<char>,
    body: Seq<char>,
    v: (int, int),
    w: (int, int),
    room: int,
    overlap: int,
)
    requires
        0 <= v.0,
        v.1 == v.0 + room,
        w.0 == v.1 - overlap,
        0 <= overlap < room,
        v.1 < w.1 <= body.len(),
    ensures
        ({
            let n = prefix.len() as int;
            let one = prefix + body.subrange(v.0, v.1);
            let two = prefix + body.subrange(w.0, w.1);
            &&& one.len() == n + room
            &&& n + overlap < two.len()
            &&& one.skip(n + room - overlap) == two.subrange(n, n + overlap)
        }),
{
    let n = prefix.len() as int;
    let one = prefix + body.subrange(v.0, v.1);
    let two = prefix + body.subrange(w.0, w.1);
    assert(one.skip(n + room - overlap) == body.subrange(w.0, v.1));
    assert(two.subrange(n, n + overlap) == body.subrange(w.0, v.1));
}

/// The windows of a body without white space: each but the last takes all its room,
/// and each shows all that is in it.
proof fn lemma_windows_of_a_word(body: Seq<char>, room: int, overlap: int)
    requires
        body.len() > 0,
        0 <= overlap < room,
        forall|k: int| 0 <= k < body.len() ==> !white_space(#[trigger] body[k]),
    ensures
        ({
            let ws = windows(body, 0, room, overlap);
            &&& ws.len() > 0
            &&& ws[0].0 == 0
            &&& window_texts(body, ws).len() == ws.len()
            &&& forall|j: int|
                0 <= j < ws.len() ==> #[trigger] window_texts(body, ws)[j] == body.subrange(
                    ws[j].0,
                    ws[j].1,
                )
            &&& forall|j: int|
                0 <= j < ws.len() - 1 ==> (#[trigger] ws[j]).1 == ws[j].0 + room && 0 <= ws[j].0
            &&& forall|j: int, k: int|
                0 <= j && k == j + 1 && k < ws.len() ==> (#[trigger] ws[k]).0 == (
                #[trigger] ws[j]).1 - overlap && ws[j].1 < ws[k].1 <= body.len()
        }),
{
    let ws = windows(body, 0, room, overlap);
    lemma_windows_follow(body, 0, room, overlap);
    let f = |w: (int, int)| stripped(body.subrange(w.0, w.1));
    let p = |t: Seq<char>| t.len() > 0;
    let all = ws.map_values(f);
    assert forall|j: int| 0 <= j < all.len() implies #[trigger] all[j] == body.subrange(
        ws[j].0,
        ws[j].1,
    ) && p(all[j]) by {
        let view = body.subrange(ws[j].0, ws[j].1);
        assert(view[0] == body[ws[j].0]);
        assert(view.last() == body[ws[j].1 - 1]);
        law_trimming_leaves_the_middle(seq![], view, seq![], CharClass::WhiteSpace);
        assert(Seq::<char>::empty() + view + Seq::<char>::empty() == view);
    }
    lemma_all_kept(all, p);
    assert(window_texts(body, ws) == all);
    assert forall|j: int| 0 <= j < ws.len() - 1 implies (#[trigger] ws[j]).1 == ws[j].0 + room
        && 0 <= ws[j].0 by {
        law_windows_fill_their_room(body, ws[j].0, room);
        assert(ws[j].1 < body.len());
        assert(!white_space(body[ws[j].1]));
    }
    assert forall|j: int, k: int| 0 <= j && k == j + 1 && k < ws.len() implies (
    #[trigger] ws[k]).0 == (#[trigger] ws[j]).1 - overlap && ws[j].1 < ws[k].1
        <= body.len() by {
        assert(ws[j].1 == ws[j].0 + room);
        if k < ws.len() - 1 {
            assert(ws[k].1 == ws[k].0 + room);
        }
    }
}

proof fn lemma_all_kept(s: Seq<Seq<char>>, p: spec_fn(Seq<char>) -> bool)
    requires
        forall|i: int| 0 <= i < s.len() ==> p(#[trigger] s[i]),
    ensures
        s.filter(p) == s,
    decreases s.len(),
{
    reveal(Seq::filter);
    if s.len() > 0 {
        let init = s.drop_last();
        assert forall|i: int| 0 <= i < init.len() implies p(#[trigger] init[i]) by {
            assert(init[i] == s[i]);
        }
        lemma_all_kept(init, p);
        assert(p(s[s.len() - 1]));
        assert(init.push(s.last()) == s);
    }
}

/// A chunk of at most 1800 characters is not cut, nor is one without a body. Chunks are cut one by one, in
/// their order, and all that comes out is numbered.
pub proof fn law_chunks_are_cut_one_by_one(chunks: Seq<ChunkView>, c: ChunkView)
    ensures
        c.text.len() <= 1800 || c.text == heading_prefix(c.headings) ==> pieces(c) == seq![c],
        resized(Seq::<ChunkView>::empty()) == Seq::<ChunkView>::empty(),
        resized(chunks.push(c)).len() == resized(chunks).len() + pieces(c).len(),
        forall|i: int|
            0 <= i < resized(chunks).len() ==> #[trigger] resized(chunks.push(c))[i] == resized(
                chunks,
            )[i],
        forall|i: int|
            0 <= i < pieces(c).len() ==> resized(chunks.push(c))[resized(chunks).len() + i] == (
            ChunkView { chunk_index: resized(chunks).len() + i as nat, ..#[trigger] pieces(c)[i] }),
{
    if c.text == heading_prefix(c.headings) {
        assert(c.text.take(c.text.len() as int) == c.text);
    }
    assert(chunks.push(c).drop_last() == chunks);
    assert(all_pieces(chunks.push(c)) == all_pieces(chunks) + pieces(c));
    assert(resized(Seq::<ChunkView>::empty()) == Seq::<ChunkView>::empty());
}

} // verus!
