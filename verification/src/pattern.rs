//! The two patterns of the markdown dialect: headings and front matter.

use crate::text::{begins_with, chars_of, law_trimming_leaves_the_middle, lemma_span_is};
use crate::text::{lemma_with_returns_add, lemma_with_returns_feed, lemma_with_returns_first};
use crate::text::{lemma_with_returns_none, span, trim, trimmed, white_space, with_returns};
use crate::text::CharClass;
use vstd::prelude::*;
use vstd::string::StrSliceExecFns;

verus! {

/// A heading line: one to six `#`, white space, a title.
pub const HEADING_PATTERN: &'static str = r"^(#{1,6})\s+(.+?)\s*$";

/// A block of front matter between two fences, at the start of a document.
pub const FRONT_MATTER_PATTERN: &'static str = r"(?s)^---\r?\n(.*?)\r?\n---\r?\n?";

/// What `HEADING_PATTERN` finds in a line: the marks, and the title without the
/// white space around it. Where only white space follows the marks, its last
/// character is the title, if there is another one before it.
pub open spec fn heading_match(line: Seq<char>) -> Option<(Seq<char>, Seq<char>)> {
    let n = span(line, CharClass::Only('#')) as int;
    let rest = line.skip(n);
    let gap = span(rest, CharClass::WhiteSpace) as int;
    if n < 1 || n > 6 || gap < 1 {
        None
    } else if gap < rest.len() {
        Some((line.take(n), trimmed(rest, CharClass::WhiteSpace)))
    } else if gap > 1 {
        Some((line.take(n), seq![rest.last()]))
    } else {
        None
    }
}

/// The length of the fence that `s` begins with, with its line ending; 0 if
/// `s` begins with none.
pub open spec fn opening_fence(s: Seq<char>) -> int {
    if begins_with(s, seq!['-', '-', '-', '\n']) {
        4
    } else if begins_with(s, seq!['-', '-', '-', '\r', '\n']) {
        5
    } else {
        0
    }
}

/// The length of the line ending and the fence that `s` begins with; 0 if `s`
/// begins with none.
pub open spec fn closing_fence(s: Seq<char>) -> int {
    if begins_with(s, seq!['\n', '-', '-', '-']) {
        4
    } else if begins_with(s, seq!['\r', '\n', '-', '-', '-']) {
        5
    } else {
        0
    }
}

/// The first place at or after `from` at which a closing fence begins, or the
/// length of `s`.
pub open spec fn closing_at(s: Seq<char>, from: int) -> int
    decreases s.len() - from,
{
    if from < 0 || from >= s.len() {
        s.len() as int
    } else if closing_fence(s.skip(from)) > 0 {
        from
    } else {
        closing_at(s, from + 1)
    }
}

/// The place `at`, or the next one if `c` stands at `at`.
pub open spec fn past(s: Seq<char>, at: int, c: char) -> int {
    if 0 <= at < s.len() && s[at] == c {
        at + 1
    } else {
        at
    }
}

/// What `FRONT_MATTER_PATTERN` finds in a document: the whole block with its
/// fences and the line ending after them, and what stands between the fences.
pub open spec fn front_matter_match(s: Seq<char>) -> Option<(Seq<char>, Seq<char>)> {
    let start = opening_fence(s);
    let end = closing_at(s, start);
    if start == 0 || end >= s.len() {
        None
    } else {
        let fence_end = end + closing_fence(s.skip(end));
        let block_end = past(s, past(s, fence_end, '\r'), '\n');
        Some((s.take(block_end), s.subrange(start, end)))
    }
}

/// The groups of a match, each by its characters.
pub open spec fn groups_view(groups: Option<Vec<Option<String>>>) -> Option<
    Seq<Option<Seq<char>>>,
> {
    match groups {
        Some(v) => Some(
            v@.map_values(
                |g: Option<String>|
                    match g {
                        Some(text) => Some(text@),
                        None => None,
                    },
            ),
        ),
        None => None,
    }
}

/// The groups of a match of `HEADING_PATTERN` in `line`.
pub open spec fn heading_groups(line: Seq<char>) -> Option<Seq<Option<Seq<char>>>> {
    match heading_match(line) {
        Some((marks, title)) => Some(seq![Some(line), Some(marks), Some(title)]),
        None => None,
    }
}

/// The groups of a match of `FRONT_MATTER_PATTERN` in `s`.
pub open spec fn front_matter_groups(s: Seq<char>) -> Option<Seq<Option<Seq<char>>>> {
    match front_matter_match(s) {
        Some((block, inner)) => Some(seq![Some(block), Some(inner)]),
        None => None,
    }
}

/// `regex::Regex::new`, then `Regex::captures`: the groups of the leftmost match
/// of `pattern` in `haystack`, the whole match first. For the two patterns of
/// this module the contract says what they are; the first one is asked of single
/// lines only.
#[verifier::external_body]
fn captures(pattern: &str, haystack: &str) -> (r: Option<Vec<Option<String>>>)
    requires
        pattern@ == FRONT_MATTER_PATTERN@ || (pattern@ == HEADING_PATTERN@
            && !haystack@.contains('\n')),
    ensures
        pattern@ == HEADING_PATTERN@ ==> groups_view(r) == heading_groups(haystack@),
        pattern@ == FRONT_MATTER_PATTERN@ ==> groups_view(r) == front_matter_groups(haystack@),
{
    let caps = regex::Regex::new(pattern).unwrap().captures(haystack)?;
    Some(caps.iter().map(|m| m.map(|m| m.as_str().to_string())).collect())
}

/// The level and the title of a heading line.
pub open spec fn heading_of(line: Seq<char>) -> Option<(nat, Seq<char>)> {
    match heading_match(line) {
        Some((marks, title)) => Some((marks.len(), trimmed(title, CharClass::WhiteSpace))),
        None => None,
    }
}

/// The level and the title of `line` if it is a heading.
pub fn heading(line: &str) -> (r: Option<(usize, String)>)
    requires
        !line@.contains('\n'),
    ensures
        match r {
            Some((level, title)) => heading_of(line@) == Some((level as nat, title@)),
            None => heading_of(line@) is None,
        },
{
    // Most lines are no headings: those need no matching.
    let v = chars_of(line);
    if v.len() == 0 || v[0] != '#' {
        return None;
    }
    match captures(HEADING_PATTERN, line) {
        Some(groups) => {
            let ghost found = groups_view(Some(groups))->0;
            assert(found.len() == 3 && found[1] is Some && found[2] is Some);
            match (&groups[1], &groups[2]) {
                (Some(marks), Some(title)) => Some(
                    (marks.as_str().unicode_len(), trim(title.as_str(), CharClass::WhiteSpace)),
                ),
                _ => None,
            }
        },
        None => None,
    }
}

/// The block of front matter that `content` begins with: its length in
/// characters, and what stands between the fences.
pub fn front_matter(content: &str) -> (r: Option<(usize, String)>)
    ensures
        match r {
            Some((length, inner)) => {
                &&& length <= content@.len()
                &&& front_matter_match(content@) == Some((content@.take(length as int), inner@))
            },
            None => front_matter_match(content@) is None,
        },
{
    match captures(FRONT_MATTER_PATTERN, content) {
        Some(groups) => {
            let ghost found = groups_view(Some(groups))->0;
            assert(found.len() == 2 && found[0] is Some && found[1] is Some);
            proof {
                lemma_closing_at(content@, opening_fence(content@));
            }
            match (&groups[0], &groups[1]) {
                (Some(block), Some(inner)) => Some((block.as_str().unicode_len(), inner.clone())),
                _ => None,
            }
        },
        None => None,
    }
}

/// `closing_at` is the first place at or after `from` at which a closing fence
/// begins.
pub proof fn lemma_closing_at(s: Seq<char>, from: int)
    requires
        0 <= from <= s.len(),
    ensures
        from <= closing_at(s, from) <= s.len(),
        forall|i: int|
            from <= i < closing_at(s, from) ==> closing_fence(#[trigger] s.skip(i)) == 0,
        closing_at(s, from) < s.len() ==> closing_fence(s.skip(closing_at(s, from))) > 0,
    decreases s.len() - from,
{
    if from < s.len() && closing_fence(s.skip(from)) == 0 {
        lemma_closing_at(s, from + 1);
    }
}

/// A closing fence is looked for in what follows `from`.
proof fn lemma_closing_at_shift(s: Seq<char>, from: int)
    requires
        0 <= from <= s.len(),
    ensures
        closing_at(s, from) == from + closing_at(s.skip(from), 0),
    decreases s.len() - from,
{
    let t = s.skip(from);
    assert(t.skip(0) == t);
    if from == 0 {
        assert(t == s);
    } else if from < s.len() && closing_fence(t) == 0 {
        lemma_closing_at_shift(s, from + 1);
        lemma_closing_at_shift(t, 1);
        assert(t.skip(1) == s.skip(from + 1));
    }
}

/// Three dashes stay three dashes, and nothing else becomes them.
proof fn lemma_dashes_with_returns(s: Seq<char>)
    ensures
        begins_with(with_returns(s), seq!['-', '-', '-']) == begins_with(s, seq!['-', '-', '-']),
{
    let dashes = seq!['-', '-', '-'];
    let w = with_returns(s);
    if s.len() > 0 {
        lemma_with_returns_first(s);
        let s1 = s.drop_first();
        if s[0] == '-' {
            assert(w[0] == '-');
            if s1.len() > 0 {
                lemma_with_returns_first(s1);
                let s2 = s1.drop_first();
                let w1 = with_returns(s1);
                assert(w1[0] == w[1]);
                if s1[0] == '-' && s2.len() > 0 {
                    lemma_with_returns_first(s2);
                    assert(with_returns(s2)[0] == w1.skip(1)[0]);
                    assert(w1.skip(1)[0] == w[2]);
                }
            }
        }
    }
    if begins_with(s, dashes) {
        assert(s.take(3)[0] == '-' && s.take(3)[1] == '-' && s.take(3)[2] == '-');
        assert(s[0] == '-' && s[1] == '-' && s[2] == '-');
        assert(w.take(3) == dashes);
    }
    if begins_with(w, dashes) {
        assert(w.take(3)[0] == '-' && w.take(3)[1] == '-' && w.take(3)[2] == '-');
        assert(w[0] == '-' && w[1] == '-' && w[2] == '-');
        assert(s[0] == '-');
        assert(s[1] == '-');
        assert(s[2] == '-');
        assert(s.take(3) == dashes);
    }
}

/// A fence begins where a line ending and three dashes do.
proof fn lemma_closing_fence(s: Seq<char>)
    ensures
        closing_fence(s) == 4 <==> s.len() > 0 && s[0] == '\n' && begins_with(
            s.skip(1),
            seq!['-', '-', '-'],
        ),
        closing_fence(s) == 5 <==> s.len() > 1 && s[0] == '\r' && s[1] == '\n' && begins_with(
            s.skip(2),
            seq!['-', '-', '-'],
        ),
        closing_fence(s) == 0 || closing_fence(s) == 4 || closing_fence(s) == 5,
{
    let dashes = seq!['-', '-', '-'];
    if begins_with(s, seq!['\n', '-', '-', '-']) {
        assert(s.take(4)[0] == s[0]);
        assert(s.skip(1).take(3) == s.take(4).skip(1));
        assert(s.take(4).skip(1) == dashes);
    }
    if begins_with(s, seq!['\r', '\n', '-', '-', '-']) {
        assert(s.take(5)[0] == s[0] && s.take(5)[1] == s[1]);
        assert(s.skip(2).take(3) == s.take(5).skip(2));
        assert(s.take(5).skip(2) == dashes);
    }
    if s.len() > 0 && s[0] == '\n' && begins_with(s.skip(1), dashes) {
        assert(s.take(4) == seq![s[0]] + s.skip(1).take(3));
        assert(s.take(4) == seq!['\n', '-', '-', '-']);
    }
    if s.len() > 1 && s[0] == '\r' && s[1] == '\n' && begins_with(s.skip(2), dashes) {
        assert(s.take(5) == seq![s[0], s[1]] + s.skip(2).take(3));
        assert(s.take(5) == seq!['\r', '\n', '-', '-', '-']);
    }
}

/// The closing fence is found behind the same text.
proof fn lemma_closing_at_with_returns(t: Seq<char>)
    requires
        !t.contains('\r'),
    ensures
        0 <= closing_at(t, 0) <= t.len(),
        closing_at(with_returns(t), 0) == with_returns(t.take(closing_at(t, 0))).len(),
    decreases t.len(),
{
    let w = with_returns(t);
    lemma_closing_at(t, 0);
    assert(t.skip(0) == t);
    assert(w.skip(0) == w);
    if t.len() > 0 {
        let rest = t.drop_first();
        let found = t.take(closing_at(t, 0));
        assert(t.skip(1) == rest);
        assert(t.contains(t[0]));
        lemma_with_returns_first(t);
        lemma_closing_fence(t);
        lemma_closing_fence(w);
        lemma_dashes_with_returns(rest);
        if closing_fence(t) > 0 {
            assert(closing_fence(w) == 5);
            assert(found == Seq::<char>::empty());
        } else {
            assert(!rest.contains('\r')) by {
                assert forall|i: int| 0 <= i < rest.len() implies rest[i] != '\r' by {
                    assert(t.contains(t[i + 1]));
                }
            }
            lemma_closing_at_with_returns(rest);
            lemma_closing_at_shift(t, 1);
            assert(closing_fence(w) == 0);
            lemma_closing_at_shift(w, 1);
            let later = rest.take(closing_at(rest, 0));
            assert(found == seq![t[0]] + later);
            assert(found.drop_first() == later);
            if t[0] == '\n' {
                let w1 = w.skip(1);
                assert(w1.skip(1) == w.skip(2));
                assert(w1[0] == '\n');
                lemma_closing_fence(w1);
                assert(closing_fence(w1) == 0);
                assert(w1.skip(0) == w1);
                lemma_closing_at_shift(w1, 1);
            }
        }
    }
}

/// The line ending that `s` begins with, if it does.
spec fn line_end(s: Seq<char>) -> Seq<char> {
    s.take(past(s, past(s, 0, '\r'), '\n'))
}

/// What is found where the parts of front matter are known.
proof fn lemma_match_of_parts(
    open: Seq<char>,
    inner: Seq<char>,
    fence: Seq<char>,
    after: Seq<char>,
)
    requires
        ({
            let s = open + inner + fence + after;
            let end = open.len() + inner.len();
            &&& opening_fence(s) == open.len()
            &&& open.len() > 0
            &&& closing_at(s, open.len() as int) == end
            &&& closing_fence(s.skip(end as int)) == fence.len()
            &&& fence.len() > 0
        }),
    ensures
        front_matter_match(open + inner + fence + after) == Some(
            (open + inner + fence + line_end(after), inner),
        ),
{
    let head = open + inner + fence;
    let s = head + after;
    let n = head.len() as int;
    let k = past(after, 0, '\r');
    assert(0 < after.len() ==> s[n] == after[0]);
    assert(past(s, n, '\r') == n + k);
    assert(k < after.len() ==> s[n + k] == after[k]);
    let m = past(after, k, '\n');
    assert(past(s, n + k, '\n') == n + m);
    assert(s.take(n + m) == head + after.take(m));
    assert(s.subrange(open.len() as int, (open.len() + inner.len()) as int) == inner);
}

/// A line ending becomes a Windows line ending.
proof fn lemma_line_end_with_returns(after: Seq<char>)
    requires
        !after.contains('\r'),
    ensures
        line_end(with_returns(after)) == with_returns(line_end(after)),
{
    let w = with_returns(after);
    assert(with_returns(Seq::<char>::empty()) == Seq::<char>::empty());
    if after.len() == 0 {
        assert(line_end(after) == Seq::<char>::empty());
        assert(line_end(w) == Seq::<char>::empty());
    } else {
        lemma_with_returns_first(after);
        assert(after.contains(after[0]));
        if after[0] == '\n' {
            lemma_with_returns_feed();
            assert(line_end(after) == seq!['\n']);
            assert(line_end(w) == seq!['\r', '\n']);
        } else {
            assert(line_end(after) == Seq::<char>::empty());
            assert(line_end(w) == Seq::<char>::empty());
        }
    }
}

/// No part of a text without carriage returns has one.
proof fn lemma_part_without_returns(s: Seq<char>, from: int, to: int)
    requires
        !s.contains('\r'),
        0 <= from <= to <= s.len(),
    ensures
        !s.subrange(from, to).contains('\r'),
{
    let part = s.subrange(from, to);
    assert forall|i: int| 0 <= i < part.len() implies part[i] != '\r' by {
        assert(s.contains(s[from + i]));
    }
}

/// Where a closing fence is found, there is a line feed and three dashes, and with
/// a carriage return they are a closing fence, too.
proof fn lemma_fence_with_returns(tail: Seq<char>)
    requires
        !tail.contains('\r'),
        closing_fence(tail) > 0,
    ensures
        tail.len() >= 4,
        closing_fence(tail) == 4,
        closing_fence(with_returns(tail)) == 5,
        with_returns(tail) == with_returns(tail.take(4)) + with_returns(tail.skip(4)),
        with_returns(tail.take(4)).len() == 5,
{
    let dashes = seq!['-', '-', '-'];
    lemma_closing_fence(tail);
    assert(tail.len() > 0 && tail.contains(tail[0]));
    lemma_with_returns_first(tail);
    lemma_closing_fence(with_returns(tail));
    assert(tail.drop_first() == tail.skip(1));
    lemma_dashes_with_returns(tail.skip(1));
    assert(tail == tail.take(4) + tail.skip(4));
    lemma_with_returns_add(tail.take(4), tail.skip(4));
    assert(tail.take(4) == seq!['\n'] + tail.skip(1).take(3));
    lemma_with_returns_add(seq!['\n'], dashes);
    lemma_with_returns_none(dashes);
    lemma_with_returns_feed();
}

/// The parts of a document with front matter get their carriage returns one by
/// one.
proof fn lemma_parts_with_returns(inner: Seq<char>, fence: Seq<char>, after: Seq<char>)
    ensures
        with_returns(seq!['-', '-', '-', '\n'] + inner + fence + after) == seq![
            '-',
            '-',
            '-',
            '\r',
            '\n',
        ] + with_returns(inner) + with_returns(fence) + with_returns(after),
{
    let plain = seq!['-', '-', '-', '\n'];
    lemma_with_returns_add(plain + inner + fence, after);
    lemma_with_returns_add(plain + inner, fence);
    lemma_with_returns_add(plain, inner);
    lemma_with_returns_plain();
}

/// What is found with a closing fence before `tail`, with plain line ends.
proof fn lemma_found_plain(inner: Seq<char>, tail: Seq<char>)
    requires
        !tail.contains('\r'),
        closing_fence(tail) > 0,
        closing_at(inner + tail, 0) == inner.len(),
    ensures
        front_matter_match(seq!['-', '-', '-', '\n'] + inner + tail) == Some(
            (
                seq!['-', '-', '-', '\n'] + inner + tail.take(4) + line_end(tail.skip(4)),
                inner,
            ),
        ),
{
    let open = seq!['-', '-', '-', '\n'];
    let s = open + inner + tail;
    lemma_fence_with_returns(tail);
    let (fence, after) = (tail.take(4), tail.skip(4));
    assert(s == open + inner + fence + after);
    assert(s.take(4) == open);
    assert(s.skip(4) == inner + tail);
    lemma_closing_at_shift(s, 4);
    assert(s.skip((4 + inner.len()) as int) == tail);
    lemma_match_of_parts(open, inner, fence, after);
}

/// What is found with a closing fence before `tail`, with Windows line ends.
proof fn lemma_found_windows(inner: Seq<char>, tail: Seq<char>)
    requires
        !inner.contains('\r'),
        !tail.contains('\r'),
        closing_fence(tail) > 0,
        closing_at(inner + tail, 0) == inner.len(),
    ensures
        front_matter_match(with_returns(seq!['-', '-', '-', '\n'] + inner + tail)) == Some(
            (
                with_returns(
                    seq!['-', '-', '-', '\n'] + inner + tail.take(4) + line_end(tail.skip(4)),
                ),
                with_returns(inner),
            ),
        ),
{
    let open = seq!['-', '-', '-', '\r', '\n'];
    lemma_fence_with_returns(tail);
    let (fence, after) = (tail.take(4), tail.skip(4));
    let (inner_w, tail_w) = (with_returns(inner), with_returns(tail));
    let (fence_w, after_w) = (with_returns(fence), with_returns(after));
    let s = seq!['-', '-', '-', '\n'] + inner + tail;
    assert(s == seq!['-', '-', '-', '\n'] + inner + fence + after);
    lemma_parts_with_returns(inner, fence, after);
    let w = with_returns(s);
    assert(w == open + inner_w + fence_w + after_w);
    assert(w.take(5) == open);
    assert(w.take(4)[3] == '\r');
    assert(opening_fence(w) == 5);
    assert(w.skip(5) == inner_w + tail_w);
    lemma_with_returns_add(inner, tail);
    assert forall|i: int| 0 <= i < (inner + tail).len() implies (inner + tail)[i] != '\r' by {
        if i < inner.len() {
            assert(inner.contains(inner[i]));
        } else {
            assert(tail.contains(tail[i - inner.len()]));
        }
    }
    lemma_closing_at_with_returns(inner + tail);
    assert((inner + tail).take(inner.len() as int) == inner);
    lemma_closing_at_shift(w, 5);
    assert(w.skip((5 + inner_w.len()) as int) == tail_w);
    lemma_match_of_parts(open, inner_w, fence_w, after_w);
    assert(after == tail.subrange(4, tail.len() as int));
    lemma_part_without_returns(tail, 4, tail.len() as int);
    lemma_line_end_with_returns(after);
    lemma_parts_with_returns(inner, fence, line_end(after));
}

/// Front matter is found in a document with Windows line ends as it is in the
/// same document with plain ones.
pub proof fn lemma_front_matter_with_returns(s: Seq<char>)
    requires
        !s.contains('\r'),
    ensures
        front_matter_match(with_returns(s)) == (match front_matter_match(s) {
            Some((block, inner)) => Some((with_returns(block), with_returns(inner))),
            None => None,
        }),
        front_matter_match(s) matches Some((block, inner)) ==> {
            &&& block.len() <= s.len()
            &&& block == s.take(block.len() as int)
            &&& !inner.contains('\r')
        },
{
    let w = with_returns(s);
    let plain = seq!['-', '-', '-', '\n'];
    lemma_opening_with_returns(s);
    if begins_with(s, plain) {
        let body = s.skip(4);
        assert(body == s.subrange(4, s.len() as int));
        lemma_part_without_returns(s, 4, s.len() as int);
        lemma_closing_at(body, 0);
        let n = closing_at(body, 0);
        if n < body.len() {
            let (inner, tail) = (body.take(n), body.skip(n));
            assert(inner == body.subrange(0, n));
            assert(tail == body.subrange(n, body.len() as int));
            lemma_part_without_returns(body, 0, n);
            lemma_part_without_returns(body, n, body.len() as int);
            assert(inner + tail == body);
            assert(s == plain + inner + tail);
            lemma_found_plain(inner, tail);
            lemma_found_windows(inner, tail);
            lemma_fence_with_returns(tail);
            let block = plain + inner + tail.take(4) + line_end(tail.skip(4));
            assert(block == s.take(block.len() as int));
        } else {
            lemma_closing_at_shift(s, 4);
            lemma_closing_at_shift(w, 5);
            assert(w.skip(5) == with_returns(body));
            lemma_closing_at_with_returns(body);
            assert(body.take(n) == body);
        }
    }
}

/// The fence that opens front matter, with a carriage return.
proof fn lemma_with_returns_plain()
    ensures
        with_returns(seq!['-', '-', '-', '\n']) == seq!['-', '-', '-', '\r', '\n'],
{
    let dashes = seq!['-', '-', '-'];
    assert(seq!['-', '-', '-', '\n'] == dashes + seq!['\n']);
    lemma_with_returns_add(dashes, seq!['\n']);
    lemma_with_returns_none(dashes);
    lemma_with_returns_feed();
    assert(dashes + seq!['\r', '\n'] == seq!['-', '-', '-', '\r', '\n']);
}

/// An opening fence stays one, and nothing else becomes one.
proof fn lemma_opening_with_returns(s: Seq<char>)
    requires
        !s.contains('\r'),
    ensures
        begins_with(s, seq!['-', '-', '-', '\n']) ==> {
            &&& opening_fence(s) == 4
            &&& opening_fence(with_returns(s)) == 5
            &&& with_returns(s) == seq!['-', '-', '-', '\r', '\n'] + with_returns(s.skip(4))
        },
        !begins_with(s, seq!['-', '-', '-', '\n']) ==> {
            &&& opening_fence(s) == 0
            &&& opening_fence(with_returns(s)) == 0
        },
{
    let plain = seq!['-', '-', '-', '\n'];
    let windows = seq!['-', '-', '-', '\r', '\n'];
    let dashes = seq!['-', '-', '-'];
    let w = with_returns(s);
    lemma_with_returns_plain();
    if begins_with(s, plain) {
        assert(s == plain + s.skip(4));
        lemma_with_returns_add(plain, s.skip(4));
        assert(w.take(5) == windows);
        assert(w.take(4)[3] == '\r');
    } else {
        if begins_with(s, windows) {
            assert(s.take(5)[3] == s[3]);
            assert(s.contains(s[3]));
        }
        lemma_dashes_with_returns(s);
        if begins_with(w, plain) || begins_with(w, windows) {
            assert(w.take(3) == dashes) by {
                if begins_with(w, plain) {
                    assert(w.take(3) == w.take(4).take(3));
                    assert(plain.take(3) == dashes);
                } else {
                    assert(w.take(3) == w.take(5).take(3));
                    assert(windows.take(3) == dashes);
                }
            }
            let rest = s.skip(3);
            assert(s == dashes + rest);
            lemma_with_returns_add(dashes, rest);
            lemma_with_returns_none(dashes);
            assert(w == dashes + with_returns(rest));
            if begins_with(w, plain) {
                assert(w.take(4)[3] == w[3]);
            } else {
                assert(w.take(5)[3] == w[3]);
            }
            assert(w[3] == with_returns(rest)[0]);
            lemma_with_returns_first(rest);
            assert(s[3] == rest[0]);
            assert(s.contains(s[3]));
            assert(rest[0] == '\n');
            assert(s.take(4) == plain);
        }
    }
}

/// So many `#`.
pub open spec fn marks(level: nat) -> Seq<char> {
    Seq::new(level, |i: int| '#')
}

/// One to six `#`, white space, and a title make a heading of that level; white
/// space behind the title does not count.
pub proof fn law_headings_are_read(
    level: nat,
    gap: Seq<char>,
    title: Seq<char>,
    tail: Seq<char>,
)
    requires
        1 <= level <= 6,
        gap.len() > 0,
        forall|i: int| 0 <= i < gap.len() ==> white_space(#[trigger] gap[i]),
        title.len() > 0,
        !white_space(title[0]),
        !white_space(title.last()),
        forall|i: int| 0 <= i < tail.len() ==> white_space(#[trigger] tail[i]),
    ensures
        heading_of(marks(level) + gap + title + tail) == Some((level, title)),
{
    let line = marks(level) + gap + title + tail;
    let rest = gap + title + tail;
    let n = level as int;
    lemma_marks(level, rest);
    assert(line == marks(level) + rest);
    let g = gap.len() as int;
    assert forall|i: int| 0 <= i < g implies CharClass::WhiteSpace.has(#[trigger] rest[i]) by {
        assert(rest[i] == gap[i]);
    }
    assert(rest[g] == title[0]);
    lemma_span_is(rest, CharClass::WhiteSpace, g);
    law_trimming_leaves_the_middle(gap, title, tail, CharClass::WhiteSpace);
    law_trimming_leaves_the_middle(seq![], title, seq![], CharClass::WhiteSpace);
    assert(Seq::<char>::empty() + title + Seq::<char>::empty() == title);
}

/// Where only white space follows the marks, there is a heading without a title,
/// if that is more than one character.
pub proof fn law_headings_without_a_title(level: nat, gap: Seq<char>)
    requires
        1 <= level <= 6,
        forall|i: int| 0 <= i < gap.len() ==> white_space(#[trigger] gap[i]),
    ensures
        gap.len() > 1 ==> heading_of(marks(level) + gap) == Some((level, Seq::<char>::empty())),
        gap.len() <= 1 ==> heading_of(marks(level) + gap) is None,
{
    lemma_marks(level, gap);
    lemma_span_is(gap, CharClass::WhiteSpace, gap.len() as int);
    if gap.len() > 1 {
        let last = seq![gap.last()];
        assert(white_space(gap[gap.len() - 1]));
        law_trimming_leaves_the_middle(last, seq![], seq![], CharClass::WhiteSpace);
        assert(last + Seq::<char>::empty() + Seq::<char>::empty() == last);
    }
}

/// A line that does not begin with `#` is no heading; neither are marks with
/// something else than white space behind them, nor more than six marks.
pub proof fn law_other_lines_are_no_headings(line: Seq<char>, level: nat, rest: Seq<char>)
    requires
        rest.len() == 0 || rest[0] != '#',
        rest.len() == 0 || !white_space(rest[0]) || level > 6,
    ensures
        line.len() == 0 || line[0] != '#' ==> heading_of(line) is None,
        heading_of(marks(level) + rest) is None,
{
    if line.len() == 0 || line[0] != '#' {
        lemma_span_is(line, CharClass::Only('#'), 0);
    }
    lemma_marks(level, rest);
    if rest.len() == 0 || !white_space(rest[0]) {
        lemma_span_is(rest, CharClass::WhiteSpace, 0);
    }
}

/// The marks that a line begins with are found, and what follows them.
proof fn lemma_marks(level: nat, rest: Seq<char>)
    requires
        rest.len() == 0 || rest[0] != '#',
    ensures
        span(marks(level) + rest, CharClass::Only('#')) == level,
        (marks(level) + rest).take(level as int) == marks(level),
        (marks(level) + rest).skip(level as int) == rest,
{
    let line = marks(level) + rest;
    let n = level as int;
    assert forall|i: int| 0 <= i < n implies CharClass::Only('#').has(#[trigger] line[i]) by {
        assert(line[i] == marks(level)[i]);
    }
    if rest.len() > 0 {
        assert(line[n] == rest[0]);
    }
    lemma_span_is(line, CharClass::Only('#'), n);
    assert(line.take(n) == marks(level));
    assert(line.skip(n) == rest);
}

/// `s` has a line feed and three dashes at the place `i`.
pub open spec fn fence_at(s: Seq<char>, i: int) -> bool {
    &&& 0 <= i
    &&& i + 3 < s.len()
    &&& s[i] == '\n'
    &&& s[i + 1] == '-'
    &&& s[i + 2] == '-'
    &&& s[i + 3] == '-'
}

/// The parts of a document that has front matter: a line of three dashes; a block
/// in which no line begins with three dashes; the next line end and three dashes; a
/// line end, or a single carriage return, or nothing where none of these follows;
/// and the rest.
pub open spec fn is_front_matter(
    open: Seq<char>,
    block: Seq<char>,
    close: Seq<char>,
    end: Seq<char>,
    rest: Seq<char>,
) -> bool {
    &&& open == seq!['-', '-', '-', '\n'] || open == seq!['-', '-', '-', '\r', '\n']
    &&& close == seq!['\r', '\n', '-', '-', '-'] || (close == seq!['\n', '-', '-', '-'] && (
    block.len() == 0 || block.last() != '\r'))
    &&& forall|i: int| 0 <= i < block.len() ==> !#[trigger] fence_at(block + close, i)
    &&& {
        ||| end == seq!['\n']
        ||| end == seq!['\r', '\n']
        ||| end == seq!['\r'] && (rest.len() == 0 || rest[0] != '\n')
        ||| end == Seq::<char>::empty() && (rest.len() == 0 || (rest[0] != '\n' && rest[0]
            != '\r'))
    }
}

/// What begins at a place is a closing fence exactly if a line feed and three
/// dashes are there, or behind one carriage return.
proof fn lemma_closing_fence_at(s: Seq<char>, i: int)
    requires
        0 <= i < s.len(),
    ensures
        closing_fence(s.skip(i)) == 4 <==> fence_at(s, i),
        closing_fence(s.skip(i)) == 5 <==> s[i] == '\r' && fence_at(s, i + 1),
        closing_fence(s.skip(i)) == 0 || closing_fence(s.skip(i)) == 4 || closing_fence(s.skip(i))
            == 5,
{
    let t = s.skip(i);
    let dashes = seq!['-', '-', '-'];
    lemma_closing_fence(t);
    assert(t[0] == s[i]);
    if begins_with(t.skip(1), dashes) {
        let u = t.skip(1).take(3);
        assert(u[0] == s[i + 1] && u[1] == s[i + 2] && u[2] == s[i + 3]);
    }
    if fence_at(s, i) {
        assert(t.skip(1).take(3) == dashes);
    }
    if t.len() > 1 {
        assert(t[1] == s[i + 1]);
        if begins_with(t.skip(2), dashes) {
            let u = t.skip(2).take(3);
            assert(u[0] == s[i + 2] && u[1] == s[i + 3] && u[2] == s[i + 4]);
        }
        if fence_at(s, i + 1) {
            assert(t.skip(2).take(3) == dashes);
        }
    }
}

proof fn lemma_closing_at_is(s: Seq<char>, from: int, at: int)
    requires
        0 <= from <= at <= s.len(),
        forall|i: int| from <= i < at ==> closing_fence(#[trigger] s.skip(i)) == 0,
        at < s.len() ==> closing_fence(s.skip(at)) > 0,
    ensures
        closing_at(s, from) == at,
    decreases at - from,
{
    if from < at {
        assert(closing_fence(s.skip(from)) == 0);
        lemma_closing_at_is(s, from + 1, at);
    }
}

/// Front matter is found where a document has it: its block is what stands between
/// the two lines of dashes, and it ends with the line end behind the second.
pub proof fn law_front_matter_is_found(
    open: Seq<char>,
    block: Seq<char>,
    close: Seq<char>,
    end: Seq<char>,
    rest: Seq<char>,
)
    requires
        is_front_matter(open, block, close, end, rest),
    ensures
        front_matter_match(open + block + close + end + rest) == Some(
            (open + block + close + end, block),
        ),
{
    let after = end + rest;
    let s = open + block + close + after;
    assert(open + block + close + end + rest == s);
    let m = open.len() as int;
    let n = (open.len() + block.len()) as int;
    assert(s.take(m) == open);
    if m == 5 {
        assert(s.take(4)[3] == s[3] && open[3] == s[3]);
        assert(!begins_with(s, seq!['-', '-', '-', '\n'])) by {
            if begins_with(s, seq!['-', '-', '-', '\n']) {
                assert(s.take(4)[3] == '\n');
            }
        }
    }
    assert(opening_fence(s) == m);
    let inner = block + close;
    assert forall|i: int| m <= i < n implies closing_fence(#[trigger] s.skip(i)) == 0 by {
        lemma_closing_fence_at(s, i);
        assert(!fence_at(inner, i - m));
        assert(s[i] == inner[i - m] && s[i + 1] == inner[i - m + 1]);
        assert(s[i + 2] == inner[i - m + 2] && s[i + 3] == inner[i - m + 3]);
        if s[i] == '\r' && fence_at(s, i + 1) {
            if i + 1 < n {
                assert(!fence_at(inner, i - m + 1));
                assert(s[i + 4] == inner[i - m + 4]);
            } else {
                assert(block.last() == s[i]);
                assert(s[n] == close[0]);
            }
        }
    }
    assert(forall|i: int| 0 <= i < close.len() ==> s[n + i] == #[trigger] close[i]);
    assert(s[n] == close[0] && s[n + 1] == close[1] && s[n + 2] == close[2] && s[n + 3]
        == close[3]);
    lemma_closing_fence_at(s, n);
    if close.len() == 5 {
        assert(s[n + 4] == close[4]);
    }
    assert(closing_fence(s.skip(n)) == close.len());
    lemma_closing_at_is(s, m, n);
    lemma_match_of_parts(open, block, close, after);
    assert(line_end(after) == end) by {
        if end.len() > 0 {
            assert(after[0] == end[0]);
            if end.len() > 1 {
                assert(after[1] == end[1]);
            } else if rest.len() > 0 {
                assert(after[1] == rest[0]);
            }
        } else if rest.len() > 0 {
            assert(after[0] == rest[0]);
        }
    }
}

/// A document has no front matter if it does not begin with a line of three dashes,
/// or if no later line begins with three dashes.
pub proof fn law_no_front_matter_is_found(s: Seq<char>)
    requires
        ({
            ||| !begins_with(s, seq!['-', '-', '-', '\n']) && !begins_with(
                s,
                seq!['-', '-', '-', '\r', '\n'],
            )
            ||| forall|i: int| 4 <= i < s.len() ==> !#[trigger] fence_at(s, i)
        }),
    ensures
        front_matter_match(s) is None,
{
    let start = opening_fence(s);
    if start > 0 {
        assert(start <= s.len());
        assert forall|i: int| start <= i < s.len() implies closing_fence(#[trigger] s.skip(i))
            == 0 by {
            lemma_closing_fence_at(s, i);
            assert(!fence_at(s, i));
            if i + 1 < s.len() {
                assert(!fence_at(s, i + 1));
            }
        }
        lemma_closing_at_is(s, start, s.len() as int);
    }
}

} // verus!
