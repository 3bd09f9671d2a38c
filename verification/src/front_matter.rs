//! The front matter of a document: names with a string or a list of strings.

use crate::metadata::{insert_metadata, metadata_entries, new_metadata, no_entries, string_list};
use crate::metadata::{FrontValue, Json};
use crate::pattern::{fence_at, front_matter, front_matter_match, is_front_matter};
use crate::pattern::{law_front_matter_is_found, law_no_front_matter_is_found, lemma_closing_at};
use crate::pattern::{lemma_front_matter_with_returns, opening_fence};
use crate::text::{begins_with, chars_of, cut_at, joined, law_joining};
use crate::text::{law_lines_are_without_returns, law_lines_end_at_line_feeds};
use crate::text::law_parts_lie_between_separators;
use crate::text::{law_trimming_leaves_the_middle, lemma_first_line, lemma_joined_first};
use crate::text::{lemma_span, lemma_trimmed, lemma_with_returns_add, lines, lines_of, parts_of};
use crate::text::{span, split, split_once, string_of, trim, trimmed, views, white_space};
use crate::text::{with_returns, without_return, CharClass};
use vstd::prelude::*;
use vstd::slice::slice_subrange;

verus! {

/// Without the white space at either end.
pub open spec fn stripped(s: Seq<char>) -> Seq<char> {
    trimmed(s, CharClass::WhiteSpace)
}

/// Without the double quotes, then the single quotes, at either end.
pub open spec fn unquoted(s: Seq<char>) -> Seq<char> {
    trimmed(trimmed(s, CharClass::Only('"')), CharClass::Only('\''))
}

/// Whether a line is neither blank nor a comment.
pub open spec fn significant(line: Seq<char>) -> bool {
    stripped(line).len() > 0 && stripped(line)[0] != '#'
}

/// Whether a line may be an item of a list that is written line by line.
pub open spec fn is_item(line: Seq<char>) -> bool {
    begins_with(stripped(line), seq!['-', ' '])
}

/// The item that such a line holds.
pub open spec fn item_of(line: Seq<char>) -> Seq<char> {
    unquoted(stripped(stripped(line).skip(2)))
}

/// How many of the lines, from the first on, may be items.
pub open spec fn item_run(lines: Seq<Seq<char>>) -> nat
    decreases lines.len(),
{
    if lines.len() == 0 || !is_item(lines[0]) {
        0
    } else {
        1 + item_run(lines.drop_first())
    }
}

/// Whether a value is a list that is written on its line.
pub open spec fn is_inline_list(value: Seq<char>) -> bool {
    ||| value.len() > 0 && value[0] == '[' && value.last() == ']'
    ||| value.contains(',')
}

/// The items of a list that is written on its line.
pub open spec fn inline_items(value: Seq<char>) -> Seq<Seq<char>> {
    parts_of(trimmed(value, CharClass::Brackets), ',').map_values(
        |part: Seq<char>| stripped(part),
    ).filter(|part: Seq<char>| part.len() > 0).map_values(|part: Seq<char>| unquoted(part))
}

/// The value that is written behind a name on its line.
pub open spec fn inline_value(value: Seq<char>) -> Json {
    if is_inline_list(value) {
        string_list(inline_items(value))
    } else {
        Json::Text(unquoted(value))
    }
}

/// The entries of significant lines. A name with nothing behind it has the items
/// on the lines that follow; a line without a colon says nothing.
pub open spec fn entries_of(lines: Seq<Seq<char>>) -> Seq<(Seq<char>, Json)>
    decreases lines.len(),
{
    if lines.len() == 0 {
        seq![]
    } else {
        let rest = lines.drop_first();
        match cut_at(lines[0], ':') {
            None => entries_of(rest),
            Some((name, value)) => if stripped(value).len() > 0 {
                seq![(stripped(name), inline_value(stripped(value)))] + entries_of(rest)
            } else {
                let n = item_run(rest) as int;
                let items = rest.take(n).map_values(|line: Seq<char>| item_of(line));
                proof {
                    lemma_item_run_bound(rest);
                }
                seq![(stripped(name), string_list(items))] + entries_of(rest.skip(n))
            },
        }
    }
}

/// `map` with the entries put in one after the other.
pub open spec fn with_entries(
    map: Map<Seq<char>, Json>,
    entries: Seq<(Seq<char>, Json)>,
) -> Map<Seq<char>, Json>
    decreases entries.len(),
{
    if entries.len() == 0 {
        map
    } else {
        with_entries(map.insert(entries[0].0, entries[0].1), entries.drop_first())
    }
}

/// The metadata that the text between the fences gives.
pub open spec fn metadata_of(block: Seq<char>) -> Map<Seq<char>, Json> {
    with_entries(
        no_entries(),
        entries_of(lines_of(block).filter(|line: Seq<char>| significant(line))),
    )
}

/// The metadata of a document, and what follows its front matter.
pub open spec fn document_parts(content: Seq<char>) -> (Map<Seq<char>, Json>, Seq<char>) {
    match front_matter_match(content) {
        Some((block, inner)) => (metadata_of(inner), content.skip(block.len() as int)),
        None => (no_entries(), content),
    }
}

/// There are no more items than lines.
pub proof fn lemma_item_run_bound(lines: Seq<Seq<char>>)
    ensures
        0 <= item_run(lines) <= lines.len(),
    decreases lines.len(),
{
    if lines.len() > 0 && is_item(lines[0]) {
        lemma_item_run_bound(lines.drop_first());
    }
}

/// `item_run` stops at the first line that is no item.
pub proof fn lemma_item_run(lines: Seq<Seq<char>>, n: int)
    requires
        0 <= n <= lines.len(),
        forall|i: int| 0 <= i < n ==> is_item(#[trigger] lines[i]),
        n < lines.len() ==> !is_item(lines[n]),
    ensures
        item_run(lines) == n,
    decreases lines.len(),
{
    if n > 0 {
        let rest = lines.drop_first();
        assert forall|i: int| 0 <= i < n - 1 implies is_item(#[trigger] rest[i]) by {
            assert(rest[i] == lines[i + 1]);
        }
        lemma_item_run(rest, n - 1);
    }
}

fn unquote(s: &str) -> (r: String)
    ensures
        r@ == unquoted(s@),
{
    trim(trim(s, CharClass::Only('"')).as_str(), CharClass::Only('\''))
}

/// The lines of `block` that are neither blank nor comments.
fn significant_lines(block: &str) -> (r: Vec<String>)
    ensures
        views(r@) == lines_of(block@).filter(|line: Seq<char>| significant(line)),
{
    let all = lines(block);
    let mut r: Vec<String> = Vec::new();
    let ghost p = |line: Seq<char>| significant(line);
    let mut i: usize = 0;
    proof {
        reveal(Seq::filter);
        assert(views(all@).take(0) == Seq::<Seq<char>>::empty());
        assert(views(r@) == Seq::<Seq<char>>::empty());
    }
    while i < all.len()
        invariant
            i <= all@.len(),
            p == (|line: Seq<char>| significant(line)),
            views(r@) == views(all@).take(i as int).filter(p),
        decreases all@.len() - i,
    {
        let stripped_line = chars_of(trim(all[i].as_str(), CharClass::WhiteSpace).as_str());
        let ghost before = r@;
        if stripped_line.len() > 0 && stripped_line[0] != '#' {
            r.push(all[i].clone());
        }
        proof {
            reveal(Seq::filter);
            let next = views(all@).take(i + 1);
            assert(next.drop_last() == views(all@).take(i as int));
            assert(next.last() == all@[i as int]@);
            if significant(next.last()) {
                assert(views(r@) == views(before).push(next.last()));
            }
        }
        i += 1;
    }
    assert(views(all@).take(i as int) == views(all@));
    r
}

/// The value that is written behind a name on its line.
fn parse_inline(value: &str) -> (r: FrontValue)
    ensures
        r.json() == inline_value(value@),
{
    let v = chars_of(value);
    let bracketed = v.len() > 0 && v[0] == '[' && v[v.len() - 1] == ']';
    if bracketed || has_char(v.as_slice(), ',') {
        FrontValue::List(parse_items(value))
    } else {
        FrontValue::Text(unquote(value))
    }
}

fn has_char(v: &[char], c: char) -> (r: bool)
    ensures
        r == v@.contains(c),
{
    let mut i: usize = 0;
    while i < v.len()
        invariant
            i <= v@.len(),
            forall|k: int| 0 <= k < i ==> #[trigger] v@[k] != c,
        decreases v@.len() - i,
    {
        if v[i] == c {
            return true;
        }
        i += 1;
    }
    false
}

/// The items of a list that is written on its line.
fn parse_items(value: &str) -> (r: Vec<String>)
    ensures
        views(r@) == inline_items(value@),
{
    let inner = trim(value, CharClass::Brackets);
    let parts = split(inner.as_str(), ',');
    let ghost strip = |part: Seq<char>| stripped(part);
    let ghost p = |part: Seq<char>| part.len() > 0;
    let ghost unq = |part: Seq<char>| unquoted(part);
    let ghost all = views(parts@).map_values(strip);
    let mut r: Vec<String> = Vec::new();
    let mut i: usize = 0;
    proof {
        reveal(Seq::filter);
        assert(all.take(0) == Seq::<Seq<char>>::empty());
        assert(views(r@) == all.take(0).filter(p).map_values(unq));
    }
    while i < parts.len()
        invariant
            i <= parts@.len(),
            strip == (|part: Seq<char>| stripped(part)),
            p == (|part: Seq<char>| part.len() > 0),
            unq == (|part: Seq<char>| unquoted(part)),
            all == views(parts@).map_values(strip),
            views(r@) == all.take(i as int).filter(p).map_values(unq),
        decreases parts@.len() - i,
    {
        let part = trim(parts[i].as_str(), CharClass::WhiteSpace);
        let ghost before = r@;
        if !part.as_str().is_empty() {
            r.push(unquote(part.as_str()));
        }
        proof {
            reveal(Seq::filter);
            let next = all.take(i + 1);
            assert(next.drop_last() == all.take(i as int));
            assert(next.last() == part@);
            if part@.len() > 0 {
                assert(views(r@) == views(before).push(unquoted(part@)));
                assert(next.filter(p).map_values(unq) == all.take(i as int).filter(p).map_values(
                    unq,
                ).push(unquoted(part@)));
            }
        }
        i += 1;
    }
    assert(all.take(i as int) == all);
    r
}

/// The item of a line, if the line may be one.
fn parse_item(line: &str) -> (r: Option<String>)
    ensures
        match r {
            Some(item) => is_item(line@) && item@ == item_of(line@),
            None => !is_item(line@),
        },
{
    let v = chars_of(trim(line, CharClass::WhiteSpace).as_str());
    if v.len() >= 2 && v[0] == '-' && v[1] == ' ' {
        proof {
            assert(v@.take(2) == seq!['-', ' ']);
            assert(v@.skip(2) == v@.subrange(2, v@.len() as int));
        }
        let text = string_of(slice_subrange(v.as_slice(), 2, v.len()));
        Some(unquote(trim(text.as_str(), CharClass::WhiteSpace).as_str()))
    } else {
        proof {
            if begins_with(v@, seq!['-', ' ']) {
                assert(v@.take(2)[0] == '-' && v@.take(2)[1] == ' ');
            }
        }
        None
    }
}

/// The metadata that the text between the fences gives.
pub fn parse_block(block: &str) -> (r: serde_json::Map<String, serde_json::Value>)
    ensures
        metadata_entries(r) == metadata_of(block@),
{
    let kept = significant_lines(block);
    let ghost all = views(kept@);
    let mut map = new_metadata();
    let mut i: usize = 0;
    proof {
        assert(all.skip(0) == all);
    }
    while i < kept.len()
        invariant
            i <= kept@.len(),
            all == views(kept@),
            with_entries(no_entries(), entries_of(all)) == with_entries(
                metadata_entries(map),
                entries_of(all.skip(i as int)),
            ),
        decreases kept@.len() - i,
    {
        let ghost from = all.skip(i as int);
        let ghost held = metadata_entries(map);
        proof {
            assert(from[0] == kept@[i as int]@);
            assert(from.drop_first() == all.skip(i + 1));
        }
        let line = &kept[i];
        i += 1;
        if let Some((name, value)) = split_once(line.as_str(), ':') {
            let name = trim(name.as_str(), CharClass::WhiteSpace);
            let value = trim(value.as_str(), CharClass::WhiteSpace);
            let ghost key = name@;
            if value.as_str().is_empty() {
                let start = i;
                let ghost rest = all.skip(start as int);
                let mut items: Vec<String> = Vec::new();
                let mut more = true;
                while more && i < kept.len()
                    invariant
                        start <= i <= kept@.len(),
                        all == views(kept@),
                        rest == all.skip(start as int),
                        i - start == items@.len(),
                        forall|k: int| 0 <= k < i - start ==> is_item(#[trigger] rest[k]),
                        forall|k: int|
                            0 <= k < i - start ==> (#[trigger] items@[k])@ == item_of(rest[k]),
                        !more ==> i < kept@.len() && !is_item(rest[i - start]),
                    decreases kept@.len() - i + (if more { 1int } else { 0int }),
                {
                    assert(rest[i - start] == kept@[i as int]@);
                    match parse_item(kept[i].as_str()) {
                        Some(item) => {
                            items.push(item);
                            i += 1;
                        },
                        None => {
                            more = false;
                        },
                    }
                }
                proof {
                    let n = i - start;
                    lemma_item_run(rest, n);
                    let item_texts = rest.take(n).map_values(|l: Seq<char>| item_of(l));
                    assert(views(items@) == item_texts);
                    assert(rest.skip(n) == all.skip(i as int));
                    let tail = entries_of(rest.skip(n));
                    let entry = (key, string_list(item_texts));
                    assert(entries_of(from) == seq![entry] + tail);
                    assert((seq![entry] + tail).drop_first() == tail);
                }
                insert_metadata(&mut map, name, FrontValue::List(items));
            } else {
                proof {
                    let entry = (key, inline_value(value@));
                    let tail = entries_of(all.skip(i as int));
                    assert((seq![entry] + tail).drop_first() == tail);
                }
                insert_metadata(&mut map, name, parse_inline(value.as_str()));
            }
        }
    }
    assert(all.skip(i as int) == Seq::<Seq<char>>::empty());
    map
}

/// The metadata of a document, and the document without its front matter.
pub fn parse_front_matter(content: &str) -> (r: (
    serde_json::Map<String, serde_json::Value>,
    String,
))
    ensures
        (metadata_entries(r.0), r.1@) == document_parts(content@),
{
    let v = chars_of(content);
    if !(v.len() >= 3 && v[0] == '-' && v[1] == '-' && v[2] == '-') {
        proof {
            lemma_no_fence(content@);
        }
        return (new_metadata(), content.to_string());
    }
    match front_matter(content) {
        Some((length, inner)) => {
            proof {
                assert(content@.take(length as int).len() == length);
                assert(content@.skip(length as int) == content@.subrange(
                    length as int,
                    content@.len() as int,
                ));
            }
            let remaining = string_of(slice_subrange(v.as_slice(), length, v.len()));
            (parse_block(inner.as_str()), remaining)
        },
        None => (new_metadata(), content.to_string()),
    }
}

/// A document that does not begin with three dashes has no front matter.
proof fn lemma_no_fence(s: Seq<char>)
    requires
        !(s.len() >= 3 && s[0] == '-' && s[1] == '-' && s[2] == '-'),
    ensures
        front_matter_match(s) is None,
{
    if begins_with(s, seq!['-', '-', '-', '\n']) {
        let t = s.take(4);
        assert(t[0] == '-' && t[1] == '-' && t[2] == '-');
    }
    if begins_with(s, seq!['-', '-', '-', '\r', '\n']) {
        let t = s.take(5);
        assert(t[0] == '-' && t[1] == '-' && t[2] == '-');
    }
    assert(opening_fence(s) == 0);
}

/// A document that does not begin with a fence has no metadata, and nothing of it
/// is cut off.
pub proof fn law_no_fence_no_metadata(content: Seq<char>)
    requires
        !begins_with(content, seq!['-', '-', '-']),
    ensures
        document_parts(content) == (no_entries(), content),
{
    if content.len() >= 3 && content[0] == '-' && content[1] == '-' && content[2] == '-' {
        assert(content.take(3) == seq!['-', '-', '-']);
    }
    lemma_no_fence(content);
}

/// What follows the front matter is an end of the document.
pub proof fn law_front_matter_is_cut_off(content: Seq<char>) -> (n: int)
    ensures
        0 <= n <= content.len(),
        document_parts(content).1 == content.skip(n),
{
    match front_matter_match(content) {
        Some((block, inner)) => {
            lemma_closing_at(content, opening_fence(content));
            block.len() as int
        },
        None => {
            assert(content.skip(0) == content);
            0
        },
    }
}

/// Of the entries with one name the last counts, and there are no others than
/// those that are put in.
pub proof fn law_last_entry_counts(
    map: Map<Seq<char>, Json>,
    entries: Seq<(Seq<char>, Json)>,
    name: Seq<char>,
)
    ensures
        (forall|j: int| 0 <= j < entries.len() ==> (#[trigger] entries[j]).0 != name) ==> {
            &&& with_entries(map, entries).contains_key(name) == map.contains_key(name)
            &&& with_entries(map, entries)[name] == map[name]
        },
        forall|i: int|
            0 <= i < entries.len() && (#[trigger] entries[i]).0 == name && (forall|j: int|
                i < j < entries.len() ==> (#[trigger] entries[j]).0 != name)
                ==> with_entries(map, entries).contains_key(name) && with_entries(
                map,
                entries,
            )[name] == entries[i].1,
    decreases entries.len(),
{
    if entries.len() > 0 {
        let rest = entries.drop_first();
        let next = map.insert(entries[0].0, entries[0].1);
        law_last_entry_counts(next, rest, name);
        if forall|j: int| 0 <= j < entries.len() ==> (#[trigger] entries[j]).0 != name {
            assert forall|j: int| 0 <= j < rest.len() implies (#[trigger] rest[j]).0 != name by {
                assert(rest[j] == entries[j + 1]);
            }
            assert(entries[0].0 != name);
        }
        assert forall|i: int|
            0 <= i < entries.len() && (#[trigger] entries[i]).0 == name && (forall|j: int|
                i < j < entries.len() ==> (
                #[trigger] entries[j]).0 != name) implies with_entries(map, entries).contains_key(
            name,
        ) && with_entries(map, entries)[name] == entries[i].1 by {
            assert forall|j: int| i - 1 < j < rest.len() implies (#[trigger] rest[j]).0 != name by {
                assert(rest[j] == entries[j + 1]);
            }
            if i > 0 {
                assert(rest[i - 1] == entries[i]);
            }
        }
    }
}

/// A document with Windows line ends has the metadata that it has with plain ones,
/// and what follows its front matter is the same, with Windows line ends.
pub proof fn law_parts_with_windows_line_ends(content: Seq<char>)
    requires
        !content.contains('\r'),
    ensures
        document_parts(with_returns(content)) == (
            document_parts(content).0,
            with_returns(document_parts(content).1),
        ),
{
    lemma_front_matter_with_returns(content);
    if let Some((block, inner)) = front_matter_match(content) {
        let n = block.len() as int;
        let rest = content.skip(n);
        assert(content == block + rest);
        lemma_with_returns_add(block, rest);
        let m = with_returns(block).len() as int;
        assert(with_returns(content).skip(m) == with_returns(rest));
        law_lines_are_without_returns(inner);
    }
}

/// Nothing but white space.
pub open spec fn blank(s: Seq<char>) -> bool {
    forall|i: int| 0 <= i < s.len() ==> white_space(#[trigger] s[i])
}

/// A name that an entry can have.
pub open spec fn is_name(name: Seq<char>) -> bool {
    &&& !name.contains(':')
    &&& name.len() > 0 ==> {
        &&& !white_space(name[0])
        &&& !white_space(name.last())
        &&& name[0] != '#'
        &&& !(name[0] == '-' && (name.len() == 1 || name[1] == ' '))
    }
}

/// No quotes, double ones or single ones.
pub open spec fn is_quote(quote: Seq<char>) -> bool {
    quote == Seq::<char>::empty() || quote == seq!['"'] || quote == seq!['\'']
}

/// A text that can be written between the quotes, or as it is, and read back.
pub open spec fn can_be_quoted(text: Seq<char>, quote: Seq<char>) -> bool {
    let written = quote + text + quote;
    &&& written.len() > 0
    &&& !white_space(written[0])
    &&& !white_space(written.last())
    &&& text.len() > 0 ==> {
        &&& text[0] != '"' && text[0] != '\''
        &&& text.last() != '"' && text.last() != '\''
    }
}

/// The significant lines of a block.
spec fn kept_lines(block: Seq<char>) -> Seq<Seq<char>> {
    lines_of(block).filter(|line: Seq<char>| significant(line))
}

proof fn lemma_kept_line(line: Seq<char>)
    ensures
        seq![line].filter(|line: Seq<char>| significant(line)) == (if significant(line) {
            seq![line]
        } else {
            Seq::empty()
        }),
        !significant(Seq::<char>::empty()),
        kept_lines(Seq::<char>::empty()) == Seq::<Seq<char>>::empty(),
{
    reveal_with_fuel(Seq::filter, 2);
    assert(seq![line].drop_last() == Seq::<Seq<char>>::empty());
    let bounds = lemma_trimmed(Seq::<char>::empty(), CharClass::WhiteSpace);
}

/// A block has the significant lines of what stands before a line feed and of what
/// follows it.
proof fn lemma_kept_lines_add(a: Seq<char>, b: Seq<char>)
    requires
        a.len() == 0 || a.last() != '\r',
    ensures
        kept_lines(a + seq!['\n'] + b) == kept_lines(a) + kept_lines(b),
    decreases a.len(),
{
    let p = |line: Seq<char>| significant(line);
    let class = CharClass::Except('\n');
    lemma_span(a, class);
    let n = span(a, class) as int;
    let first = a.take(n);
    assert forall|i: int| 0 <= i < first.len() implies #[trigger] first[i] != '\n' by {
        assert(class.has(a[i]));
    }
    let whole = a + seq!['\n'] + b;
    if n >= a.len() {
        assert(first == a);
        lemma_first_line(a, b);
        assert(without_return(a) == a);
        Seq::filter_distributes_over_add(seq![a], lines_of(b), p);
        lemma_kept_line(a);
        if a.len() > 0 {
            assert(lines_of(a) == seq![a]);
        }
        assert(kept_lines(a) == seq![a].filter(p));
        assert(kept_lines(whole) == kept_lines(a) + kept_lines(b));
    } else {
        let rest = a.skip(n + 1);
        assert(a[n] == '\n');
        assert(a == first + seq!['\n'] + rest);
        let later = rest + seq!['\n'] + b;
        assert(whole == first + seq!['\n'] + later);
        lemma_first_line(first, rest);
        lemma_first_line(first, later);
        if rest.len() > 0 {
            assert(rest.last() == a.last());
        }
        lemma_kept_lines_add(rest, b);
        let one = seq![without_return(first)];
        Seq::filter_distributes_over_add(one, lines_of(rest), p);
        Seq::filter_distributes_over_add(one, lines_of(later), p);
        assert(kept_lines(whole) == one.filter(p) + (kept_lines(rest) + kept_lines(b)));
        assert(kept_lines(a) == one.filter(p) + kept_lines(rest));
        assert(kept_lines(whole) == kept_lines(a) + kept_lines(b));
    }
}

/// Lines that do not begin with an item have their own entries.
proof fn lemma_entries_add(a: Seq<Seq<char>>, b: Seq<Seq<char>>)
    requires
        b.len() == 0 || !is_item(b[0]),
    ensures
        entries_of(a + b) == entries_of(a) + entries_of(b),
    decreases a.len(),
{
    if a.len() == 0 {
        assert(a + b == b);
        assert(entries_of(a) + entries_of(b) == entries_of(b));
    } else {
        let rest = a.drop_first();
        let all = rest + b;
        assert((a + b).drop_first() == all);
        assert((a + b)[0] == a[0]);
        match cut_at(a[0], ':') {
            None => {
                lemma_entries_add(rest, b);
            },
            Some((name, value)) => {
                if stripped(value).len() > 0 {
                    lemma_entries_add(rest, b);
                    assert(entries_of(a + b) == entries_of(a) + entries_of(b));
                } else {
                    let n = item_run(rest) as int;
                    lemma_item_run_bound(rest);
                    lemma_item_run_stops(rest);
                    assert forall|i: int| 0 <= i < n implies is_item(#[trigger] all[i]) by {
                        assert(all[i] == rest[i]);
                    }
                    if n < rest.len() {
                        assert(all[n] == rest[n]);
                    } else if b.len() > 0 {
                        assert(all[n] == b[0]);
                    }
                    lemma_item_run(all, n);
                    assert(all.take(n) == rest.take(n));
                    assert(all.skip(n) == rest.skip(n) + b);
                    lemma_entries_add(rest.skip(n), b);
                    assert(entries_of(a + b) == entries_of(a) + entries_of(b));
                }
            },
        }
    }
}

/// The lines of a run are items, and the one behind it is not.
proof fn lemma_item_run_stops(lines: Seq<Seq<char>>)
    ensures
        item_run(lines) <= lines.len(),
        forall|i: int| 0 <= i < item_run(lines) ==> is_item(#[trigger] lines[i]),
        item_run(lines) < lines.len() ==> !is_item(lines[item_run(lines) as int]),
    decreases lines.len(),
{
    if lines.len() > 0 && is_item(lines[0]) {
        let rest = lines.drop_first();
        lemma_item_run_stops(rest);
        assert forall|i: int| 0 <= i < item_run(lines) implies is_item(#[trigger] lines[i]) by {
            if i > 0 {
                assert(lines[i] == rest[i - 1]);
            }
        }
        if item_run(lines) < lines.len() {
            assert(lines[item_run(lines) as int] == rest[item_run(rest) as int]);
        }
    }
}

proof fn lemma_with_entries_add(
    map: Map<Seq<char>, Json>,
    a: Seq<(Seq<char>, Json)>,
    b: Seq<(Seq<char>, Json)>,
)
    ensures
        with_entries(map, a + b) == with_entries(with_entries(map, a), b),
    decreases a.len(),
{
    if a.len() == 0 {
        assert(a + b == b);
    } else {
        assert((a + b).drop_first() == a.drop_first() + b);
        assert((a + b)[0] == a[0]);
        lemma_with_entries_add(map.insert(a[0].0, a[0].1), a.drop_first(), b);
    }
}

/// What follows a block adds its entries to the metadata of the block.
proof fn lemma_metadata_add(block: Seq<char>, more: Seq<char>, entries: Seq<(Seq<char>, Json)>)
    requires
        block.len() == 0 || block.last() != '\r',
        kept_lines(more).len() == 0 || !is_item(kept_lines(more)[0]),
        entries_of(kept_lines(more)) == entries,
    ensures
        metadata_of(block + seq!['\n'] + more) == with_entries(metadata_of(block), entries),
        metadata_of(more) == with_entries(no_entries(), entries),
{
    lemma_kept_lines_add(block, more);
    lemma_entries_add(kept_lines(block), kept_lines(more));
    lemma_with_entries_add(no_entries(), entries_of(kept_lines(block)), entries);
}

/// A line that begins with a name is significant, is no item, and is cut behind the
/// name.
proof fn lemma_named_line(
    front: Seq<char>,
    name: Seq<char>,
    back: Seq<char>,
    rest: Seq<char>,
)
    requires
        blank(front),
        blank(back),
        is_name(name),
    ensures
        ({
            let line = front + name + back + seq![':'] + rest;
            &&& significant(line)
            &&& !is_item(line)
            &&& cut_at(line, ':') == Some((front + name + back, rest))
            &&& stripped(front + name + back) == name
        }),
{
    let line = front + name + back + seq![':'] + rest;
    let n = front.len() as int;
    law_trimming_leaves_the_middle(front, name, back, CharClass::WhiteSpace);
    let key = front + name + back;
    assert(!key.contains(':')) by {
        assert forall|i: int| 0 <= i < key.len() implies key[i] != ':' by {
            if i < n {
                assert(white_space(front[i]));
            } else if i < n + name.len() {
                assert(name.contains(name[i - n]));
            } else {
                assert(white_space(back[i - n - name.len()]));
            }
        }
    }
    law_parts_lie_between_separators(key, rest, ':');
    let (a, b) = lemma_trimmed(line, CharClass::WhiteSpace);
    let colon = n + name.len() + back.len();
    assert(line[colon] == ':');
    assert(a <= colon < b);
    let text = stripped(line);
    assert(text[0] == line[a]);
    if name.len() > 0 {
        assert(line[n] == name[0]);
        if a < n {
            assert(line[a] == front[a]);
            assert(white_space(front[a]));
        }
        assert(a == n);
        if is_item(line) {
            assert(text[1] == line[n + 1]);
            assert(text.take(2)[0] == '-' && text.take(2)[1] == ' ');
            assert(line[n + 1] == name[1]);
        }
    } else {
        if a < n {
            assert(line[a] == front[a]);
            assert(white_space(front[a]));
        } else if a < colon {
            assert(line[a] == back[a - n]);
            assert(white_space(back[a - n]));
        }
        assert(a == colon);
        if is_item(line) {
            assert(text.take(2)[0] == '-');
        }
    }
}

/// Quotes around a text are dropped, and nothing else.
pub proof fn law_only_quotes_are_dropped(text: Seq<char>, quote: Seq<char>)
    requires
        is_quote(quote),
        text.len() > 0 ==> {
            &&& text[0] != '"' && text[0] != '\''
            &&& text.last() != '"' && text.last() != '\''
        },
    ensures
        unquoted(quote + text + quote) == text,
{
    let none = Seq::<char>::empty();
    let (double, single) = (CharClass::Only('"'), CharClass::Only('\''));
    let written = quote + text + quote;
    assert(none + text + none == text);
    assert(none + written + none == written);
    law_trimming_leaves_the_middle(none, text, none, double);
    law_trimming_leaves_the_middle(none, text, none, single);
    if quote == seq!['"'] {
        law_trimming_leaves_the_middle(quote, text, quote, double);
    } else if quote == seq!['\''] {
        law_trimming_leaves_the_middle(none, written, none, double);
        law_trimming_leaves_the_middle(quote, text, quote, single);
    } else {
        assert(written == text);
    }
}

/// One entry more.
proof fn lemma_one_entry(map: Map<Seq<char>, Json>, name: Seq<char>, value: Json)
    ensures
        with_entries(map, seq![(name, value)]) == map.insert(name, value),
{
    reveal_with_fuel(with_entries, 2);
    assert(seq![(name, value)].drop_first() == Seq::<(Seq<char>, Json)>::empty());
}

/// A line with a value behind the name is one entry.
proof fn lemma_valued_line(
    block: Seq<char>,
    front: Seq<char>,
    name: Seq<char>,
    back: Seq<char>,
    gap: Seq<char>,
    value: Seq<char>,
    tail: Seq<char>,
)
    requires
        block.len() == 0 || block.last() != '\r',
        blank(front) && blank(back) && blank(gap) && blank(tail),
        is_name(name),
        value.len() > 0,
        !white_space(value[0]),
        !white_space(value.last()),
        !(front + name + back + seq![':'] + (gap + value + tail)).contains('\n'),
    ensures
        ({
            let line = front + name + back + seq![':'] + (gap + value + tail);
            &&& metadata_of(line) == no_entries().insert(name, inline_value(value))
            &&& metadata_of(block + seq!['\n'] + line) == metadata_of(block).insert(
                name,
                inline_value(value),
            )
        }),
{
    let rest = gap + value + tail;
    let line = front + name + back + seq![':'] + rest;
    lemma_named_line(front, name, back, rest);
    law_trimming_leaves_the_middle(gap, value, tail, CharClass::WhiteSpace);
    assert forall|i: int| 0 <= i < line.len() implies #[trigger] line[i] != '\n' by {
        assert(line.contains(line[i]));
    }
    law_lines_end_at_line_feeds(line, seq![]);
    lemma_kept_line(line);
    assert(kept_lines(line) == seq![line]);
    let entry = (name, inline_value(value));
    reveal_with_fuel(entries_of, 2);
    assert(seq![line].drop_first() == Seq::<Seq<char>>::empty());
    assert(entries_of(seq![line]) == seq![entry]);
    lemma_metadata_add(block, line, seq![entry]);
    lemma_one_entry(metadata_of(block), name, inline_value(value));
    lemma_one_entry(no_entries(), name, inline_value(value));
}

/// A line `name: value` gives the name its whole value, as a string, without only
/// the white space and the quotes around it. What the lines before say stays, but
/// for an entry of the same name. The value must not be one that is read as a list.
pub proof fn law_scalars_are_read_whole(
    block: Seq<char>,
    front: Seq<char>,
    name: Seq<char>,
    back: Seq<char>,
    gap: Seq<char>,
    quote: Seq<char>,
    value: Seq<char>,
    tail: Seq<char>,
)
    requires
        block.len() == 0 || block.last() != '\r',
        blank(front) && blank(back) && blank(gap) && blank(tail),
        is_name(name),
        is_quote(quote),
        can_be_quoted(value, quote),
        !value.contains(','),
        !(quote.len() == 0 && value[0] == '[' && value.last() == ']'),
        !(front + name + back + seq![':'] + (gap + (quote + value + quote) + tail)).contains('\n'),
    ensures
        ({
            let line = front + name + back + seq![':'] + (gap + (quote + value + quote) + tail);
            &&& metadata_of(line) == Map::<Seq<char>, Json>::empty().insert(
                name,
                Json::Text(value),
            )
            &&& metadata_of(block + seq!['\n'] + line) == metadata_of(block).insert(
                name,
                Json::Text(value),
            )
        }),
{
    let written = quote + value + quote;
    law_only_quotes_are_dropped(value, quote);
    assert(!written.contains(',')) by {
        assert forall|i: int| 0 <= i < written.len() implies written[i] != ',' by {
            if quote.len() <= i < quote.len() + value.len() {
                assert(value.contains(value[i - quote.len()]));
            }
        }
    }
    if quote.len() == 0 {
        assert(written == value);
    } else {
        assert(written[0] == quote[0]);
    }
    assert(!is_inline_list(written));
    lemma_valued_line(block, front, name, back, gap, written, tail);
}

/// The ends of joined texts are those of the first and the last.
proof fn lemma_joined_ends(parts: Seq<Seq<char>>, sep: Seq<char>)
    requires
        parts.len() > 0,
        parts[0].len() > 0,
        parts.last().len() > 0,
    ensures
        joined(parts, sep).len() > 0,
        joined(parts, sep)[0] == parts[0][0],
        joined(parts, sep).last() == parts.last().last(),
{
    if parts.len() > 1 {
        let rest = parts.drop_first();
        assert(parts == seq![parts[0]] + rest);
        lemma_joined_first(parts[0], rest, sep);
        assert(parts == parts.drop_last().push(parts.last()));
        law_joining(parts.drop_last(), parts.last(), sep);
    }
}

/// Texts that are joined with a comma and a space are the parts between the commas.
proof fn lemma_parts_of_joined(pad: Seq<char>, parts: Seq<Seq<char>>)
    requires
        parts.len() > 0,
        blank(pad),
        forall|i: int|
            0 <= i < parts.len() ==> {
                &&& (#[trigger] parts[i]).len() > 0
                &&& !white_space(parts[i][0])
                &&& !white_space(parts[i].last())
                &&& !parts[i].contains(',')
            },
    ensures
        parts_of(pad + joined(parts, seq![',', ' ']), ',').map_values(
            |part: Seq<char>| stripped(part),
        ) == parts,
    decreases parts.len(),
{
    let sep = seq![',', ' '];
    let strip = |part: Seq<char>| stripped(part);
    let first = pad + parts[0];
    assert(!parts[0].contains(','));
    assert(!first.contains(',')) by {
        assert forall|i: int| 0 <= i < first.len() implies first[i] != ',' by {
            if i < pad.len() {
                assert(white_space(pad[i]));
            } else {
                assert(parts[0].contains(parts[0][i - pad.len()]));
            }
        }
    }
    law_trimming_leaves_the_middle(pad, parts[0], seq![], CharClass::WhiteSpace);
    assert(pad + parts[0] + Seq::<char>::empty() == first);
    assert(stripped(first) == parts[0]);
    if parts.len() == 1 {
        law_parts_lie_between_separators(first, seq![], ',');
        assert(joined(parts, sep) == parts[0]);
        assert(seq![first].map_values(strip) == parts);
    } else {
        let rest = parts.drop_first();
        assert forall|i: int| 0 <= i < rest.len() implies {
            &&& (#[trigger] rest[i]).len() > 0
            &&& !white_space(rest[i][0])
            &&& !white_space(rest[i].last())
            &&& !rest[i].contains(',')
        } by {
            assert(rest[i] == parts[i + 1]);
        }
        assert(parts == seq![parts[0]] + rest);
        lemma_joined_first(parts[0], rest, sep);
        let later = seq![' '] + joined(rest, sep);
        assert(pad + joined(parts, sep) == first + seq![','] + later);
        law_parts_lie_between_separators(first, later, ',');
        lemma_parts_of_joined(seq![' '], rest);
        assert((seq![first] + parts_of(later, ',')).map_values(strip) == seq![stripped(first)]
            + parts_of(later, ',').map_values(strip));
    }
}

/// Items as they are written: each between the quotes.
pub open spec fn quoted(items: Seq<Seq<char>>, quote: Seq<char>) -> Seq<Seq<char>> {
    items.map_values(|item: Seq<char>| quote + item + quote)
}

/// An item that can stand in a list on one line.
pub open spec fn can_be_listed(item: Seq<char>, quote: Seq<char>) -> bool {
    &&& can_be_quoted(item, quote)
    &&& !item.contains(',')
    &&& !item.contains('[')
    &&& !item.contains(']')
}

/// `inner` in brackets, or as it is.
pub open spec fn in_brackets(inner: Seq<char>, bracketed: bool) -> Seq<char> {
    if bracketed {
        seq!['['] + inner + seq![']']
    } else {
        inner
    }
}

/// Brackets around a list do not count.
proof fn lemma_without_brackets(inner: Seq<char>, bracketed: bool)
    requires
        inner.len() > 0 ==> !CharClass::Brackets.has(inner[0]) && !CharClass::Brackets.has(
            inner.last(),
        ),
    ensures
        trimmed(in_brackets(inner, bracketed), CharClass::Brackets) == inner,
{
    let none = Seq::<char>::empty();
    if bracketed {
        law_trimming_leaves_the_middle(seq!['['], inner, seq![']'], CharClass::Brackets);
    } else {
        law_trimming_leaves_the_middle(none, inner, none, CharClass::Brackets);
        assert(none + inner + none == inner);
    }
}

/// A list of no items.
proof fn lemma_no_inline_items()
    ensures
        inline_items(in_brackets(Seq::<char>::empty(), true)) == Seq::<Seq<char>>::empty(),
{
    let none = Seq::<char>::empty();
    lemma_without_brackets(none, true);
    law_parts_lie_between_separators(none, none, ',');
    let bounds = lemma_trimmed(none, CharClass::WhiteSpace);
    assert(stripped(none) == none);
    let one = seq![none].map_values(|part: Seq<char>| stripped(part));
    assert(one == seq![stripped(none)]);
    assert(one.drop_last() == Seq::<Seq<char>>::empty());
    reveal_with_fuel(Seq::filter, 2);
    assert(inline_items(in_brackets(none, true)) == Seq::<Seq<char>>::empty());
}

/// What is written of items in quotes can be cut at commas.
proof fn lemma_quoted_items(items: Seq<Seq<char>>, quote: Seq<char>)
    requires
        is_quote(quote),
        forall|i: int| 0 <= i < items.len() ==> can_be_listed(#[trigger] items[i], quote),
    ensures
        quoted(items, quote).len() == items.len(),
        forall|i: int|
            0 <= i < items.len() ==> {
                let part = #[trigger] quoted(items, quote)[i];
                &&& part.len() > 0
                &&& !white_space(part[0])
                &&& !white_space(part.last())
                &&& !part.contains(',')
                &&& !CharClass::Brackets.has(part[0])
                &&& !CharClass::Brackets.has(part.last())
                &&& unquoted(part) == items[i]
            },
{
    assert forall|i: int| 0 <= i < items.len() implies {
        let part = #[trigger] quoted(items, quote)[i];
        &&& part.len() > 0
        &&& !white_space(part[0])
        &&& !white_space(part.last())
        &&& !part.contains(',')
        &&& !CharClass::Brackets.has(part[0])
        &&& !CharClass::Brackets.has(part.last())
        &&& unquoted(part) == items[i]
    } by {
        assert(can_be_listed(items[i], quote));
        lemma_listed_item(items[i], quote);
        law_only_quotes_are_dropped(items[i], quote);
    }
}

/// Items in brackets, or two or more without them, are read back from a value.
proof fn lemma_inline_items(items: Seq<Seq<char>>, quote: Seq<char>, bracketed: bool)
    requires
        is_quote(quote),
        forall|i: int| 0 <= i < items.len() ==> can_be_listed(#[trigger] items[i], quote),
        !bracketed ==> items.len() >= 2,
    ensures
        ({
            let value = in_brackets(joined(quoted(items, quote), seq![',', ' ']), bracketed);
            &&& is_inline_list(value)
            &&& inline_items(value) == items
            &&& value.len() > 0
            &&& !white_space(value[0])
            &&& !white_space(value.last())
        }),
{
    let none = Seq::<char>::empty();
    let sep = seq![',', ' '];
    let parts = quoted(items, quote);
    let inner = joined(parts, sep);
    let value = in_brackets(inner, bracketed);
    lemma_quoted_items(items, quote);
    if items.len() == 0 {
        assert(parts == Seq::<Seq<char>>::empty());
        assert(inner == none);
        lemma_no_inline_items();
        assert(items == Seq::<Seq<char>>::empty());
    } else {
        assert(parts.last() == parts[parts.len() - 1]);
        lemma_joined_ends(parts, sep);
        lemma_without_brackets(inner, bracketed);
        if !bracketed {
            let init = parts.drop_last();
            assert(parts == init.push(parts.last()));
            law_joining(init, parts.last(), sep);
            assert(inner[joined(init, sep).len() as int] == ',');
        }
        lemma_parts_of_joined(none, parts);
        assert(none + inner == inner);
        lemma_filter_all(parts);
        assert(parts.map_values(|part: Seq<char>| unquoted(part)) == items);
    }
}

proof fn lemma_listed_item(item: Seq<char>, quote: Seq<char>)
    requires
        is_quote(quote),
        can_be_listed(item, quote),
    ensures
        ({
            let part = quote + item + quote;
            &&& !part.contains(',')
            &&& !CharClass::Brackets.has(part[0])
            &&& !CharClass::Brackets.has(part.last())
        }),
{
    let part = quote + item + quote;
    assert forall|i: int| 0 <= i < part.len() implies part[i] != ',' && part[i] != '[' && part[i]
        != ']' by {
        if quote.len() <= i < quote.len() + item.len() {
            assert(item.contains(item[i - quote.len()]));
        }
    }
}

proof fn lemma_filter_all(parts: Seq<Seq<char>>)
    requires
        forall|i: int| 0 <= i < parts.len() ==> (#[trigger] parts[i]).len() > 0,
    ensures
        parts.filter(|part: Seq<char>| part.len() > 0) == parts,
    decreases parts.len(),
{
    reveal(Seq::filter);
    if parts.len() > 0 {
        let init = parts.drop_last();
        assert forall|i: int| 0 <= i < init.len() implies (#[trigger] init[i]).len() > 0 by {
            assert(init[i] == parts[i]);
        }
        lemma_filter_all(init);
        assert(parts[parts.len() - 1].len() > 0);
        assert(init.push(parts.last()) == parts);
    }
}

/// A list on one line is read back: the items between brackets, or two or more
/// without brackets, with commas between them, each in quotes or not.
pub proof fn law_inline_lists_are_read(
    block: Seq<char>,
    front: Seq<char>,
    name: Seq<char>,
    back: Seq<char>,
    gap: Seq<char>,
    items: Seq<Seq<char>>,
    quote: Seq<char>,
    bracketed: bool,
    tail: Seq<char>,
)
    requires
        block.len() == 0 || block.last() != '\r',
        blank(front) && blank(back) && blank(gap) && blank(tail),
        is_name(name),
        is_quote(quote),
        forall|i: int| 0 <= i < items.len() ==> can_be_listed(#[trigger] items[i], quote),
        !bracketed ==> items.len() >= 2,
        ({
            let inner = joined(quoted(items, quote), seq![',', ' ']);
            let value = in_brackets(inner, bracketed);
            !(front + name + back + seq![':'] + (gap + value + tail)).contains('\n')
        }),
    ensures
        ({
            let inner = joined(quoted(items, quote), seq![',', ' ']);
            let value = in_brackets(inner, bracketed);
            let line = front + name + back + seq![':'] + (gap + value + tail);
            let list = Json::List(items.map_values(|item: Seq<char>| Json::Text(item)));
            &&& metadata_of(line) == Map::<Seq<char>, Json>::empty().insert(name, list)
            &&& metadata_of(block + seq!['\n'] + line) == metadata_of(block).insert(name, list)
        }),
{
    let inner = joined(quoted(items, quote), seq![',', ' ']);
    let value = in_brackets(inner, bracketed);
    lemma_inline_items(items, quote, bracketed);
    lemma_valued_line(block, front, name, back, gap, value, tail);
}

/// Items as they are written one below the other.
pub open spec fn listed(
    items: Seq<Seq<char>>,
    quote: Seq<char>,
    indent: Seq<char>,
    pad: Seq<char>,
) -> Seq<char>
    decreases items.len(),
{
    if items.len() == 0 {
        seq![]
    } else {
        listed(items.drop_last(), quote, indent, pad) + seq!['\n'] + item_line(
            items.last(),
            quote,
            indent,
            pad,
        )
    }
}

/// A line with one item.
pub open spec fn item_line(
    item: Seq<char>,
    quote: Seq<char>,
    indent: Seq<char>,
    pad: Seq<char>,
) -> Seq<char> {
    indent + seq!['-', ' '] + (pad + (quote + item + quote))
}

proof fn lemma_item_line(
    item: Seq<char>,
    quote: Seq<char>,
    indent: Seq<char>,
    pad: Seq<char>,
)
    requires
        is_quote(quote),
        can_be_quoted(item, quote),
        blank(indent),
        blank(pad),
    ensures
        significant(item_line(item, quote, indent, pad)),
        is_item(item_line(item, quote, indent, pad)),
        item_of(item_line(item, quote, indent, pad)) == item,
        item_line(item, quote, indent, pad).len() > 0,
        item_line(item, quote, indent, pad).last() != '\r',
{
    let none = Seq::<char>::empty();
    let written = quote + item + quote;
    let line = item_line(item, quote, indent, pad);
    let text = seq!['-', ' '] + (pad + written);
    law_trimming_leaves_the_middle(indent, text, none, CharClass::WhiteSpace);
    assert(text.last() == written.last());
    assert(indent + text + none == line);
    assert(stripped(line) == text);
    assert(text.take(2) == seq!['-', ' ']);
    assert(text.skip(2) == pad + written);
    law_trimming_leaves_the_middle(pad, written, none, CharClass::WhiteSpace);
    assert(pad + written + none == pad + written);
    law_only_quotes_are_dropped(item, quote);
    assert(line.last() == written.last());
}

/// The significant lines of a name with items below it.
proof fn lemma_listed_lines(
    head: Seq<char>,
    items: Seq<Seq<char>>,
    quote: Seq<char>,
    indent: Seq<char>,
    pad: Seq<char>,
)
    requires
        head.len() > 0,
        head.last() != '\r',
        kept_lines(head) == seq![head],
        is_quote(quote),
        blank(indent) && blank(pad),
        !indent.contains('\n') && !pad.contains('\n'),
        forall|i: int|
            0 <= i < items.len() ==> can_be_quoted(#[trigger] items[i], quote)
                && !items[i].contains('\n'),
    ensures
        kept_lines(head + listed(items, quote, indent, pad)) == seq![head] + items.map_values(
            |item: Seq<char>| item_line(item, quote, indent, pad),
        ),
        (head + listed(items, quote, indent, pad)).last() != '\r',
    decreases items.len(),
{
    let f = |item: Seq<char>| item_line(item, quote, indent, pad);
    if items.len() == 0 {
        assert(head + listed(items, quote, indent, pad) == head);
        assert(items.map_values(f) == Seq::<Seq<char>>::empty());
        assert(seq![head] + Seq::<Seq<char>>::empty() == seq![head]);
    } else {
        let init = items.drop_last();
        let item = items.last();
        assert(item == items[items.len() - 1]);
        assert forall|i: int| 0 <= i < init.len() implies can_be_quoted(#[trigger] init[i], quote)
            && !init[i].contains('\n') by {
            assert(init[i] == items[i]);
        }
        lemma_listed_lines(head, init, quote, indent, pad);
        let line = item_line(item, quote, indent, pad);
        let before = head + listed(init, quote, indent, pad);
        assert(head + listed(items, quote, indent, pad) == before + seq!['\n'] + line);
        assert(can_be_quoted(item, quote) && !item.contains('\n'));
        lemma_item_line(item, quote, indent, pad);
        lemma_kept_lines_add(before, line);
        assert(!line.contains('\n')) by {
            assert forall|i: int| 0 <= i < line.len() implies line[i] != '\n' by {
                let k = indent.len() + 2 + pad.len() + quote.len();
                if i < indent.len() {
                    assert(indent.contains(indent[i]));
                } else if indent.len() + 2 <= i < indent.len() + 2 + pad.len() {
                    assert(pad.contains(pad[i - indent.len() - 2]));
                } else if k <= i < k + item.len() {
                    assert(item.contains(item[i - k]));
                }
            }
        }
        law_lines_end_at_line_feeds(line, seq![]);
        lemma_kept_line(line);
        assert(kept_lines(line) == seq![line]);
        assert(items.map_values(f) == init.map_values(f).push(line));
    }
}

/// A line with a name and a colon, and lines with items below it, are one entry.
proof fn lemma_listed_entries(
    key: Seq<char>,
    items: Seq<Seq<char>>,
    quote: Seq<char>,
    indent: Seq<char>,
    pad: Seq<char>,
)
    requires
        cut_at(key + seq![':'], ':') == Some((key, Seq::<char>::empty())),
        is_quote(quote),
        blank(indent) && blank(pad),
        forall|i: int| 0 <= i < items.len() ==> can_be_quoted(#[trigger] items[i], quote),
    ensures
        entries_of(
            seq![key + seq![':']] + items.map_values(
                |item: Seq<char>| item_line(item, quote, indent, pad),
            ),
        ) == seq![(stripped(key), string_list(items))],
{
    let head = key + seq![':'];
    let rows = items.map_values(|item: Seq<char>| item_line(item, quote, indent, pad));
    let all = seq![head] + rows;
    assert(all.drop_first() == rows);
    let bounds = lemma_trimmed(Seq::<char>::empty(), CharClass::WhiteSpace);
    assert forall|i: int| 0 <= i < rows.len() implies is_item(#[trigger] rows[i]) && item_of(
        rows[i],
    ) == items[i] by {
        assert(can_be_quoted(items[i], quote));
        lemma_item_line(items[i], quote, indent, pad);
    }
    lemma_item_run(rows, rows.len() as int);
    let read = rows.take(rows.len() as int).map_values(|line: Seq<char>| item_of(line));
    assert(read == items);
    assert(rows.skip(rows.len() as int) == Seq::<Seq<char>>::empty());
    assert(entries_of(Seq::<Seq<char>>::empty()) == Seq::<(Seq<char>, Json)>::empty());
    assert(entries_of(all) == seq![(stripped(key), string_list(items))]);
}

/// A list below its name is read back: a line with the name and a colon, and then a
/// line with a dash for each item, in quotes or not.
pub proof fn law_lists_are_read(
    block: Seq<char>,
    front: Seq<char>,
    name: Seq<char>,
    back: Seq<char>,
    items: Seq<Seq<char>>,
    quote: Seq<char>,
    indent: Seq<char>,
    pad: Seq<char>,
)
    requires
        block.len() == 0 || block.last() != '\r',
        blank(front) && blank(back) && blank(indent) && blank(pad),
        !(front + name + back).contains('\n'),
        !indent.contains('\n') && !pad.contains('\n'),
        is_name(name),
        is_quote(quote),
        forall|i: int|
            0 <= i < items.len() ==> can_be_quoted(#[trigger] items[i], quote)
                && !items[i].contains('\n'),
    ensures
        ({
            let text = front + name + back + seq![':'] + listed(items, quote, indent, pad);
            let list = Json::List(items.map_values(|item: Seq<char>| Json::Text(item)));
            &&& metadata_of(text) == Map::<Seq<char>, Json>::empty().insert(name, list)
            &&& metadata_of(block + seq!['\n'] + text) == metadata_of(block).insert(name, list)
        }),
{
    let none = Seq::<char>::empty();
    let key = front + name + back;
    let head = key + seq![':'];
    let text = head + listed(items, quote, indent, pad);
    lemma_named_line(front, name, back, none);
    assert(key + seq![':'] + none == head);
    assert(!head.contains('\n')) by {
        assert forall|i: int| 0 <= i < head.len() implies head[i] != '\n' by {
            if i < key.len() {
                assert(key.contains(key[i]));
            }
        }
    }
    law_lines_end_at_line_feeds(head, none);
    lemma_kept_line(head);
    assert(kept_lines(head) == seq![head]);
    lemma_listed_lines(head, items, quote, indent, pad);
    lemma_listed_entries(key, items, quote, indent, pad);
    let entry = (name, string_list(items));
    lemma_metadata_add(block, text, seq![entry]);
    lemma_one_entry(metadata_of(block), name, string_list(items));
    lemma_one_entry(no_entries(), name, string_list(items));
}

/// Blank lines, comments, and lines without a colon that begin no item say nothing.
/// A block without lines has no entries.
pub proof fn law_other_lines_say_nothing(block: Seq<char>, front: Seq<char>, rest: Seq<char>)
    requires
        block.len() == 0 || block.last() != '\r',
        blank(front),
        !(front + rest).contains('\n'),
        rest.len() == 0 || rest[0] == '#' || (!white_space(rest[0]) && rest[0] != '-'
            && !rest.contains(':')),
    ensures
        metadata_of(block + seq!['\n'] + (front + rest)) == metadata_of(block),
        metadata_of(Seq::<char>::empty()) == Map::<Seq<char>, Json>::empty(),
{
    let none = Seq::<char>::empty();
    let line = front + rest;
    let n = front.len() as int;
    lemma_kept_line(line);
    law_lines_end_at_line_feeds(line, none);
    assert(entries_of(Seq::<Seq<char>>::empty()) == Seq::<(Seq<char>, Json)>::empty());
    assert(with_entries(metadata_of(block), Seq::empty()) == metadata_of(block));
    let (a, b) = lemma_trimmed(line, CharClass::WhiteSpace);
    if rest.len() == 0 {
        if a < b {
            assert(line[a] == front[a]);
        }
        assert(!significant(line));
    } else {
        assert(line[n] == rest[0]);
        if a < n {
            assert(line[a] == front[a]);
        }
        assert(a == n && b > n);
        assert(stripped(line)[0] == rest[0]);
    }
    if rest.len() == 0 || rest[0] == '#' {
        assert(kept_lines(line) == Seq::<Seq<char>>::empty());
    } else {
        assert(kept_lines(line) == seq![line]);
        if is_item(line) {
            assert(stripped(line).take(2)[0] == '-');
        }
        assert(!line.contains(':')) by {
            assert forall|i: int| 0 <= i < line.len() implies line[i] != ':' by {
                if i < n {
                    assert(white_space(front[i]));
                } else {
                    assert(rest.contains(rest[i - n]));
                }
            }
        }
        law_parts_lie_between_separators(line, none, ':');
        assert(seq![line].drop_first() == Seq::<Seq<char>>::empty());
        reveal_with_fuel(entries_of, 2);
        assert(entries_of(seq![line]) == Seq::<(Seq<char>, Json)>::empty());
    }
    lemma_metadata_add(block, line, Seq::empty());
}

/// A document with front matter has the metadata that the block between the fences
/// gives, and the text behind them. A line end behind the closing fence belongs to
/// it.
pub proof fn law_documents_are_taken_apart(
    open: Seq<char>,
    block: Seq<char>,
    close: Seq<char>,
    end: Seq<char>,
    rest: Seq<char>,
)
    requires
        is_front_matter(open, block, close, end, rest),
    ensures
        document_parts(open + block + close + end + rest) == (metadata_of(block), rest),
{
    law_front_matter_is_found(open, block, close, end, rest);
    lemma_parts_of_match(open + block + close + end, block, rest);
}

/// What is found at the start of a document is cut off.
proof fn lemma_parts_of_match(whole: Seq<char>, block: Seq<char>, rest: Seq<char>)
    requires
        front_matter_match(whole + rest) == Some((whole, block)),
    ensures
        document_parts(whole + rest) == (metadata_of(block), rest),
{
    assert((whole + rest).skip(whole.len() as int) == rest);
}

/// Only white space around a text is stripped, and all of it.
pub proof fn law_stripping_takes_white_space(
    front: Seq<char>,
    middle: Seq<char>,
    back: Seq<char>,
)
    requires
        blank(front),
        blank(back),
        middle.len() > 0 ==> !white_space(middle[0]) && !white_space(middle.last()),
    ensures
        stripped(front + middle + back) == middle,
{
    law_trimming_leaves_the_middle(front, middle, back, CharClass::WhiteSpace);
}

/// A document that does not begin with a line of three dashes, or in which no later
/// line begins with three dashes, has no metadata and is text from end to end.
pub proof fn law_documents_without_front_matter(content: Seq<char>)
    requires
        ({
            ||| !begins_with(content, seq!['-', '-', '-', '\n']) && !begins_with(
                content,
                seq!['-', '-', '-', '\r', '\n'],
            )
            ||| forall|i: int| 4 <= i < content.len() ==> !#[trigger] fence_at(content, i)
        }),
    ensures
        document_parts(content) == (Map::<Seq<char>, Json>::empty(), content),
{
    law_no_front_matter_is_found(content);
}

/// All double quotes at both ends of a value are dropped, and then all single quotes
/// at both ends of what is left; nothing else is.
pub proof fn law_quotes_are_dropped_at_the_ends(
    doubles: Seq<char>,
    singles: Seq<char>,
    text: Seq<char>,
    more_singles: Seq<char>,
    more_doubles: Seq<char>,
)
    requires
        forall|i: int| 0 <= i < doubles.len() ==> #[trigger] doubles[i] == '"',
        forall|i: int| 0 <= i < more_doubles.len() ==> #[trigger] more_doubles[i] == '"',
        forall|i: int| 0 <= i < singles.len() ==> #[trigger] singles[i] == '\'',
        forall|i: int| 0 <= i < more_singles.len() ==> #[trigger] more_singles[i] == '\'',
        text.len() > 0 ==> text[0] != '\'' && text.last() != '\'',
        text.len() > 0 && singles.len() == 0 ==> text[0] != '"',
        text.len() > 0 && more_singles.len() == 0 ==> text.last() != '"',
    ensures
        unquoted(doubles + (singles + text + more_singles) + more_doubles) == text,
{
    let middle = singles + text + more_singles;
    if middle.len() > 0 {
        assert(middle[0] == if singles.len() > 0 {
            singles[0]
        } else if text.len() > 0 {
            text[0]
        } else {
            more_singles[0]
        });
        assert(middle.last() == if more_singles.len() > 0 {
            more_singles[more_singles.len() - 1]
        } else if text.len() > 0 {
            text.last()
        } else {
            singles[singles.len() - 1]
        });
    }
    law_trimming_leaves_the_middle(doubles, middle, more_doubles, CharClass::Only('"'));
    law_trimming_leaves_the_middle(singles, text, more_singles, CharClass::Only('\''));
}

/// Every value that holds no comma and does not stand between brackets is read as a
/// string: the whole value, but for the quotes at its ends.
pub proof fn law_values_are_read_as_strings(
    block: Seq<char>,
    front: Seq<char>,
    name: Seq<char>,
    back: Seq<char>,
    gap: Seq<char>,
    value: Seq<char>,
    tail: Seq<char>,
)
    requires
        block.len() == 0 || block.last() != '\r',
        blank(front) && blank(back) && blank(gap) && blank(tail),
        is_name(name),
        value.len() > 0,
        !white_space(value[0]),
        !white_space(value.last()),
        !value.contains(','),
        !(value[0] == '[' && value.last() == ']'),
        !(front + name + back + seq![':'] + (gap + value + tail)).contains('\n'),
    ensures
        metadata_of(
            block + seq!['\n'] + (front + name + back + seq![':'] + (gap + value + tail)),
        ) == metadata_of(block).insert(name, Json::Text(unquoted(value))),
{
    lemma_valued_line(block, front, name, back, gap, value, tail);
}

/// Texts without the separator are the parts that it separates.
proof fn lemma_parts_of_separated(parts: Seq<Seq<char>>, sep: char)
    requires
        parts.len() > 0,
        forall|i: int| 0 <= i < parts.len() ==> !(#[trigger] parts[i]).contains(sep),
    ensures
        parts_of(joined(parts, seq![sep]), sep) == parts,
    decreases parts.len(),
{
    assert(!parts[0].contains(sep));
    if parts.len() == 1 {
        law_parts_lie_between_separators(parts[0], seq![], sep);
        assert(parts == seq![parts[0]]);
    } else {
        let rest = parts.drop_first();
        assert forall|i: int| 0 <= i < rest.len() implies !(#[trigger] rest[i]).contains(sep) by {
            assert(rest[i] == parts[i + 1]);
        }
        assert(parts == seq![parts[0]] + rest);
        lemma_joined_first(parts[0], rest, seq![sep]);
        law_parts_lie_between_separators(parts[0], joined(rest, seq![sep]), sep);
        lemma_parts_of_separated(rest, sep);
    }
}

/// A list on one line is cut at its commas: its items are what stands between them,
/// without white space around it and then without quotes around it; what is blank is
/// left out. Brackets around all of it do not count.
pub proof fn law_lists_are_cut_at_commas(
    block: Seq<char>,
    front: Seq<char>,
    name: Seq<char>,
    back: Seq<char>,
    gap: Seq<char>,
    parts: Seq<Seq<char>>,
    bracketed: bool,
    tail: Seq<char>,
)
    requires
        block.len() == 0 || block.last() != '\r',
        blank(front) && blank(back) && blank(gap) && blank(tail),
        is_name(name),
        parts.len() > 0,
        !bracketed ==> parts.len() > 1,
        forall|i: int| 0 <= i < parts.len() ==> !(#[trigger] parts[i]).contains(','),
        ({
            let inner = joined(parts, seq![',']);
            let value = in_brackets(inner, bracketed);
            &&& inner.len() > 0 ==> {
                &&& inner[0] != '[' && inner[0] != ']'
                &&& inner.last() != '[' && inner.last() != ']'
            }
            &&& value.len() > 0 && !white_space(value[0]) && !white_space(value.last())
            &&& !(front + name + back + seq![':'] + (gap + value + tail)).contains('\n')
        }),
    ensures
        ({
            let inner = joined(parts, seq![',']);
            let value = in_brackets(inner, bracketed);
            let items = parts.map_values(|part: Seq<char>| stripped(part)).filter(
                |part: Seq<char>| part.len() > 0,
            ).map_values(|part: Seq<char>| unquoted(part));
            metadata_of(
                block + seq!['\n'] + (front + name + back + seq![':'] + (gap + value + tail)),
            ) == metadata_of(block).insert(
                name,
                Json::List(items.map_values(|item: Seq<char>| Json::Text(item))),
            )
        }),
{
    let inner = joined(parts, seq![',']);
    let value = in_brackets(inner, bracketed);
    lemma_parts_of_separated(parts, ',');
    lemma_without_brackets(inner, bracketed);
    if !bracketed {
        let init = parts.drop_last();
        assert(parts == init.push(parts.last()));
        law_joining(init, parts.last(), seq![',']);
        assert(inner[joined(init, seq![',']).len() as int] == ',');
    }
    assert(is_inline_list(value));
    lemma_valued_line(block, front, name, back, gap, value, tail);
}

} // verus!
