//! Characters, lines and the small string operations that the chunker is made of.
//!
//! A text is modelled as the sequence of its characters.

use vstd::prelude::*;
use vstd::slice::slice_subrange;

verus! {

/// `String::push` appends the given character to the end of the string.
pub assume_specification[ String::push ](s: &mut String, c: char)
    ensures
        final(s)@ == old(s)@.push(c),
;

/// The characters with the Unicode property White_Space.
pub open spec fn white_space(c: char) -> bool {
    ||| '\t' <= c <= '\r'
    ||| c == ' '
    ||| c == '\u{85}'
    ||| c == '\u{a0}'
    ||| c == '\u{1680}'
    ||| '\u{2000}' <= c <= '\u{200a}'
    ||| c == '\u{2028}'
    ||| c == '\u{2029}'
    ||| c == '\u{202f}'
    ||| c == '\u{205f}'
    ||| c == '\u{3000}'
}

/// A set of characters to look for or to strip.
#[derive(Debug, Clone, Copy)]
pub enum CharClass {
    /// White space.
    WhiteSpace,
    /// One character.
    Only(char),
    /// Every character but one.
    Except(char),
    /// The square brackets `[` and `]`.
    Brackets,
}

impl CharClass {
    /// Membership in the class.
    pub open spec fn has(self, c: char) -> bool {
        match self {
            CharClass::WhiteSpace => white_space(c),
            CharClass::Only(x) => c == x,
            CharClass::Except(x) => c != x,
            CharClass::Brackets => c == '[' || c == ']',
        }
    }

    /// Whether `c` belongs to the class.
    pub fn contains(self, c: char) -> (r: bool)
        ensures
            r == self.has(c),
    {
        match self {
            CharClass::WhiteSpace => is_white_space(c),
            CharClass::Only(x) => c == x,
            CharClass::Except(x) => c != x,
            CharClass::Brackets => c == '[' || c == ']',
        }
    }
}

/// Whether `c` has the Unicode property White_Space.
pub fn is_white_space(c: char) -> (r: bool)
    ensures
        r == white_space(c),
{
    ('\t' <= c && c <= '\r') || c == ' ' || c == '\u{85}' || c == '\u{a0}' || c == '\u{1680}' || (
    '\u{2000}' <= c && c <= '\u{200a}') || c == '\u{2028}' || c == '\u{2029}' || c == '\u{202f}'
        || c == '\u{205f}' || c == '\u{3000}'
}

/// The number of characters of `class` that `s` begins with.
pub open spec fn span(s: Seq<char>, class: CharClass) -> nat
    decreases s.len(),
{
    if s.len() == 0 || !class.has(s[0]) {
        0
    } else {
        1 + span(s.drop_first(), class)
    }
}

/// The number of characters of `class` that `s` ends with.
pub open spec fn span_back(s: Seq<char>, class: CharClass) -> nat
    decreases s.len(),
{
    if s.len() == 0 || !class.has(s.last()) {
        0
    } else {
        1 + span_back(s.drop_last(), class)
    }
}

/// `span` is the one length at which the leading run of `class` stops.
pub proof fn lemma_span(s: Seq<char>, class: CharClass)
    ensures
        0 <= span(s, class) <= s.len(),
        forall|i: int| 0 <= i < span(s, class) ==> class.has(#[trigger] s[i]),
        span(s, class) < s.len() ==> !class.has(s[span(s, class) as int]),
    decreases s.len(),
{
    if s.len() > 0 && class.has(s[0]) {
        let rest = s.drop_first();
        lemma_span(rest, class);
        assert forall|i: int| 0 <= i < span(s, class) implies class.has(#[trigger] s[i]) by {
            if i > 0 {
                assert(s[i] == rest[i - 1]);
            }
        }
        if span(s, class) < s.len() {
            assert(s[span(s, class) as int] == rest[span(rest, class) as int]);
        }
    }
}

/// A length at which a leading run of `class` stops is `span`.
pub proof fn lemma_span_is(s: Seq<char>, class: CharClass, n: int)
    requires
        0 <= n <= s.len(),
        forall|i: int| 0 <= i < n ==> class.has(#[trigger] s[i]),
        n < s.len() ==> !class.has(s[n]),
    ensures
        span(s, class) == n,
{
    lemma_span(s, class);
    let k = span(s, class) as int;
    if k < n {
        assert(class.has(s[k]));
    }
    if n < k {
        assert(class.has(s[n]));
    }
}

/// `span_back` is the one length at which the trailing run of `class` stops.
pub proof fn lemma_span_back(s: Seq<char>, class: CharClass)
    ensures
        span_back(s, class) <= s.len(),
        forall|i: int| s.len() - span_back(s, class) <= i < s.len() ==> class.has(#[trigger] s[i]),
        span_back(s, class) < s.len() ==> !class.has(s[s.len() - span_back(s, class) - 1]),
    decreases s.len(),
{
    if s.len() > 0 && class.has(s.last()) {
        let front = s.drop_last();
        lemma_span_back(front, class);
        assert forall|i: int| s.len() - span_back(s, class) <= i < s.len() implies class.has(
            #[trigger] s[i],
        ) by {
            if i < s.len() - 1 {
                assert(s[i] == front[i]);
            }
        }
    }
}

/// A length at which a trailing run of `class` stops is `span_back`.
pub proof fn lemma_span_back_is(s: Seq<char>, class: CharClass, n: int)
    requires
        0 <= n <= s.len(),
        forall|i: int| s.len() - n <= i < s.len() ==> class.has(#[trigger] s[i]),
        n < s.len() ==> !class.has(s[s.len() - n - 1]),
    ensures
        span_back(s, class) == n,
{
    lemma_span_back(s, class);
    let k = span_back(s, class) as int;
    if k < n {
        assert(class.has(s[s.len() - k - 1]));
    }
    if n < k {
        assert(class.has(s[s.len() - n - 1]));
    }
}

/// `s` without the characters of `class` that it begins with.
pub open spec fn trim_front(s: Seq<char>, class: CharClass) -> Seq<char> {
    s.skip(span(s, class) as int)
}

/// `s` without the characters of `class` that it ends with.
pub open spec fn trim_back(s: Seq<char>, class: CharClass) -> Seq<char> {
    s.take(s.len() - span_back(s, class))
}

/// `s` without the characters of `class` at either end.
pub open spec fn trimmed(s: Seq<char>, class: CharClass) -> Seq<char> {
    trim_back(trim_front(s, class), class)
}

/// What is trimmed away is of the class, and what is left begins and ends with
/// characters that are not.
pub proof fn lemma_trimmed(s: Seq<char>, class: CharClass) -> (r: (int, int))
    ensures
        0 <= r.0 <= r.1 <= s.len(),
        trimmed(s, class) == s.subrange(r.0, r.1),
        forall|i: int| 0 <= i < r.0 ==> class.has(#[trigger] s[i]),
        forall|i: int| r.1 <= i < s.len() ==> class.has(#[trigger] s[i]),
        r.0 < r.1 ==> !class.has(s[r.0]) && !class.has(s[r.1 - 1]),
{
    let front = trim_front(s, class);
    lemma_span(s, class);
    lemma_span_back(front, class);
    let a = span(s, class) as int;
    let b = s.len() - span_back(front, class);
    assert(trimmed(s, class) == s.subrange(a, b));
    assert forall|i: int| b <= i < s.len() implies class.has(#[trigger] s[i]) by {
        assert(s[i] == front[i - a]);
    }
    (a, b)
}

/// The characters of each string.
pub open spec fn views(v: Seq<String>) -> Seq<Seq<char>> {
    v.map_values(|s: String| s@)
}

/// A line without the carriage return of its line ending.
pub open spec fn without_return(line: Seq<char>) -> Seq<char> {
    if line.len() > 0 && line.last() == '\r' {
        line.drop_last()
    } else {
        line
    }
}

/// The lines of `s`. A line ends at `\n` or `\r\n`, which is not part of it;
/// the last line need not end.
pub open spec fn lines_of(s: Seq<char>) -> Seq<Seq<char>>
    decreases s.len(),
{
    if s.len() == 0 {
        seq![]
    } else {
        let n = span(s, CharClass::Except('\n')) as int;
        if n >= s.len() {
            seq![s]
        } else {
            seq![without_return(s.take(n))] + lines_of(s.skip(n + 1))
        }
    }
}

/// The parts of `s` between the occurrences of `sep`.
pub open spec fn parts_of(s: Seq<char>, sep: char) -> Seq<Seq<char>>
    decreases s.len(),
{
    let n = span(s, CharClass::Except(sep)) as int;
    if n >= s.len() {
        seq![s]
    } else {
        proof {
            lemma_span(s, CharClass::Except(sep));
        }
        seq![s.take(n)] + parts_of(s.skip(n + 1), sep)
    }
}

/// `s` cut in two at the first `sep`.
pub open spec fn cut_at(s: Seq<char>, sep: char) -> Option<(Seq<char>, Seq<char>)> {
    let n = span(s, CharClass::Except(sep)) as int;
    if n >= s.len() {
        None
    } else {
        Some((s.take(n), s.skip(n + 1)))
    }
}

/// The given texts in a row, with `sep` between neighbours.
pub open spec fn joined(parts: Seq<Seq<char>>, sep: Seq<char>) -> Seq<char>
    decreases parts.len(),
{
    if parts.len() == 0 {
        seq![]
    } else if parts.len() == 1 {
        parts[0]
    } else {
        joined(parts.drop_last(), sep) + sep + parts.last()
    }
}

/// Whether `s` begins with `prefix`.
pub open spec fn begins_with(s: Seq<char>, prefix: Seq<char>) -> bool {
    prefix.len() <= s.len() && s.take(prefix.len() as int) == prefix
}

/// `n` in decimal digits.
pub open spec fn decimal(n: nat) -> Seq<char>
    decreases n,
{
    let digit = (48 + n % 10) as char;
    if n < 10 {
        seq![digit]
    } else {
        decimal(n / 10).push(digit)
    }
}

/// The characters of `s`.
pub fn chars_of(s: &str) -> (v: Vec<char>)
    ensures
        v@ == s@,
{
    let mut v: Vec<char> = Vec::new();
    for c in it: s.chars()
        invariant
            it.seq() == s@,
            v@ == s@.take(it.index() as int),
    {
        v.push(c);
    }
    v
}

/// The string of the given characters.
pub fn string_of(v: &[char]) -> (s: String)
    ensures
        s@ == v@,
{
    let mut s = String::new();
    let mut i: usize = 0;
    while i < v.len()
        invariant
            i <= v@.len(),
            s@ == v@.take(i as int),
        decreases v@.len() - i,
    {
        s.push(v[i]);
        i += 1;
    }
    assert(v@.take(i as int) == v@);
    s
}

/// `s` without the characters of `class` at either end.
pub fn trim(s: &str, class: CharClass) -> (r: String)
    ensures
        r@ == trimmed(s@, class),
{
    let v = chars_of(s);
    let (a, b) = trim_bounds(v.as_slice(), class);
    string_of(slice_subrange(v.as_slice(), a, b))
}

/// The range of `v` that is left when the characters of `class` at either end
/// are taken away.
pub fn trim_bounds(v: &[char], class: CharClass) -> (r: (usize, usize))
    ensures
        r.0 <= r.1 <= v@.len(),
        v@.subrange(r.0 as int, r.1 as int) == trimmed(v@, class),
{
    let mut a: usize = 0;
    while a < v.len() && class.contains(v[a])
        invariant
            a <= v@.len(),
            forall|i: int| 0 <= i < a ==> class.has(#[trigger] v@[i]),
        decreases v@.len() - a,
    {
        a += 1;
    }
    let mut b: usize = v.len();
    while a < b && class.contains(v[b - 1])
        invariant
            a <= b <= v@.len(),
            forall|i: int| b <= i < v@.len() ==> class.has(#[trigger] v@[i]),
        decreases b - a,
    {
        b -= 1;
    }
    proof {
        lemma_span_is(v@, class, a as int);
        let front = v@.skip(a as int);
        assert forall|i: int| b - a <= i < front.len() implies class.has(#[trigger] front[i]) by {
            assert(front[i] == v@[i + a]);
        }
        lemma_span_back_is(front, class, v@.len() - b);
        assert(trimmed(v@, class) == front.take(b - a));
        assert(v@.subrange(a as int, b as int) == front.take(b - a));
    }
    (a, b)
}

/// The index of the first `sep` at or after `from`, or the length of `v`.
pub fn find_from(v: &[char], from: usize, sep: char) -> (i: usize)
    requires
        from <= v@.len(),
    ensures
        from <= i <= v@.len(),
        i - from == span(v@.skip(from as int), CharClass::Except(sep)),
{
    let mut i: usize = from;
    while i < v.len() && v[i] != sep
        invariant
            from <= i <= v@.len(),
            forall|k: int| from <= k < i ==> #[trigger] v@[k] != sep,
        decreases v@.len() - i,
    {
        i += 1;
    }
    proof {
        let rest = v@.skip(from as int);
        assert forall|k: int| 0 <= k < i - from implies CharClass::Except(sep).has(
            #[trigger] rest[k],
        ) by {
            assert(rest[k] == v@[k + from]);
        }
        lemma_span_is(rest, CharClass::Except(sep), i - from);
    }
    i
}

/// The lines of `s`.
pub fn lines(s: &str) -> (r: Vec<String>)
    ensures
        views(r@) == lines_of(s@),
{
    let v = chars_of(s);
    let mut r: Vec<String> = Vec::new();
    let mut at: usize = 0;
    proof {
        assert(v@.skip(0) == s@);
        assert(views(r@) == Seq::<Seq<char>>::empty());
    }
    while at < v.len()
        invariant
            v@ == s@,
            at <= v@.len(),
            lines_of(s@) == views(r@) + lines_of(s@.skip(at as int)),
        decreases v@.len() - at,
    {
        let end = find_from(v.as_slice(), at, '\n');
        let ghost rest = s@.skip(at as int);
        let ghost before = r@;
        if end == v.len() {
            r.push(string_of(slice_subrange(v.as_slice(), at, end)));
            proof {
                assert(s@.subrange(at as int, end as int) == rest);
                assert(views(r@) == views(before).push(rest));
                assert(s@.skip(end as int) == Seq::<char>::empty());
            }
            at = end;
        } else {
            let stop = if end > at && v[end - 1] == '\r' {
                end - 1
            } else {
                end
            };
            r.push(string_of(slice_subrange(v.as_slice(), at, stop)));
            proof {
                let n = end - at;
                assert(rest.take(n) == s@.subrange(at as int, end as int));
                assert(without_return(rest.take(n)) == s@.subrange(at as int, stop as int));
                assert(views(r@) == views(before).push(without_return(rest.take(n))));
                assert(rest.skip(n + 1) == s@.skip(end + 1));
                assert(views(before) + (seq![without_return(rest.take(n))] + lines_of(
                    s@.skip(end + 1),
                )) == views(r@) + lines_of(s@.skip(end + 1)));
            }
            at = end + 1;
        }
    }
    proof {
        assert(s@.skip(at as int) == Seq::<char>::empty());
        assert(views(r@) + lines_of(s@.skip(at as int)) == views(r@));
    }
    r
}

/// The parts of `s` between the occurrences of `sep`.
pub fn split(s: &str, sep: char) -> (r: Vec<String>)
    ensures
        views(r@) == parts_of(s@, sep),
{
    let v = chars_of(s);
    let mut r: Vec<String> = Vec::new();
    let mut at: usize = 0;
    let mut end: usize = find_from(v.as_slice(), 0, sep);
    proof {
        assert(v@.skip(0) == s@);
        assert(views(r@) == Seq::<Seq<char>>::empty());
    }
    while end < v.len()
        invariant
            v@ == s@,
            at <= end <= v@.len(),
            end - at == span(s@.skip(at as int), CharClass::Except(sep)),
            parts_of(s@, sep) == views(r@) + parts_of(s@.skip(at as int), sep),
        decreases v@.len() - at,
    {
        let ghost rest = s@.skip(at as int);
        let ghost before = r@;
        r.push(string_of(slice_subrange(v.as_slice(), at, end)));
        proof {
            let n = end - at;
            assert(rest.take(n) == s@.subrange(at as int, end as int));
            assert(views(r@) == views(before).push(rest.take(n)));
            assert(rest.skip(n + 1) == s@.skip(end + 1));
            assert(views(before) + (seq![rest.take(n)] + parts_of(s@.skip(end + 1), sep)) == views(
                r@,
            ) + parts_of(s@.skip(end + 1), sep));
        }
        at = end + 1;
        end = find_from(v.as_slice(), at, sep);
    }
    let ghost before = r@;
    r.push(string_of(slice_subrange(v.as_slice(), at, end)));
    proof {
        assert(s@.subrange(at as int, end as int) == s@.skip(at as int));
        assert(views(r@) == views(before) + seq![s@.skip(at as int)]);
    }
    r
}

/// `s` cut in two at the first `sep`, which belongs to neither part.
pub fn split_once(s: &str, sep: char) -> (r: Option<(String, String)>)
    ensures
        match r {
            Some((a, b)) => cut_at(s@, sep) == Some((a@, b@)),
            None => cut_at(s@, sep) is None,
        },
{
    let v = chars_of(s);
    let n = find_from(v.as_slice(), 0, sep);
    proof {
        assert(v@.skip(0) == s@);
    }
    if n == v.len() {
        None
    } else {
        let a = string_of(slice_subrange(v.as_slice(), 0, n));
        let b = string_of(slice_subrange(v.as_slice(), n + 1, v.len()));
        proof {
            assert(s@.take(n as int) == s@.subrange(0, n as int));
            assert(s@.skip(n + 1) == s@.subrange(n + 1, s@.len() as int));
        }
        Some((a, b))
    }
}

/// The given strings in a row, with `sep` between neighbours.
pub fn join(parts: &Vec<String>, sep: &str) -> (r: String)
    ensures
        r@ == joined(views(parts@), sep@),
{
    let mut r = String::new();
    let mut i: usize = 0;
    proof {
        assert(views(parts@).take(0) == Seq::<Seq<char>>::empty());
    }
    while i < parts.len()
        invariant
            i <= parts@.len(),
            r@ == joined(views(parts@).take(i as int), sep@),
        decreases parts@.len() - i,
    {
        if i > 0 {
            r.append(sep);
        }
        r.append(parts[i].as_str());
        proof {
            let next = views(parts@).take(i + 1);
            assert(next.drop_last() == views(parts@).take(i as int));
            assert(next.last() == parts@[i as int]@);
        }
        i += 1;
    }
    assert(views(parts@).take(i as int) == views(parts@));
    r
}

/// Whether `s` begins with `prefix`.
pub fn starts_with(s: &[char], prefix: &[char]) -> (r: bool)
    ensures
        r == begins_with(s@, prefix@),
{
    if s.len() < prefix.len() {
        return false;
    }
    let mut i: usize = 0;
    while i < prefix.len()
        invariant
            i <= prefix@.len() <= s@.len(),
            forall|k: int| 0 <= k < i ==> s@[k] == #[trigger] prefix@[k],
        decreases prefix@.len() - i,
    {
        if s[i] != prefix[i] {
            proof {
                assert(s@.take(prefix@.len() as int)[i as int] != prefix@[i as int]);
            }
            return false;
        }
        i += 1;
    }
    assert(s@.take(prefix@.len() as int) == prefix@);
    true
}

/// `n` in decimal digits.
pub fn decimal_string(n: usize) -> (r: String)
    ensures
        r@ == decimal(n as nat),
    decreases n,
{
    let digit = (48u8 + (n % 10) as u8) as char;
    let mut r = if n < 10 {
        String::new()
    } else {
        decimal_string(n / 10)
    };
    r.push(digit);
    proof {
        assert(digit == (48 + n as nat % 10) as char);
    }
    r
}

/// The first text comes first.
pub proof fn lemma_joined_first(first: Seq<char>, rest: Seq<Seq<char>>, sep: Seq<char>)
    requires
        rest.len() > 0,
    ensures
        joined(seq![first] + rest, sep) == first + sep + joined(rest, sep),
    decreases rest.len(),
{
    let all = seq![first] + rest;
    assert(all.last() == rest.last());
    if rest.len() == 1 {
        assert(all.drop_last() == seq![first]);
        assert(joined(all.drop_last(), sep) == first);
    } else {
        assert(all.drop_last() == seq![first] + rest.drop_last());
        lemma_joined_first(first, rest.drop_last(), sep);
    }
    assert(joined(all, sep) == first + sep + joined(rest, sep));
}

/// The line feed that `s` ends with, if it does.
pub open spec fn final_feed(s: Seq<char>) -> Seq<char> {
    if s.len() > 0 && s.last() == '\n' {
        seq!['\n']
    } else {
        seq![]
    }
}

/// The lines of a text make it up: joined again, and with the line feed that ends
/// it, they give it back. This asks that no line feed has a carriage return before
/// it, as that is dropped.
pub proof fn law_lines_make_up_the_text(s: Seq<char>)
    requires
        forall|i: int, j: int|
            0 <= i && j == i + 1 && j < s.len() ==> !(#[trigger] s[i] == '\r' && #[trigger] s[j]
                == '\n'),
    ensures
        joined(lines_of(s), seq!['\n']) + final_feed(s) == s,
    decreases s.len(),
{
    let feed = seq!['\n'];
    let class = CharClass::Except('\n');
    lemma_span(s, class);
    let n = span(s, class) as int;
    if s.len() == 0 {
    } else if n >= s.len() {
        assert(class.has(s[s.len() - 1]));
        assert(joined(lines_of(s), feed) == s);
    } else {
        let first = s.take(n);
        let rest = s.skip(n + 1);
        assert(s[n] == '\n');
        if n > 0 {
            assert(first.last() == s[n - 1]);
        }
        assert(without_return(first) == first);
        assert(s == first + feed + rest);
        assert forall|i: int, j: int| 0 <= i && j == i + 1 && j < rest.len() implies !(
        #[trigger] rest[i] == '\r' && #[trigger] rest[j] == '\n') by {
            assert(rest[i] == s[n + 1 + i] && rest[j] == s[n + 1 + j]);
        }
        law_lines_make_up_the_text(rest);
        if rest.len() == 0 {
            assert(lines_of(s) == seq![first]);
            assert(joined(lines_of(s), feed) + final_feed(s) == s);
        } else {
            lemma_joined_first(first, lines_of(rest), feed);
            assert(rest.last() == s.last());
            assert(joined(lines_of(s), feed) + final_feed(s) == first + feed + (joined(
                lines_of(rest),
                feed,
            ) + final_feed(rest)));
        }
    }
}

/// `s` with a carriage return before each line feed.
pub open spec fn with_returns(s: Seq<char>) -> Seq<char>
    decreases s.len(),
{
    if s.len() == 0 {
        seq![]
    } else if s[0] == '\n' {
        seq!['\r', '\n'] + with_returns(s.drop_first())
    } else {
        seq![s[0]] + with_returns(s.drop_first())
    }
}

/// How `with_returns(s)` begins, and what follows.
pub proof fn lemma_with_returns_first(s: Seq<char>)
    requires
        s.len() > 0,
    ensures
        s[0] == '\n' ==> {
            &&& with_returns(s).len() >= 2
            &&& with_returns(s)[0] == '\r'
            &&& with_returns(s)[1] == '\n'
            &&& with_returns(s).skip(2) == with_returns(s.drop_first())
        },
        s[0] != '\n' ==> {
            &&& with_returns(s).len() >= 1
            &&& with_returns(s)[0] == s[0]
            &&& with_returns(s).skip(1) == with_returns(s.drop_first())
        },
{
    let rest = with_returns(s.drop_first());
    assert((seq!['\r', '\n'] + rest).skip(2) == rest);
    assert((seq![s[0]] + rest).skip(1) == rest);
}

/// `with_returns` works on each part of a text by itself.
pub proof fn lemma_with_returns_add(a: Seq<char>, b: Seq<char>)
    ensures
        with_returns(a + b) == with_returns(a) + with_returns(b),
    decreases a.len(),
{
    if a.len() == 0 {
        assert(a + b == b);
        assert(with_returns(a) + with_returns(b) == with_returns(b));
    } else {
        let rest = a.drop_first();
        lemma_with_returns_add(rest, b);
        assert((a + b).drop_first() == rest + b);
        assert((a + b)[0] == a[0]);
        assert(with_returns(a + b) == with_returns(a) + with_returns(b));
    }
}

/// A line feed gets its carriage return.
pub proof fn lemma_with_returns_feed()
    ensures
        with_returns(seq!['\n']) == seq!['\r', '\n'],
{
    reveal_with_fuel(with_returns, 2);
    assert(seq!['\n'].drop_first() == Seq::<char>::empty());
    assert(with_returns(seq!['\n']) == seq!['\r', '\n']);
}

/// A text without line feeds stays as it is.
pub proof fn lemma_with_returns_none(s: Seq<char>)
    requires
        forall|i: int| 0 <= i < s.len() ==> #[trigger] s[i] != '\n',
    ensures
        with_returns(s) == s,
    decreases s.len(),
{
    if s.len() > 0 {
        let rest = s.drop_first();
        assert forall|i: int| 0 <= i < rest.len() implies #[trigger] rest[i] != '\n' by {
            assert(rest[i] == s[i + 1]);
        }
        lemma_with_returns_none(rest);
        assert(seq![s[0]] + rest == s);
    }
    assert(with_returns(s) == s);
}

/// Lines that end with a carriage return and a line feed are the same lines as
/// those that end with a line feed.
pub proof fn law_lines_are_without_returns(s: Seq<char>)
    requires
        !s.contains('\r'),
    ensures
        lines_of(with_returns(s)) == lines_of(s),
    decreases s.len(),
{
    let class = CharClass::Except('\n');
    lemma_span(s, class);
    let n = span(s, class) as int;
    let first = s.take(n);
    assert forall|i: int| 0 <= i < first.len() implies #[trigger] first[i] != '\n' by {
        assert(class.has(s[i]));
    }
    lemma_with_returns_none(first);
    if n >= s.len() {
        assert(first == s);
    } else {
        let rest = s.skip(n + 1);
        let feed = seq!['\n'];
        assert(s[n] == '\n');
        assert(s == first + feed + rest);
        lemma_with_returns_add(first + feed, rest);
        lemma_with_returns_add(first, feed);
        lemma_with_returns_feed();
        let w = with_returns(s);
        assert(w == first + seq!['\r', '\n'] + with_returns(rest));
        assert forall|i: int| 0 <= i < n + 1 implies class.has(#[trigger] w[i]) by {
            if i < n {
                assert(w[i] == first[i]);
            }
        }
        assert(w[n + 1] == '\n');
        lemma_span_is(w, class, n + 1);
        assert(w.take(n + 1) == first.push('\r'));
        assert(without_return(w.take(n + 1)) == first);
        if n > 0 {
            assert(s.contains(first.last())) by {
                assert(s[n - 1] == first.last());
            }
        }
        assert(without_return(first) == first);
        assert(w.skip(n + 2) == with_returns(rest));
        assert(!rest.contains('\r')) by {
            assert forall|i: int| 0 <= i < rest.len() implies rest[i] != '\r' by {
                assert(s.contains(s[n + 1 + i]));
            }
        }
        law_lines_are_without_returns(rest);
    }
}

/// Each class holds the characters that its name says.
pub proof fn law_char_classes(c: char, x: char)
    ensures
        CharClass::WhiteSpace.has(c) == white_space(c),
        CharClass::Only(x).has(c) == (c == x),
        CharClass::Except(x).has(c) == (c != x),
        CharClass::Brackets.has(c) == (c == '[' || c == ']'),
{
}

/// Trimming takes what is of the class at both ends, and nothing else: of a text
/// whose middle begins and ends with other characters, the middle is left.
pub proof fn law_trimming_leaves_the_middle(
    front: Seq<char>,
    middle: Seq<char>,
    back: Seq<char>,
    class: CharClass,
)
    requires
        forall|i: int| 0 <= i < front.len() ==> class.has(#[trigger] front[i]),
        forall|i: int| 0 <= i < back.len() ==> class.has(#[trigger] back[i]),
        middle.len() > 0 ==> !class.has(middle[0]) && !class.has(middle.last()),
    ensures
        trimmed(front + middle + back, class) == middle,
{
    let s = front + middle + back;
    let (a, b) = lemma_trimmed(s, class);
    let (m, n) = (front.len() as int, (front.len() + middle.len()) as int);
    if middle.len() == 0 {
        if a < b {
            assert(s[a] == if a < m {
                front[a]
            } else {
                back[a - n]
            });
        }
        assert(trimmed(s, class) == middle);
    } else {
        assert(s[m] == middle[0]);
        assert(s[n - 1] == middle.last());
        assert(a < b);
        if a < m {
            assert(s[a] == front[a]);
        }
        if b > n {
            assert(s[b - 1] == back[b - 1 - n]);
        }
        assert(a == m && b == n);
        assert(s.subrange(a, b) == middle);
    }
}

/// Texts are joined with the separator between neighbours, and nowhere else.
pub proof fn law_joining(parts: Seq<Seq<char>>, part: Seq<char>, sep: Seq<char>)
    ensures
        joined(Seq::<Seq<char>>::empty(), sep) == Seq::<char>::empty(),
        joined(seq![part], sep) == part,
        parts.len() > 0 ==> joined(parts.push(part), sep) == joined(parts, sep) + sep + part,
{
    assert(parts.push(part).drop_last() == parts);
}

/// A line ends at the first line feed; one carriage return before that is dropped.
/// What follows has its own lines. A text without line feeds is one line, unless it
/// is empty.
pub proof fn law_lines_end_at_line_feeds(line: Seq<char>, rest: Seq<char>)
    requires
        !line.contains('\n'),
    ensures
        lines_of(Seq::<char>::empty()) == Seq::<Seq<char>>::empty(),
        line.len() > 0 ==> lines_of(line) == seq![line],
        line.len() == 0 || line.last() != '\r' ==> lines_of(line + seq!['\n'] + rest) == seq![line]
            + lines_of(rest),
        lines_of(line + seq!['\r', '\n'] + rest) == seq![line] + lines_of(rest),
{
    lemma_first_line(line, rest);
    lemma_first_line(line.push('\r'), rest);
    assert(line.push('\r') + seq!['\n'] + rest == line + seq!['\r', '\n'] + rest);
    assert(line.push('\r').drop_last() == line);
    if line.len() > 0 {
        let class = CharClass::Except('\n');
        assert forall|i: int| 0 <= i < line.len() implies class.has(#[trigger] line[i]) by {
            assert(line.contains(line[i]));
        }
        lemma_span_is(line, class, line.len() as int);
    }
}

/// The first line ends at the first line feed.
pub proof fn lemma_first_line(line: Seq<char>, rest: Seq<char>)
    requires
        forall|i: int| 0 <= i < line.len() ==> #[trigger] line[i] != '\n',
    ensures
        lines_of(line + seq!['\n'] + rest) == seq![without_return(line)] + lines_of(rest),
{
    let s = line + seq!['\n'] + rest;
    let class = CharClass::Except('\n');
    let n = line.len() as int;
    assert forall|i: int| 0 <= i < n implies class.has(#[trigger] s[i]) by {
        assert(s[i] == line[i]);
    }
    assert(s[n] == '\n');
    lemma_span_is(s, class, n);
    assert(s.take(n) == line);
    assert(s.skip(n + 1) == rest);
}

/// A text is cut at each separator, and only there.
pub proof fn law_parts_lie_between_separators(part: Seq<char>, rest: Seq<char>, sep: char)
    requires
        !part.contains(sep),
    ensures
        parts_of(part, sep) == seq![part],
        parts_of(part + seq![sep] + rest, sep) == seq![part] + parts_of(rest, sep),
        cut_at(part, sep) is None,
        cut_at(part + seq![sep] + rest, sep) == Some((part, rest)),
{
    let class = CharClass::Except(sep);
    let s = part + seq![sep] + rest;
    let n = part.len() as int;
    assert forall|i: int| 0 <= i < n implies class.has(#[trigger] part[i]) by {
        assert(part.contains(part[i]));
    }
    assert forall|i: int| 0 <= i < n implies class.has(#[trigger] s[i]) by {
        assert(s[i] == part[i]);
    }
    assert(s[n] == sep);
    lemma_span_is(part, class, n);
    lemma_span_is(s, class, n);
    assert(s.take(n) == part);
    assert(s.skip(n + 1) == rest);
}

/// Decimal digits: a number below ten is its digit, and ten times a number and a
/// digit more is that number with the digit behind it.
pub proof fn law_decimal_digits(n: nat, digit: nat)
    requires
        digit < 10,
    ensures
        decimal(digit) == seq![(48 + digit) as char],
        n > 0 ==> decimal(10 * n + digit) == decimal(n).push((48 + digit) as char),
{
    assert((10 * n + digit) / 10 == n && (10 * n + digit) % 10 == digit);
}

/// Where one of the texts stands among those that are joined.
pub proof fn lemma_joined_place(parts: Seq<Seq<char>>, sep: Seq<char>, m: int) -> (start: int)
    requires
        0 <= m < parts.len(),
    ensures
        0 <= start,
        start + parts[m].len() <= joined(parts, sep).len(),
        forall|q: int|
            0 <= q < parts[m].len() ==> joined(parts, sep)[start + q] == #[trigger] parts[m][q],
    decreases parts.len(),
{
    if parts.len() == 1 {
        0
    } else {
        let init = parts.drop_last();
        if m < init.len() {
            let start = lemma_joined_place(init, sep, m);
            assert forall|q: int| 0 <= q < parts[m].len() implies joined(parts, sep)[start + q]
                == #[trigger] parts[m][q] by {
                assert(init[m][q] == parts[m][q]);
            }
            start
        } else {
            (joined(init, sep) + sep).len() as int
        }
    }
}

/// A list of strings is taken for what the strings hold.
pub proof fn law_strings_are_their_characters(v: Seq<String>, i: int)
    requires
        0 <= i < v.len(),
    ensures
        views(v).len() == v.len(),
        views(v)[i] == v[i]@,
{
}

} // verus!
