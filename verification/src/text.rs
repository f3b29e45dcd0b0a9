//! Text as sequences of characters: the trimming, splitting and searching
//! that the vault format, the YAML scanner and the configuration reader share.

use vstd::prelude::*;
use vstd::string::*;
use vstd::utf8::*;

verus! {

broadcast use vstd::string::group_string_axioms;

/// `String::push` appends one character at the end.
pub assume_specification[ String::push ](s: &mut String, c: char)
    ensures
        final(s)@ == old(s)@.push(c),
;

/// `String::from_utf8`: the text that `bytes` encode, where they are UTF-8.
#[verifier::external_body]
pub(crate) fn utf8_text(bytes: Vec<u8>) -> (r: Option<String>)
    ensures
        match r {
            Some(s) => valid_utf8(bytes@) && s@ == decode_utf8(bytes@),
            None => !valid_utf8(bytes@),
        },
{
    String::from_utf8(bytes).ok()
}

/// What `String::from_utf8_lossy` makes of bytes: those that are not UTF-8 it
/// replaces.
pub uninterp spec fn utf8_lossy_text(bytes: Seq<u8>) -> Seq<char>;

/// `String::from_utf8_lossy`: bytes that are UTF-8 it only decodes.
#[verifier::external_body]
pub(crate) fn utf8_lossy(bytes: &[u8]) -> (r: String)
    ensures
        r@ == utf8_lossy_text(bytes@),
        valid_utf8(bytes@) ==> r@ == decode_utf8(bytes@),
{
    String::from_utf8_lossy(bytes).into_owned()
}

// ---------------------------------------------------------------------------
// Model
// ---------------------------------------------------------------------------

/// The characters with the Unicode property White_Space.
pub open spec fn is_ws(c: char) -> bool {
    let u = c as u32;
    ||| 0x09 <= u <= 0x0d
    ||| u == 0x20
    ||| u == 0x85
    ||| u == 0xa0
    ||| u == 0x1680
    ||| 0x2000 <= u <= 0x200a
    ||| u == 0x2028
    ||| u == 0x2029
    ||| u == 0x202f
    ||| u == 0x205f
    ||| u == 0x3000
}

/// Every character of `s` is white space.
pub open spec fn blank(s: Seq<char>) -> bool {
    forall|i: int| 0 <= i < s.len() ==> is_ws(#[trigger] s[i])
}

/// The length of the longest white-space prefix of `s`.
pub open spec fn indent_len(s: Seq<char>) -> nat
    decreases s.len(),
{
    if s.len() > 0 && is_ws(s[0]) {
        1 + indent_len(s.skip(1))
    } else {
        0
    }
}

/// `s` without its leading white space.
pub open spec fn trim_start_of(s: Seq<char>) -> Seq<char> {
    s.skip(indent_len(s) as int)
}

/// `s` without its trailing white space.
pub open spec fn trim_end_of(s: Seq<char>) -> Seq<char>
    decreases s.len(),
{
    if s.len() > 0 && is_ws(s.last()) {
        trim_end_of(s.drop_last())
    } else {
        s
    }
}

/// `s` without its leading and trailing white space.
pub open spec fn trim_of(s: Seq<char>) -> Seq<char> {
    trim_end_of(trim_start_of(s))
}

/// The first index of `c` in `s`, or the length of `s` where there is none.
pub open spec fn find_char(s: Seq<char>, c: char) -> int
    decreases s.len(),
{
    if s.len() == 0 || s[0] == c {
        0
    } else {
        1 + find_char(s.skip(1), c)
    }
}

/// The pieces of `s` between occurrences of `sep`: one more than there are
/// separators.
pub open spec fn split_on(s: Seq<char>, sep: char) -> Seq<Seq<char>>
    decreases s.len(),
{
    let i = find_char(s, sep);
    if 0 <= i < s.len() {
        seq![s.take(i)] + split_on(s.skip(i + 1), sep)
    } else {
        seq![s]
    }
}

/// `s` without one final carriage return.
pub open spec fn strip_cr(s: Seq<char>) -> Seq<char> {
    if s.len() > 0 && s.last() == '\r' {
        s.drop_last()
    } else {
        s
    }
}

/// The lines of `s`. A line ends in a line feed, or in a carriage return and a
/// line feed; the last line may end with the text instead.
pub open spec fn lines_of(s: Seq<char>) -> Seq<Seq<char>>
    decreases s.len(),
{
    if s.len() == 0 {
        seq![]
    } else {
        let i = find_char(s, '\n');
        if 0 <= i < s.len() {
            seq![strip_cr(s.take(i))] + lines_of(s.skip(i + 1))
        } else {
            seq![s]
        }
    }
}

/// `parts` one after the other, with `sep` between neighbours.
pub open spec fn join_with(parts: Seq<Seq<char>>, sep: Seq<char>) -> Seq<char>
    decreases parts.len(),
{
    if parts.len() == 0 {
        seq![]
    } else if parts.len() == 1 {
        parts[0]
    } else {
        join_with(parts.drop_last(), sep) + sep + parts.last()
    }
}

/// `parts` one after the other.
pub open spec fn concat(parts: Seq<Seq<char>>) -> Seq<char>
    decreases parts.len(),
{
    if parts.len() == 0 {
        seq![]
    } else {
        concat(parts.drop_last()) + parts.last()
    }
}

/// `p` is a prefix of `s`.
pub open spec fn starts_with(s: Seq<char>, p: Seq<char>) -> bool {
    p.len() <= s.len() && s.take(p.len() as int) == p
}

/// `p` occurs in `s` at `i`.
pub open spec fn occurs_at(s: Seq<char>, p: Seq<char>, i: int) -> bool {
    0 <= i && i + p.len() <= s.len() && s.subrange(i, i + p.len()) == p
}

/// `p` occurs in `s`.
pub open spec fn contains_text(s: Seq<char>, p: Seq<char>) -> bool {
    exists|i: int| occurs_at(s, p, i)
}

/// `n` in decimal digits.
pub open spec fn decimal(n: nat) -> Seq<char>
    decreases n,
{
    let digit = ('0' as int + n % 10) as char;
    if n < 10 {
        seq![digit]
    } else {
        decimal(n / 10).push(digit)
    }
}

/// The texts of a sequence of strings.
pub open spec fn texts(v: Seq<String>) -> Seq<Seq<char>> {
    Seq::new(v.len(), |i: int| v[i]@)
}

/// The texts of a sequence of string slices.
pub open spec fn str_texts(v: Seq<&str>) -> Seq<Seq<char>> {
    Seq::new(v.len(), |i: int| v[i]@)
}

/// The text of an optional string.
pub open spec fn opt_text(v: Option<String>) -> Option<Seq<char>> {
    match v {
        Some(s) => Some(s@),
        None => None,
    }
}

/// The text of an optional string slice.
pub open spec fn opt_str_text(v: Option<&str>) -> Option<Seq<char>> {
    match v {
        Some(s) => Some(s@),
        None => None,
    }
}

/// The text of a result.
pub open spec fn result_text(r: Result<String, String>) -> Result<Seq<char>, Seq<char>> {
    match r {
        Ok(s) => Ok(s@),
        Err(e) => Err(e@),
    }
}

// ---------------------------------------------------------------------------
// Lemmas
// ---------------------------------------------------------------------------

/// `indent_len` is the unique index at which leading white space ends.
pub proof fn lemma_indent_len(s: Seq<char>)
    ensures
        indent_len(s) <= s.len(),
        blank(s.take(indent_len(s) as int)),
        indent_len(s) < s.len() ==> !is_ws(s[indent_len(s) as int]),
    decreases s.len(),
{
    if s.len() > 0 && is_ws(s[0]) {
        lemma_indent_len(s.skip(1));
        let n = indent_len(s) as int;
        assert forall|i: int| 0 <= i < n implies is_ws(#[trigger] s.take(n)[i]) by {
            if i > 0 {
                assert(s.skip(1).take(n - 1)[i - 1] == s[i]);
            }
        }
    }
}

/// An index before which all is white space, and at which it ends, is `indent_len`.
pub proof fn lemma_indent_len_is(s: Seq<char>, n: int)
    requires
        0 <= n <= s.len(),
        forall|i: int| 0 <= i < n ==> is_ws(#[trigger] s[i]),
        n < s.len() ==> !is_ws(s[n]),
    ensures
        indent_len(s) == n,
    decreases s.len(),
{
    if n > 0 {
        assert forall|i: int| 0 <= i < n - 1 implies is_ws(#[trigger] s.skip(1)[i]) by {
            assert(s[i + 1] == s.skip(1)[i]);
        }
        lemma_indent_len_is(s.skip(1), n - 1);
    }
}

/// Trailing white space ends at the unique index after which all is white space.
pub proof fn lemma_trim_end_is(s: Seq<char>, n: int)
    requires
        0 <= n <= s.len(),
        forall|i: int| n <= i < s.len() ==> is_ws(#[trigger] s[i]),
        n > 0 ==> !is_ws(s[n - 1]),
    ensures
        trim_end_of(s) == s.take(n),
    decreases s.len(),
{
    if n < s.len() {
        assert(is_ws(s[s.len() - 1]));
        lemma_trim_end_is(s.drop_last(), n);
        assert(s.drop_last().take(n) == s.take(n));
    } else {
        assert(s.take(n) == s);
    }
}

/// What trimming the end leaves and takes away.
pub proof fn lemma_trim_end(s: Seq<char>)
    ensures
        trim_end_of(s).len() <= s.len(),
        trim_end_of(s) == s.take(trim_end_of(s).len() as int),
        blank(s.skip(trim_end_of(s).len() as int)),
        trim_end_of(s).len() > 0 ==> !is_ws(trim_end_of(s).last()),
    decreases s.len(),
{
    if s.len() > 0 && is_ws(s.last()) {
        lemma_trim_end(s.drop_last());
        let n = trim_end_of(s).len() as int;
        assert(s.drop_last().take(n) == s.take(n));
        assert forall|i: int| 0 <= i < s.len() - n implies is_ws(#[trigger] s.skip(n)[i]) by {
            if i < s.len() - n - 1 {
                assert(s.drop_last().skip(n)[i] == s[n + i]);
            }
        }
    } else {
        assert(s.take(s.len() as int) == s);
    }
}

/// What `find_char` finds.
pub proof fn lemma_find_char(s: Seq<char>, c: char)
    ensures
        0 <= find_char(s, c) <= s.len(),
        forall|i: int| 0 <= i < find_char(s, c) ==> s[i] != c,
        find_char(s, c) < s.len() ==> s[find_char(s, c)] == c,
    decreases s.len(),
{
    if s.len() == 0 || s[0] == c {
    } else {
        lemma_find_char(s.skip(1), c);
        let n = find_char(s, c);
        assert forall|i: int| 0 <= i < n implies s[i] != c by {
            if i > 0 {
                assert(s.skip(1)[i - 1] == s[i]);
            }
        }
    }
}

/// The first occurrence of a character is what `find_char` gives.
pub proof fn lemma_find_char_is(s: Seq<char>, c: char, n: int)
    requires
        0 <= n <= s.len(),
        forall|i: int| 0 <= i < n ==> s[i] != c,
        n < s.len() ==> s[n] == c,
    ensures
        find_char(s, c) == n,
{
    lemma_find_char(s, c);
    let m = find_char(s, c);
    if m < n {
        assert(s[m] == c);
    } else if n < m {
        assert(s[n] == c);
    }
}

/// A split text has at least one piece.
pub proof fn lemma_split_nonempty(s: Seq<char>, sep: char)
    ensures
        split_on(s, sep).len() >= 1,
{
}

/// A text that neither begins nor ends with white space is its own trimming.
pub proof fn lemma_trim_unchanged(s: Seq<char>)
    requires
        s.len() > 0,
        !is_ws(s[0]),
        !is_ws(s.last()),
    ensures
        trim_of(s) == s,
{
    lemma_indent_len_is(s, 0);
    assert(s.skip(0) =~= s);
}

/// A blank text trims to nothing.
pub proof fn lemma_trim_blank(s: Seq<char>)
    requires
        blank(s),
    ensures
        trim_of(s) == Seq::<char>::empty(),
{
    lemma_indent_len_is(s, s.len() as int);
    assert(s.skip(s.len() as int) =~= seq![]);
}

/// Splitting at the first separator.
pub proof fn lemma_split_first(a: Seq<char>, b: Seq<char>, sep: char)
    requires
        forall|i: int| 0 <= i < a.len() ==> a[i] != sep,
    ensures
        split_on(a.push(sep) + b, sep) == seq![a] + split_on(b, sep),
{
    let s = a.push(sep) + b;
    lemma_find_char_is(s, sep, a.len() as int);
    assert(s.take(a.len() as int) =~= a);
    assert(s.skip(a.len() as int + 1) =~= b);
}

/// A text without the separator is its only piece.
pub proof fn lemma_split_none(a: Seq<char>, sep: char)
    requires
        forall|i: int| 0 <= i < a.len() ==> a[i] != sep,
    ensures
        split_on(a, sep) == seq![a],
{
    lemma_find_char_is(a, sep, a.len() as int);
}

/// The lines of a text that ends in a line feed come first.
pub proof fn lemma_lines_append(a: Seq<char>, b: Seq<char>)
    ensures
        lines_of(a.push('\n') + b) == lines_of(a.push('\n')) + lines_of(b),
    decreases a.len(),
{
    let h = a.push('\n');
    let s = h + b;
    lemma_find_char(h, '\n');
    let i = find_char(h, '\n');
    assert(h[a.len() as int] == '\n');
    assert(i <= a.len());
    lemma_find_char_is(s, '\n', i);
    assert(s.take(i) =~= h.take(i));
    if i == a.len() {
        assert(s.skip(i + 1) =~= b);
        assert(h.skip(i + 1) =~= seq![]);
        reveal_with_fuel(lines_of, 2);
        assert(lines_of(h) =~= seq![strip_cr(h.take(i))]);
    } else {
        let a1 = a.skip(i + 1);
        lemma_lines_append(a1, b);
        assert(h.skip(i + 1) =~= a1.push('\n'));
        assert(s.skip(i + 1) =~= a1.push('\n') + b);
        assert(lines_of(s) =~= seq![strip_cr(h.take(i))] + (lines_of(a1.push('\n')) + lines_of(b)));
    }
}

/// The line of a text that has no line feed but one at its end.
pub proof fn lemma_lines_ended(a: Seq<char>)
    requires
        forall|i: int| 0 <= i < a.len() ==> a[i] != '\n',
    ensures
        lines_of(a.push('\n')) == seq![strip_cr(a)],
{
    let h = a.push('\n');
    lemma_find_char_is(h, '\n', a.len() as int);
    assert(h.take(a.len() as int) =~= a);
    assert(h.skip(a.len() as int + 1) =~= seq![]);
    reveal_with_fuel(lines_of, 2);
    assert(lines_of(h) =~= seq![strip_cr(a)]);
}

/// The line of a text that has no line feed.
pub proof fn lemma_lines_single(a: Seq<char>)
    requires
        a.len() > 0,
        forall|i: int| 0 <= i < a.len() ==> a[i] != '\n',
    ensures
        lines_of(a) == seq![a],
{
    lemma_find_char_is(a, '\n', a.len() as int);
}

/// `c` can stand between two line feeds and is then a line as it is.
pub open spec fn is_line(c: Seq<char>) -> bool {
    &&& c.len() > 0
    &&& c.last() != '\r'
    &&& forall|i: int| 0 <= i < c.len() ==> c[i] != '\n'
}

/// The lines of texts joined by line feeds: those of the first, then the
/// others, where each of these is a line.
pub proof fn lemma_lines_join(parts: Seq<Seq<char>>)
    requires
        parts.len() >= 1,
        forall|i: int| 1 <= i < parts.len() ==> is_line(#[trigger] parts[i]),
    ensures
        lines_of(join_with(parts, seq!['\n']).push('\n')) == lines_of(parts[0].push('\n')) + parts.skip(1),
        parts.len() >= 2 ==> lines_of(join_with(parts, seq!['\n'])) == lines_of(parts[0].push('\n')) + parts.skip(1),
    decreases parts.len(),
{
    let whole = join_with(parts, seq!['\n']);
    if parts.len() == 1 {
        assert(parts.skip(1) =~= seq![]);
        assert(lines_of(parts[0].push('\n')) + parts.skip(1) =~= lines_of(parts[0].push('\n')));
    } else {
        let front = parts.drop_last();
        let c = parts.last();
        assert(is_line(parts[parts.len() - 1]));
        assert forall|i: int| 1 <= i < front.len() implies is_line(#[trigger] front[i]) by {
            assert(is_line(parts[i]));
        }
        lemma_lines_join(front);
        let f = join_with(front, seq!['\n']);
        let first = lines_of(parts[0].push('\n'));
        assert(whole == f + seq!['\n'] + c);
        assert(whole =~= f.push('\n') + c);
        assert(whole.push('\n') =~= f.push('\n') + c.push('\n'));
        lemma_lines_append(f, c);
        lemma_lines_append(f, c.push('\n'));
        lemma_lines_single(c);
        lemma_lines_ended(c);
        assert(strip_cr(c) == c);
        assert(front[0] == parts[0]);
        assert(lines_of(f.push('\n')) == first + front.skip(1));
        assert(parts.skip(1) =~= front.skip(1) + seq![c]);
        assert(first + front.skip(1) + seq![c] =~= first + parts.skip(1));
    }
}

/// A joined text begins with the first part.
pub proof fn lemma_join_prefix(parts: Seq<Seq<char>>, sep: Seq<char>)
    requires
        parts.len() >= 1,
    ensures
        starts_with(join_with(parts, sep), parts[0]),
    decreases parts.len(),
{
    if parts.len() == 1 {
        assert(parts[0].take(parts[0].len() as int) =~= parts[0]);
    } else {
        let front = parts.drop_last();
        lemma_join_prefix(front, sep);
        let f = join_with(front, sep);
        assert(join_with(parts, sep).take(parts[0].len() as int) =~= f.take(parts[0].len() as int));
    }
}

/// The lines of a blank text are blank.
pub proof fn lemma_lines_blank(s: Seq<char>)
    requires
        blank(s),
    ensures
        forall|i: int| 0 <= i < lines_of(s).len() ==> blank(#[trigger] lines_of(s)[i]),
    decreases s.len(),
{
    if s.len() > 0 {
        lemma_find_char(s, '\n');
        let i = find_char(s, '\n');
        if i < s.len() {
            assert forall|j: int| 0 <= j < s.skip(i + 1).len() implies is_ws(#[trigger] s.skip(i + 1)[j]) by {
                assert(is_ws(s[i + 1 + j]));
            }
            lemma_lines_blank(s.skip(i + 1));
            let first = strip_cr(s.take(i));
            assert forall|j: int| 0 <= j < first.len() implies is_ws(#[trigger] first[j]) by {
                assert(is_ws(s[j]));
            }
            let rest = lines_of(s.skip(i + 1));
            assert forall|j: int| 0 <= j < lines_of(s).len() implies blank(#[trigger] lines_of(s)[j]) by {
                if j > 0 {
                    assert(blank(rest[j - 1]));
                }
            }
        }
    }
}

/// Joining, the first part taken off.
pub proof fn lemma_concat_first(x: Seq<char>, ys: Seq<Seq<char>>)
    ensures
        concat(seq![x] + ys) == x + concat(ys),
    decreases ys.len(),
{
    let all = seq![x] + ys;
    if ys.len() == 0 {
        assert(all.drop_last() =~= seq![]);
        reveal_with_fuel(concat, 2);
        assert(concat(all) =~= x + concat(ys));
    } else {
        lemma_concat_first(x, ys.drop_last());
        assert(all.drop_last() =~= seq![x] + ys.drop_last());
        assert(concat(all) =~= x + concat(ys));
    }
}

/// Empty parts in front add nothing.
pub proof fn lemma_concat_empties(es: Seq<Seq<char>>, ys: Seq<Seq<char>>)
    requires
        forall|i: int| 0 <= i < es.len() ==> (#[trigger] es[i]).len() == 0,
    ensures
        concat(es + ys) == concat(ys),
    decreases es.len(),
{
    if es.len() == 0 {
        assert(es + ys =~= ys);
    } else {
        let rest = es.skip(1);
        assert forall|i: int| 0 <= i < rest.len() implies (#[trigger] rest[i]).len() == 0 by {
            assert(es[i + 1].len() == 0);
        }
        lemma_concat_empties(rest, ys);
        assert(es + ys =~= seq![es[0]] + (rest + ys));
        lemma_concat_first(es[0], rest + ys);
        assert(es[0].len() == 0);
        assert(es[0] + concat(rest + ys) =~= concat(rest + ys));
    }
}

/// `s` holds no line feed.
pub open spec fn one_line(s: Seq<char>) -> bool {
    forall|i: int| 0 <= i < s.len() ==> s[i] != '\n'
}

/// `s` ends inside a line that is not empty, and a line feed behind it would only
/// end that line.
pub open spec fn ends_in_line(s: Seq<char>) -> bool {
    s.len() > 0 && s.last() != '\n' && s.last() != '\r'
}

/// Ending the last line adds none.
pub proof fn lemma_lines_closed(s: Seq<char>)
    requires
        ends_in_line(s),
    ensures
        lines_of(s.push('\n')) == lines_of(s),
        lines_of(s.push('\r').push('\n')) == lines_of(s),
    decreases s.len(),
{
    lemma_find_char(s, '\n');
    let i = find_char(s, '\n');
    let a = s.push('\n');
    let b = s.push('\r').push('\n');
    if i < s.len() {
        let rest = s.skip(i + 1);
        assert(i < s.len() - 1);
        assert(rest.last() == s.last());
        lemma_lines_closed(rest);
        lemma_find_char_is(a, '\n', i);
        lemma_find_char_is(b, '\n', i);
        assert(a.take(i) =~= s.take(i));
        assert(b.take(i) =~= s.take(i));
        assert(a.skip(i + 1) =~= rest.push('\n'));
        assert(b.skip(i + 1) =~= rest.push('\r').push('\n'));
    } else {
        lemma_lines_ended(s);
        lemma_lines_ended(s.push('\r'));
        lemma_lines_single(s);
        assert(s.push('\r').drop_last() =~= s);
    }
}

/// The texts, each without a final carriage return.
pub open spec fn stripped(parts: Seq<Seq<char>>) -> Seq<Seq<char>> {
    Seq::new(parts.len(), |i: int| strip_cr(parts[i]))
}

/// The lines of texts joined by line feeds, where none holds a line feed: the
/// texts, each that a line feed follows without a final carriage return.
pub proof fn lemma_lines_of_joined(parts: Seq<Seq<char>>)
    requires
        parts.len() >= 1,
        forall|i: int| 0 <= i < parts.len() ==> one_line(#[trigger] parts[i]),
    ensures
        lines_of(join_with(parts, seq!['\n']).push('\n')) == stripped(parts),
        parts.last().len() > 0 ==> lines_of(join_with(parts, seq!['\n'])) == stripped(parts.drop_last()).push(
            parts.last(),
        ),
    decreases parts.len(),
{
    let whole = join_with(parts, seq!['\n']);
    let front = parts.drop_last();
    let c = parts.last();
    assert(one_line(parts[parts.len() - 1]));
    lemma_lines_ended(c);
    if c.len() > 0 {
        lemma_lines_single(c);
    }
    if parts.len() == 1 {
        assert(stripped(parts) =~= seq![strip_cr(c)]);
        assert(stripped(front).push(c) =~= seq![c]);
    } else {
        assert forall|i: int| 0 <= i < front.len() implies one_line(#[trigger] front[i]) by {
            assert(one_line(parts[i]));
        }
        lemma_lines_of_joined(front);
        let f = join_with(front, seq!['\n']);
        assert(whole == f + seq!['\n'] + c);
        assert(whole =~= f.push('\n') + c);
        assert(whole.push('\n') =~= f.push('\n') + c.push('\n'));
        lemma_lines_append(f, c);
        lemma_lines_append(f, c.push('\n'));
        assert(stripped(parts) =~= stripped(front) + seq![strip_cr(c)]);
        assert(stripped(front).push(c) =~= stripped(front) + seq![c]);
    }
}

/// Trimming does not see white space put in front.
pub proof fn lemma_trim_indented(b: Seq<char>, x: Seq<char>)
    requires
        blank(b),
    ensures
        trim_of(b + x) == trim_of(x),
        indent_len(b + x) == b.len() + indent_len(x),
{
    lemma_indent_len(x);
    let n = indent_len(x) as int;
    let s = b + x;
    assert forall|i: int| 0 <= i < b.len() + n implies is_ws(#[trigger] s[i]) by {
        if i < b.len() {
            assert(is_ws(b[i]));
        } else {
            assert(x.take(n)[i - b.len()] == s[i]);
        }
    }
    lemma_indent_len_is(s, b.len() + n);
    assert(s.skip(b.len() + n) =~= x.skip(n));
}

/// Trimming does not see a final carriage return.
pub proof fn lemma_trim_strip_cr(s: Seq<char>)
    ensures
        trim_of(strip_cr(s)) == trim_of(s),
{
    if s.len() > 0 && s.last() == '\r' {
        let t = s.drop_last();
        lemma_indent_len(t);
        let n = indent_len(t) as int;
        if n < t.len() {
            assert forall|i: int| 0 <= i < n implies is_ws(#[trigger] s[i]) by {
                assert(t.take(n)[i] == s[i]);
            }
            lemma_indent_len_is(s, n);
            assert(s.skip(n).drop_last() =~= t.skip(n));
            assert(s.skip(n).last() == '\r');
        } else {
            assert forall|i: int| 0 <= i < s.len() implies is_ws(#[trigger] s[i]) by {
                if i < n {
                    assert(t.take(n)[i] == s[i]);
                }
            }
            assert forall|i: int| 0 <= i < t.len() implies is_ws(#[trigger] t[i]) by {
                assert(is_ws(s[i]));
            }
            lemma_trim_blank(s);
            lemma_trim_blank(t);
        }
    }
}

/// The encoding of two texts one after the other.
pub proof fn lemma_encode_concat(a: Seq<char>, b: Seq<char>)
    ensures
        encode_utf8(a + b) == encode_utf8(a) + encode_utf8(b),
    decreases a.len(),
{
    if a.len() == 0 {
        assert(a + b =~= b);
        assert(encode_utf8(a) + encode_utf8(b) =~= encode_utf8(b));
    } else {
        lemma_encode_concat(a.drop_first(), b);
        assert((a + b).drop_first() =~= a.drop_first() + b);
        assert(encode_utf8(a + b) =~= encode_utf8(a) + encode_utf8(b));
    }
}

/// Joining, the first of several parts taken off.
pub proof fn lemma_join_first(x: Seq<char>, ys: Seq<Seq<char>>, sep: Seq<char>)
    requires
        ys.len() > 0,
    ensures
        join_with(seq![x] + ys, sep) == x + sep + join_with(ys, sep),
    decreases ys.len(),
{
    let all = seq![x] + ys;
    assert(all.drop_last() =~= seq![x] + ys.drop_last());
    assert(all.last() == ys.last());
    if ys.len() == 1 {
        assert(all.drop_last() =~= seq![x]);
        assert(join_with(all.drop_last(), sep) == x);
    } else {
        lemma_join_first(x, ys.drop_last(), sep);
        assert(join_with(all, sep) =~= x + sep + join_with(ys, sep));
    }
}

/// Joining the pieces of a text with what it was split at gives it back.
pub proof fn lemma_join_split(s: Seq<char>, sep: char)
    ensures
        join_with(split_on(s, sep), seq![sep]) == s,
    decreases s.len(),
{
    lemma_find_char(s, sep);
    let i = find_char(s, sep);
    if i < s.len() {
        let rest = s.skip(i + 1);
        lemma_join_split(rest, sep);
        lemma_split_nonempty(rest, sep);
        lemma_join_first(s.take(i), split_on(rest, sep), seq![sep]);
        assert(s =~= s.take(i) + seq![sep] + rest);
    }
}

/// Splitting joined parts, where none holds the separator, gives them back.
pub proof fn lemma_split_join(parts: Seq<Seq<char>>)
    requires
        parts.len() > 0,
        forall|i: int| 0 <= i < parts.len() ==> one_line(#[trigger] parts[i]),
    ensures
        split_on(join_with(parts, seq!['\n']), '\n') == parts,
    decreases parts.len(),
{
    assert(one_line(parts[0]));
    if parts.len() == 1 {
        lemma_split_none(parts[0], '\n');
        assert(parts =~= seq![parts[0]]);
    } else {
        let rest = parts.skip(1);
        assert forall|i: int| 0 <= i < rest.len() implies one_line(#[trigger] rest[i]) by {
            assert(one_line(parts[i + 1]));
        }
        lemma_split_join(rest);
        assert(parts =~= seq![parts[0]] + rest);
        lemma_join_first(parts[0], rest, seq!['\n']);
        let tail = join_with(rest, seq!['\n']);
        assert(join_with(parts, seq!['\n']) =~= parts[0].push('\n') + tail);
        lemma_split_first(parts[0], tail, '\n');
    }
}

/// No piece of a split text holds the separator.
pub proof fn lemma_split_pieces(s: Seq<char>)
    ensures
        forall|i: int| 0 <= i < split_on(s, '\n').len() ==> one_line(#[trigger] split_on(s, '\n')[i]),
    decreases s.len(),
{
    lemma_find_char(s, '\n');
    let i = find_char(s, '\n');
    if i < s.len() {
        let rest = split_on(s.skip(i + 1), '\n');
        lemma_split_pieces(s.skip(i + 1));
        assert(one_line(s.take(i)));
        assert forall|k: int| 0 <= k < split_on(s, '\n').len() implies one_line(#[trigger] split_on(s, '\n')[k]) by {
            if k > 0 {
                assert(one_line(rest[k - 1]));
            }
        }
    }
}

// ---------------------------------------------------------------------------
// Executable functions
// ---------------------------------------------------------------------------

/// The characters of `s`.
pub(crate) fn chars_of(s: &str) -> (v: Vec<char>)
    ensures
        v@ == s@,
{
    let mut v: Vec<char> = Vec::new();
    for c in it: s.chars()
        invariant
            it.seq() == s@,
            v@ == s@.take(it.index() as int),
    {
        v.push(c);
        assert(s@.take(it.index() + 1) =~= s@.take(it.index() as int).push(c));
    }
    assert(s@.take(s@.len() as int) =~= s@);
    v
}

/// The text of the characters `v[from..to]`.
pub(crate) fn text_of(v: &Vec<char>, from: usize, to: usize) -> (s: String)
    requires
        from <= to <= v@.len(),
    ensures
        s@ == v@.subrange(from as int, to as int),
{
    let mut s: String = String::new();
    let mut i: usize = from;
    while i < to
        invariant
            from <= i <= to <= v@.len(),
            s@ == v@.subrange(from as int, i as int),
        decreases to - i,
    {
        s.push(v[i]);
        assert(v@.subrange(from as int, i + 1) =~= v@.subrange(from as int, i as int).push(v@[i as int]));
        i += 1;
    }
    s
}

/// Whether `a` and `b` are the same text.
pub(crate) fn same_text(a: &str, b: &str) -> (r: bool)
    ensures
        r == (a@ == b@),
{
    let x: String = a.to_owned();
    let y: String = b.to_owned();
    x == y
}

/// Whether `c` has the Unicode property White_Space.
pub(crate) fn is_whitespace(c: char) -> (r: bool)
    ensures
        r == is_ws(c),
{
    let u: u32 = c as u32;
    (0x09 <= u && u <= 0x0d) || u == 0x20 || u == 0x85 || u == 0xa0 || u == 0x1680
        || (0x2000 <= u && u <= 0x200a) || u == 0x2028 || u == 0x2029 || u == 0x202f
        || u == 0x205f || u == 0x3000
}

/// The number of leading white-space characters.
pub(crate) fn leading_ws(v: &Vec<char>) -> (n: usize)
    ensures
        n == indent_len(v@),
        n <= v@.len(),
{
    let mut n: usize = 0;
    while n < v.len() && is_whitespace(v[n])
        invariant
            0 <= n <= v@.len(),
            forall|i: int| 0 <= i < n ==> is_ws(#[trigger] v@[i]),
        decreases v@.len() - n,
    {
        n += 1;
    }
    proof {
        lemma_indent_len_is(v@, n as int);
    }
    n
}

/// The end of `v[from..]` once its trailing white space is taken off.
fn end_without_ws(v: &Vec<char>, from: usize) -> (n: usize)
    requires
        from <= v@.len(),
    ensures
        from <= n <= v@.len(),
        v@.subrange(from as int, n as int) == trim_end_of(v@.skip(from as int)),
{
    let mut n: usize = v.len();
    while from < n && is_whitespace(v[n - 1])
        invariant
            from <= n <= v@.len(),
            forall|i: int| n <= i < v@.len() ==> is_ws(#[trigger] v@[i]),
        decreases n,
    {
        n -= 1;
    }
    proof {
        lemma_trim_end_is(v@.skip(from as int), n - from);
        assert(v@.skip(from as int).take(n - from) =~= v@.subrange(from as int, n as int));
    }
    n
}

/// `s` without its leading and trailing white space.
pub(crate) fn trim(s: &str) -> (r: String)
    ensures
        r@ == trim_of(s@),
{
    let v: Vec<char> = chars_of(s);
    let a: usize = leading_ws(&v);
    let b: usize = end_without_ws(&v, a);
    text_of(&v, a, b)
}

/// `s` without its leading white space.
pub(crate) fn trim_start(s: &str) -> (r: String)
    ensures
        r@ == trim_start_of(s@),
{
    let v: Vec<char> = chars_of(s);
    let a: usize = leading_ws(&v);
    assert(v@.subrange(a as int, v@.len() as int) =~= v@.skip(a as int));
    text_of(&v, a, v.len())
}

/// `s` without its trailing white space.
pub(crate) fn trim_end(s: &str) -> (r: String)
    ensures
        r@ == trim_end_of(s@),
{
    let v: Vec<char> = chars_of(s);
    let b: usize = end_without_ws(&v, 0);
    assert(v@.skip(0) =~= v@);
    text_of(&v, 0, b)
}

/// The first index of `c` from `from` on, or the length where there is none.
pub(crate) fn index_of(v: &Vec<char>, from: usize, c: char) -> (n: usize)
    requires
        from <= v@.len(),
    ensures
        from <= n <= v@.len(),
        n - from == find_char(v@.skip(from as int), c),
        n < v@.len() ==> v@[n as int] == c,
        forall|i: int| from <= i < n ==> v@[i] != c,
{
    let mut n: usize = from;
    while n < v.len() && v[n] != c
        invariant
            from <= n <= v@.len(),
            forall|i: int| from <= i < n ==> v@[i] != c,
        decreases v@.len() - n,
    {
        n += 1;
    }
    proof {
        lemma_find_char_is(v@.skip(from as int), c, n - from);
    }
    n
}

/// The pieces of `s` between occurrences of `sep`.
pub(crate) fn split(s: &str, sep: char) -> (r: Vec<String>)
    ensures
        texts(r@) == split_on(s@, sep),
{
    let v: Vec<char> = chars_of(s);
    let mut r: Vec<String> = Vec::new();
    let mut start: usize = 0;
    assert(v@.skip(0) =~= v@);
    assert(texts(r@) + split_on(v@, sep) =~= split_on(v@, sep));
    loop
        invariant
            start <= v@.len(),
            v@ == s@,
            texts(r@) + split_on(v@.skip(start as int), sep) == split_on(v@, sep),
        decreases v@.len() - start,
    {
        let i: usize = index_of(&v, start, sep);
        let ghost rest = v@.skip(start as int);
        let ghost before = texts(r@);
        let piece: String = text_of(&v, start, i);
        r.push(piece);
        proof {
            assert(rest.take(i - start) =~= piece@);
            assert(texts(r@) =~= before.push(piece@));
        }
        if i == v.len() {
            proof {
                assert(rest.take(i - start) =~= rest);
                assert(before + seq![rest] =~= texts(r@));
            }
            return r;
        }
        proof {
            assert(rest.skip(i - start + 1) =~= v@.skip(i + 1));
            assert(before + (seq![piece@] + split_on(v@.skip(i + 1), sep)) =~= texts(r@) + split_on(
                v@.skip(i + 1),
                sep,
            ));
        }
        start = i + 1;
    }
}

/// The lines of `s`.
pub(crate) fn lines(s: &str) -> (r: Vec<String>)
    ensures
        texts(r@) == lines_of(s@),
{
    let v: Vec<char> = chars_of(s);
    let mut r: Vec<String> = Vec::new();
    let mut start: usize = 0;
    assert(v@.skip(0) =~= v@);
    assert(texts(r@) + lines_of(v@) =~= lines_of(v@));
    while start < v.len()
        invariant
            start <= v@.len(),
            v@ == s@,
            texts(r@) + lines_of(v@.skip(start as int)) == lines_of(v@),
        decreases v@.len() - start,
    {
        let i: usize = index_of(&v, start, '\n');
        let ghost rest = v@.skip(start as int);
        let ghost before = texts(r@);
        let mut end: usize = i;
        if i < v.len() && start < i && v[i - 1] == '\r' {
            end = i - 1;
        }
        let piece: String = text_of(&v, start, end);
        r.push(piece);
        proof {
            assert(texts(r@) =~= before.push(piece@));
            if i < v@.len() {
                assert(strip_cr(rest.take(i - start)) =~= piece@);
                assert(rest.skip(i - start + 1) =~= v@.skip(i + 1));
                assert(before + (seq![piece@] + lines_of(v@.skip(i + 1))) =~= texts(r@) + lines_of(
                    v@.skip(i + 1),
                ));
            } else {
                assert(rest =~= piece@);
                assert(v@.skip(i as int) =~= seq![]);
                assert(before + seq![rest] =~= texts(r@) + lines_of(v@.skip(i as int)));
            }
        }
        if i == v.len() {
            start = i;
        } else {
            start = i + 1;
        }
    }
    assert(v@.skip(start as int) =~= seq![]);
    assert(texts(r@) + lines_of(v@.skip(start as int)) =~= texts(r@));
    r
}

/// Whether `p` is a prefix of `s`.
pub(crate) fn has_prefix(s: &str, p: &str) -> (r: bool)
    ensures
        r == starts_with(s@, p@),
{
    let v: Vec<char> = chars_of(s);
    let w: Vec<char> = chars_of(p);
    w.len() <= v.len() && matches_at(&v, &w, 0)
}

/// Whether `p` stands in `v` at `from`.
fn matches_at(v: &Vec<char>, p: &Vec<char>, from: usize) -> (r: bool)
    requires
        from + p@.len() <= v@.len(),
    ensures
        r == (v@.subrange(from as int, from + p@.len()) == p@),
        r == occurs_at(v@, p@, from as int),
        from == 0 ==> r == (v@.take(p@.len() as int) == p@),
{
    let mut i: usize = 0;
    let ghost w = v@.subrange(from as int, from + p@.len());
    assert(from == 0 ==> v@.take(p@.len() as int) =~= w);
    let n: usize = v.len();
    while i < p.len()
        invariant
            0 <= i <= p@.len(),
            from + p@.len() <= v@.len(),
            n == v@.len(),
            w == v@.subrange(from as int, from + p@.len()),
            forall|j: int| 0 <= j < i ==> w[j] == p@[j],
        decreases p@.len() - i,
    {
        if v[from + i] != p[i] {
            assert(w[i as int] != p@[i as int]);
            return false;
        }
        i += 1;
    }
    assert(w =~= p@);
    true
}

/// Whether `p` occurs in `s`.
pub(crate) fn contains(s: &str, p: &str) -> (r: bool)
    ensures
        r == contains_text(s@, p@),
{
    let v: Vec<char> = chars_of(s);
    let w: Vec<char> = chars_of(p);
    if v.len() < w.len() {
        return false;
    }
    let last: usize = v.len() - w.len();
    let mut i: usize = 0;
    loop
        invariant
            last == v@.len() - w@.len(),
            0 <= i <= last,
            forall|j: int| 0 <= j < i ==> !#[trigger] occurs_at(v@, w@, j),
            v@ == s@,
            w@ == p@,
        decreases last - i,
    {
        if matches_at(&v, &w, i) {
            return true;
        }
        if i == last {
            return false;
        }
        i += 1;
    }
}

/// A copy of `s` with `t` appended.
pub(crate) fn joined(s: &str, t: &str) -> (r: String)
    ensures
        r@ == s@ + t@,
{
    let mut r: String = s.to_owned();
    r.append(t);
    r
}

} // verus!
