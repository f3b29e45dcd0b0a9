//! How a value of several lines stands in YAML: as a literal block scalar under
//! its key, or, where a literal block scalar cannot hold it, double-quoted.

use vstd::prelude::*;
use crate::hexadecimal;
use crate::text;
use crate::text::{chars_of, contains, joined, split, text_of};

verus! {

broadcast use vstd::string::group_string_axioms;

// ---------------------------------------------------------------------------
// Columns
// ---------------------------------------------------------------------------

/// The number of spaces that a text begins with.
pub open spec fn leading_spaces(s: Seq<char>) -> nat
    decreases s.len(),
{
    if s.len() > 0 && s[0] == ' ' {
        1 + leading_spaces(s.skip(1))
    } else {
        0
    }
}

/// `n` spaces.
pub open spec fn spaces(n: nat) -> Seq<char> {
    Seq::new(n, |i: int| ' ')
}

/// The length of the list dash that a prefix begins with, and of the spaces after
/// it: 0 where it begins with none.
pub open spec fn dash_len(prefix: Seq<char>) -> nat {
    if prefix.len() >= 2 && prefix[0] == '-' && prefix[1] == ' ' {
        1 + leading_spaces(prefix.skip(1))
    } else {
        0
    }
}

/// The column, counted from where the prefix begins, of the key before the value,
/// or of the last list dash where there is no key.
pub open spec fn key_column(prefix: Seq<char>) -> nat
    decreases prefix.len(),
{
    let n = dash_len(prefix);
    if 0 < n < prefix.len() {
        n + key_column(prefix.skip(n as int))
    } else {
        0
    }
}

/// The value is a list item: the prefix has dashes alone.
pub open spec fn only_dashes(prefix: Seq<char>) -> bool {
    dash_len(prefix.skip(key_column(prefix) as int)) > 0
}

/// The indentation of the lines under a value: two columns more than its key has,
/// or its dash where it has no key.
pub open spec fn child_indent(indent: Seq<char>, prefix: Seq<char>) -> Seq<char> {
    indent + spaces(key_column(prefix) + 2)
}

/// The key or the dash that the value belongs to stands on the same line.
pub open spec fn key_on_line(prefix: Seq<char>) -> bool {
    only_dashes(prefix) || text::contains_text(prefix, ": "@)
}

// ---------------------------------------------------------------------------
// Literal block scalars
// ---------------------------------------------------------------------------

/// A character that can stand in a literal block scalar: it is printable, and a
/// line break to no version of YAML, unless it is the line feed.
pub open spec fn literal_char(c: char) -> bool {
    let u = c as u32;
    ||| u == 0x09
    ||| u == 0x0a
    ||| 0x20 <= u <= 0x7e
    ||| 0xa0 <= u <= 0xfffd && u != 0x2028 && u != 0x2029 && u != 0xfeff
    ||| u >= 0x10000
}

/// Every character can stand in a literal block scalar.
pub open spec fn literal_text(s: Seq<char>) -> bool {
    forall|i: int| 0 <= i < s.len() ==> literal_char(#[trigger] s[i])
}

/// The first line that is not empty does not tell the indentation: it begins with
/// a space, or there is none.
pub open spec fn unclear_indent(s: Seq<char>) -> bool
    decreases s.len(),
{
    s.len() == 0 || s[0] == ' ' || (s[0] == '\n' && unclear_indent(s.skip(1)))
}

/// A text of several lines can stand as a literal block scalar. The indentation
/// is written out where the text does not tell it, which takes a key or a dash to
/// count from.
pub open spec fn fits_literal(prefix: Seq<char>, s: Seq<char>) -> bool {
    &&& literal_text(s)
    &&& unclear_indent(s) ==> key_on_line(prefix)
}

/// `s` without one final line feed.
pub open spec fn strip_newline(s: Seq<char>) -> Seq<char> {
    if s.len() > 0 && s.last() == '\n' {
        s.drop_last()
    } else {
        s
    }
}

/// A text ends in more than one line feed.
pub open spec fn ends_in_empty_line(s: Seq<char>) -> bool {
    s.len() >= 2 && s.last() == '\n' && s[s.len() - 2] == '\n'
}

/// The indentation indicator.
pub open spec fn indicator(s: Seq<char>) -> Seq<char> {
    if unclear_indent(s) {
        "2"@
    } else {
        ""@
    }
}

/// The chomping indicator: what becomes of the line feeds at the end.
pub open spec fn chomping(s: Seq<char>) -> Seq<char> {
    if ends_in_empty_line(s) {
        "+"@
    } else if strip_newline(s) == s {
        "-"@
    } else {
        ""@
    }
}

/// The lines with `indent` before each that is not empty.
pub open spec fn indented(lines: Seq<Seq<char>>, indent: Seq<char>) -> Seq<Seq<char>> {
    Seq::new(
        lines.len(),
        |i: int| if lines[i].len() == 0 {
            seq![]
        } else {
            indent + lines[i]
        },
    )
}

/// The comment under a scalar that ends in empty lines: without it, empty lines
/// that follow in the document would be part of the scalar.
pub const END_OF_VALUE: &'static str = "# end of value";

/// The lines of a literal block scalar behind its prefix.
pub open spec fn literal_lines(indent: Seq<char>, prefix: Seq<char>, s: Seq<char>) -> Seq<Seq<char>> {
    seq![indent + prefix + "|"@ + indicator(s) + chomping(s)] + indented(
        text::split_on(strip_newline(s), '\n'),
        child_indent(indent, prefix),
    ) + (if ends_in_empty_line(s) {
        seq![indent + END_OF_VALUE@]
    } else {
        seq![]
    })
}

// ---------------------------------------------------------------------------
// Double-quoted scalars
// ---------------------------------------------------------------------------

/// The digit of `u` that counts `unit`.
pub open spec fn digit_at(u: int, unit: int) -> char {
    hexadecimal::hex_digit((u / unit) % 16)
}

/// A character inside double quotes.
pub open spec fn escaped_char(c: char) -> Seq<char> {
    let u = c as int;
    if c == '"' || c == '\\' {
        seq!['\\', c]
    } else if c == '\n' {
        seq!['\\', 'n']
    } else if c == '\r' {
        seq!['\\', 'r']
    } else if literal_char(c) {
        seq![c]
    } else {
        seq!['\\', 'u', digit_at(u, 0x1000), digit_at(u, 0x100), digit_at(u, 0x10), digit_at(u, 1)]
    }
}

/// A text inside double quotes.
pub open spec fn escaped(s: Seq<char>) -> Seq<char>
    decreases s.len(),
{
    if s.len() == 0 {
        seq![]
    } else {
        escaped(s.drop_last()) + escaped_char(s.last())
    }
}

/// `s` as a YAML double-quoted scalar.
pub open spec fn double_quoted(s: Seq<char>) -> Seq<char> {
    seq!['"'] + escaped(s) + seq!['"']
}

/// A value of several lines as it stands in YAML, from the beginning of its line
/// on.
pub open spec fn multiline_text(indent: Seq<char>, prefix: Seq<char>, s: Seq<char>) -> Seq<char> {
    if fits_literal(prefix, s) {
        text::join_with(literal_lines(indent, prefix, s), seq!['\n'])
    } else {
        indent + prefix + double_quoted(s)
    }
}

// ---------------------------------------------------------------------------
// Lemmas
// ---------------------------------------------------------------------------

/// What `leading_spaces` counts.
pub proof fn lemma_leading_spaces(s: Seq<char>)
    ensures
        leading_spaces(s) <= s.len(),
        forall|i: int| 0 <= i < leading_spaces(s) ==> #[trigger] s[i] == ' ',
        leading_spaces(s) < s.len() ==> s[leading_spaces(s) as int] != ' ',
    decreases s.len(),
{
    if s.len() > 0 && s[0] == ' ' {
        lemma_leading_spaces(s.skip(1));
        assert forall|i: int| 0 <= i < leading_spaces(s) implies #[trigger] s[i] == ' ' by {
            if i > 0 {
                assert(s.skip(1)[i - 1] == ' ');
            }
        }
    }
}

/// The number of spaces up to the first other character.
pub proof fn lemma_leading_spaces_is(s: Seq<char>, n: int)
    requires
        0 <= n <= s.len(),
        forall|i: int| 0 <= i < n ==> #[trigger] s[i] == ' ',
        n < s.len() ==> s[n] != ' ',
    ensures
        leading_spaces(s) == n,
{
    lemma_leading_spaces(s);
    let m = leading_spaces(s) as int;
    if m < n {
        assert(s[m] == ' ');
    } else if n < m {
        assert(s[n] == ' ');
    }
}

/// The column of the key lies within the prefix.
pub proof fn lemma_key_column(prefix: Seq<char>)
    ensures
        key_column(prefix) <= prefix.len(),
    decreases prefix.len(),
{
    let n = dash_len(prefix);
    if 0 < n < prefix.len() {
        lemma_key_column(prefix.skip(n as int));
    }
}

/// A value of several lines begins with its prefix, and ends without a line feed.
pub proof fn lemma_multiline_ends(indent: Seq<char>, prefix: Seq<char>, s: Seq<char>)
    requires
        strip_newline(s).contains('\n'),
    ensures
        text::starts_with(multiline_text(indent, prefix, s), indent + prefix),
        text::ends_in_line(multiline_text(indent, prefix, s)),
{
    let head = indent + prefix;
    let r = multiline_text(indent, prefix, s);
    if !fits_literal(prefix, s) {
        assert(r.take(head.len() as int) =~= head);
    } else {
        let rows = literal_lines(indent, prefix, s);
        let pt = strip_newline(s);
        let pieces = text::split_on(pt, '\n');
        text::lemma_join_prefix(rows, seq!['\n']);
        assert(rows[0].take(head.len() as int) =~= head);
        assert(r.take(rows[0].len() as int).take(head.len() as int) =~= r.take(head.len() as int));
        text::lemma_split_nonempty(pt, '\n');
        let last = rows.last();
        assert(last.len() > 0 && last.last() != '\n' && last.last() != '\r') by {
            if ends_in_empty_line(s) {
                reveal_strlit("# end of value");
            } else {
                lemma_last_piece(pt);
                let p = pieces.last();
                text::lemma_split_pieces(pt);
                assert(text::one_line(pieces[pieces.len() - 1]));
                assert(last =~= child_indent(indent, prefix) + p);
                assert(p.last() == pt.last());
                assert(literal_char(s[pt.len() - 1]));
            }
        }
        assert(r =~= text::join_with(rows.drop_last(), seq!['\n']) + seq!['\n'] + last);
    }
}

/// The last piece of a text that does not end in a line feed is its end.
pub proof fn lemma_last_piece(s: Seq<char>)
    requires
        s.len() > 0,
        s.last() != '\n',
    ensures
        ({
            let pieces = text::split_on(s, '\n');
            pieces.len() > 0 && pieces.last().len() > 0 && pieces.last().last() == s.last()
        }),
{
    let pieces = text::split_on(s, '\n');
    text::lemma_join_split(s, '\n');
    text::lemma_split_nonempty(s, '\n');
    let last = pieces.last();
    if pieces.len() > 1 {
        let front = text::join_with(pieces.drop_last(), seq!['\n']) + seq!['\n'];
        assert(s == front + last);
        if last.len() == 0 {
            assert(s.last() == '\n');
        }
    }
}

// ---------------------------------------------------------------------------
// Executable functions
// ---------------------------------------------------------------------------

/// The column of the key, and whether the value is a list item.
fn measure_prefix(prefix: &str) -> (r: (usize, bool))
    ensures
        r.0 == key_column(prefix@),
        r.1 == only_dashes(prefix@),
        r.0 <= prefix@.len(),
{
    let v: Vec<char> = chars_of(prefix);
    let mut start: usize = 0;
    proof {
        assert(v@.skip(0) =~= prefix@);
        lemma_key_column(prefix@);
    }
    loop
        invariant
            v@ == prefix@,
            start <= v@.len(),
            key_column(prefix@) == start + key_column(v@.skip(start as int)),
            key_column(prefix@) <= prefix@.len(),
        decreases v@.len() - start,
    {
        let ghost rest = v@.skip(start as int);
        let size: usize = v.len();
        if size - start < 2 || v[start] != '-' || v[start + 1] != ' ' {
            return (start, false);
        }
        let mut end: usize = start + 1;
        while end < v.len() && v[end] == ' '
            invariant
                start + 1 <= end <= v@.len(),
                forall|i: int| start + 1 <= i < end ==> #[trigger] v@[i] == ' ',
            decreases v@.len() - end,
        {
            end += 1;
        }
        proof {
            let n = end - start;
            lemma_leading_spaces_is(rest.skip(1), n - 1);
            assert(dash_len(rest) == n);
            assert(rest.skip(n) =~= v@.skip(end as int));
        }
        if end == v.len() {
            return (start, true);
        }
        start = end;
    }
}

/// The indentation of the lines under a value's key.
pub fn child_indent_text(indent: &str, prefix: &str) -> (r: String)
    ensures
        r@ == child_indent(indent@, prefix@),
{
    let (column, _dashes): (usize, bool) = measure_prefix(prefix);
    let mut r: String = indent.to_owned();
    let mut i: usize = 0;
    assert(r@ =~= indent@ + spaces(0));
    while i < column
        invariant
            i <= column,
            r@ == indent@ + spaces(i as nat),
        decreases column - i,
    {
        r.push(' ');
        assert(r@ =~= indent@ + spaces((i + 1) as nat));
        i += 1;
    }
    proof {
        reveal_strlit("  ");
    }
    r.append("  ");
    assert(r@ =~= child_indent(indent@, prefix@));
    r
}

/// Whether a character can stand in a literal block scalar.
fn is_literal_char(c: char) -> (r: bool)
    ensures
        r == literal_char(c),
{
    let u: u32 = c as u32;
    u == 0x09 || u == 0x0a || (0x20 <= u && u <= 0x7e) || (0xa0 <= u && u <= 0xfffd && u != 0x2028 && u != 0x2029
        && u != 0xfeff) || u >= 0x10000
}

/// Whether a text does not tell the indentation of its lines.
fn has_unclear_indent(v: &Vec<char>) -> (r: bool)
    ensures
        r == unclear_indent(v@),
{
    let mut i: usize = 0;
    assert(v@.skip(0) =~= v@);
    while i < v.len() && v[i] == '\n'
        invariant
            i <= v@.len(),
            unclear_indent(v@) == unclear_indent(v@.skip(i as int)),
        decreases v@.len() - i,
    {
        assert(v@.skip(i as int).skip(1) =~= v@.skip(i + 1));
        i += 1;
    }
    i == v.len() || v[i] == ' '
}

/// Whether every character can stand in a literal block scalar.
pub(crate) fn all_literal(v: &Vec<char>) -> (r: bool)
    ensures
        r == literal_text(v@),
{
    let mut i: usize = 0;
    while i < v.len()
        invariant
            i <= v@.len(),
            forall|j: int| 0 <= j < i ==> literal_char(#[trigger] v@[j]),
        decreases v@.len() - i,
    {
        if !is_literal_char(v[i]) {
            assert(!literal_char(v@[i as int]));
            return false;
        }
        i += 1;
    }
    true
}

/// The digit of value `n`.
fn digit(n: u32) -> (r: char)
    requires
        n < 16,
    ensures
        r == hexadecimal::hex_digit(n as int),
{
    if n < 10 {
        (0x30 + n as u8) as char
    } else {
        (0x61 + (n as u8 - 10)) as char
    }
}

/// Adds a character inside double quotes.
fn push_escaped(r: &mut String, c: char)
    ensures
        final(r)@ == old(r)@ + escaped_char(c),
{
    let u: u32 = c as u32;
    let ghost before = r@;
    if c == '"' || c == '\\' {
        r.push('\\');
        r.push(c);
        assert(r@ =~= before + seq!['\\', c]);
    } else if c == '\n' {
        r.push('\\');
        r.push('n');
        assert(r@ =~= before + seq!['\\', 'n']);
    } else if c == '\r' {
        r.push('\\');
        r.push('r');
        assert(r@ =~= before + seq!['\\', 'r']);
    } else if is_literal_char(c) {
        r.push(c);
        assert(r@ =~= before + seq![c]);
    } else {
        let a: char = digit(u / 0x1000 % 16);
        let b: char = digit(u / 0x100 % 16);
        let d: char = digit(u / 0x10 % 16);
        let e: char = digit(u % 16);
        r.push('\\');
        r.push('u');
        r.push(a);
        r.push(b);
        r.push(d);
        r.push(e);
        assert(r@ =~= before + seq!['\\', 'u', a, b, d, e]);
    }
}

/// A YAML double-quoted scalar.
pub fn quote_double(s: &str) -> (r: String)
    ensures
        r@ == double_quoted(s@),
{
    let v: Vec<char> = chars_of(s);
    let mut r: String = String::new();
    r.push('"');
    let mut i: usize = 0;
    assert(s@.take(0) =~= seq![]);
    assert(r@ =~= seq!['"'] + escaped(s@.take(0)));
    while i < v.len()
        invariant
            i <= v@.len(),
            v@ == s@,
            r@ == seq!['"'] + escaped(s@.take(i as int)),
        decreases v@.len() - i,
    {
        let c: char = v[i];
        proof {
            assert(s@.take(i + 1).drop_last() =~= s@.take(i as int));
            assert(s@.take(i + 1).last() == c);
        }
        push_escaped(&mut r, c);
        proof {
            assert(r@ =~= seq!['"'] + escaped(s@.take(i + 1)));
        }
        i += 1;
    }
    assert(s@.take(i as int) =~= s@);
    r.push('"');
    assert(r@ =~= double_quoted(s@));
    r
}

/// A value of several lines as it stands in YAML, from the beginning of its line
/// on.
pub fn render_multiline(indent: &str, prefix: &str, s: &str) -> (r: String)
    ensures
        r@ == multiline_text(indent@, prefix@, s@),
{
    let v: Vec<char> = chars_of(s);
    let n: usize = v.len();
    let (_column, dashes): (usize, bool) = measure_prefix(prefix);
    let unclear: bool = has_unclear_indent(&v);
    let mut out: String = joined(indent, prefix);
    if !all_literal(&v) || (unclear && !dashes && !contains(prefix, ": ")) {
        let quoted: String = quote_double(s);
        out.append(quoted.as_str());
        return out;
    }
    let ended: bool = n > 0 && v[n - 1] == '\n';
    let twice: bool = n >= 2 && v[n - 1] == '\n' && v[n - 2] == '\n';
    let kept: usize = if ended {
        n - 1
    } else {
        n
    };
    let pt: String = text_of(&v, 0, kept);
    proof {
        reveal_strlit("");
        assert(pt@ =~= strip_newline(s@));
        assert(ended ==> strip_newline(s@).len() != s@.len());
    }
    out.append("|");
    if unclear {
        out.append("2");
    }
    assert(out@ =~= indent@ + prefix@ + "|"@ + indicator(s@));
    if twice {
        out.append("+");
    } else if !ended {
        out.append("-");
    }
    let ghost head = indent@ + prefix@ + "|"@ + indicator(s@) + chomping(s@);
    assert(out@ =~= head);
    let child: String = child_indent_text(indent, prefix);
    let pieces: Vec<String> = split(pt.as_str(), '\n');
    let ghost all = indented(text::texts(pieces@), child@);
    let mut i: usize = 0;
    assert(seq![head] + all.take(0) =~= seq![head]);
    while i < pieces.len()
        invariant
            i <= pieces@.len(),
            all == indented(text::texts(pieces@), child@),
            out@ == text::join_with(seq![head] + all.take(i as int), seq!['\n']),
        decreases pieces@.len() - i,
    {
        let ghost before = seq![head] + all.take(i as int);
        let ghost after = seq![head] + all.take(i + 1);
        out.push('\n');
        assert(text::texts(pieces@)[i as int] == pieces@[i as int]@);
        if !pieces[i].as_str().is_empty() {
            out.append(child.as_str());
            out.append(pieces[i].as_str());
        }
        proof {
            assert(after.drop_last() =~= before);
            assert(after.last() == all[i as int]);
            assert(out@ =~= text::join_with(before, seq!['\n']) + seq!['\n'] + all[i as int]);
        }
        i += 1;
    }
    assert(all.take(all.len() as int) =~= all);
    let ghost rows = seq![head] + all;
    if twice {
        out.push('\n');
        out.append(indent);
        out.append(END_OF_VALUE);
        proof {
            let last = indent@ + END_OF_VALUE@;
            let whole = rows + seq![last];
            assert(whole.drop_last() =~= rows);
            assert(out@ =~= text::join_with(rows, seq!['\n']) + seq!['\n'] + last);
            assert(whole =~= literal_lines(indent@, prefix@, s@));
        }
    } else {
        assert(rows =~= literal_lines(indent@, prefix@, s@));
    }
    out
}

} // verus!
