//! What the library reads in a document and writes into it, told over documents
//! that are put together from their parts: entry lines from a key and a value,
//! vault blocks from a header and digits, replacements from the text in them.

use vstd::prelude::*;
use vstd::string::*;
use vstd::utf8::*;
use crate::actions;
use crate::actions::{BlockText, PlainText};
use crate::literal;
use crate::pattern;
use crate::pattern::EntryMatch;
use crate::reading;
use crate::round_trip;
use crate::text;
use crate::vault;

verus! {

broadcast use vstd::string::group_string_axioms;

// ---------------------------------------------------------------------------
// White space
// ---------------------------------------------------------------------------

/// Of the ASCII characters the space and those from the tabulator to the
/// carriage return are white space, and no other.
pub proof fn law_ascii_white_space(c: char)
    requires
        c <= '\u{7f}',
    ensures
        text::is_ws(c) <==> (c == ' ' || '\u{9}' <= c <= '\u{d}'),
{
}

/// Beyond ASCII, white space is what Unicode counts as such.
pub proof fn law_unicode_white_space(c: char)
    requires
        c > '\u{7f}',
    ensures
        text::is_ws(c) <==> (c == '\u{85}' || c == '\u{a0}' || c == '\u{1680}' || '\u{2000}' <= c <= '\u{200a}' || c
            == '\u{2028}' || c == '\u{2029}' || c == '\u{202f}' || c == '\u{205f}' || c == '\u{3000}'),
{
}

/// The lines of a text are what line feeds part, all of them and whole, but for a
/// carriage return before the line feed. A line feed at the end of the text ends its
/// last line and begins none; without one, the last line ends with the text.
pub proof fn law_document_lines(rows: Seq<Seq<char>>)
    requires
        rows.len() > 0,
        forall|i: int| 0 <= i < rows.len() ==> !(#[trigger] rows[i]).contains('\n'),
        forall|i: int| 0 <= i < rows.len() ==> (#[trigger] rows[i]).len() == 0 || rows[i].last() != '\r',
    ensures
        text::lines_of(text::join_with(rows, seq!['\n']).push('\n')) == rows,
        rows.last().len() > 0 ==> text::lines_of(text::join_with(rows, seq!['\n'])) == rows,
        text::lines_of(text::join_with(rows, seq!['\r', '\n']).push('\r').push('\n')) == rows,
        text::lines_of(seq![]).len() == 0,
{
    assert forall|i: int| 0 <= i < rows.len() implies text::one_line(#[trigger] rows[i]) by {
        lemma_one_line(rows[i]);
    }
    text::lemma_lines_of_joined(rows);
    assert forall|i: int| 0 <= i < rows.len() implies text::stripped(rows)[i] == rows[i] by {
        assert(rows[i].len() == 0 || rows[i].last() != '\r');
    }
    assert(text::stripped(rows) =~= rows);
    let front = rows.drop_last();
    assert forall|i: int| 0 <= i < front.len() implies text::stripped(front)[i] == front[i] by {
        assert(rows[i].len() == 0 || rows[i].last() != '\r');
    }
    assert(text::stripped(front).push(rows.last()) =~= rows);
    let ended = Seq::new(rows.len(), |i: int| rows[i].push('\r'));
    assert forall|i: int| 0 <= i < ended.len() implies text::one_line(#[trigger] ended[i]) by {
        assert(text::one_line(rows[i]));
    }
    text::lemma_lines_of_joined(ended);
    assert forall|i: int| 0 <= i < rows.len() implies text::stripped(ended)[i] == rows[i] by {
        assert(ended[i].drop_last() =~= rows[i]);
    }
    assert(text::stripped(ended) =~= rows);
    lemma_joined_ended(rows);
}

/// A text without a line feed is one line.
proof fn lemma_one_line(s: Seq<char>)
    requires
        !s.contains('\n'),
    ensures
        text::one_line(s),
{
    assert forall|i: int| 0 <= i < s.len() implies s[i] != '\n' by {
        assert(s.contains(s[i]));
    }
}

/// Lines that end in a carriage return and a line feed.
proof fn lemma_joined_ended(rows: Seq<Seq<char>>)
    requires
        rows.len() > 0,
    ensures
        text::join_with(rows, seq!['\r', '\n']).push('\r') == text::join_with(
            Seq::new(rows.len(), |i: int| rows[i].push('\r')),
            seq!['\n'],
        ),
    decreases rows.len(),
{
    let ended = Seq::new(rows.len(), |i: int| rows[i].push('\r'));
    reveal_with_fuel(text::join_with, 2);
    if rows.len() > 1 {
        let front = rows.drop_last();
        lemma_joined_ended(front);
        assert(ended.drop_last() =~= Seq::new(front.len(), |i: int| front[i].push('\r')));
        assert(text::join_with(rows, seq!['\r', '\n']).push('\r') =~= text::join_with(front, seq!['\r', '\n']).push('\r')
            + seq!['\n'] + rows.last().push('\r'));
    } else {
        assert(text::join_with(rows, seq!['\r', '\n']).push('\r') =~= ended[0]);
    }
}

/// Trimming takes the white space around a text, and nothing else.
pub proof fn law_trimmed(before: Seq<char>, s: Seq<char>, after: Seq<char>)
    requires
        text::blank(before),
        text::blank(after),
        s.len() > 0 ==> !text::is_ws(s[0]) && !text::is_ws(s.last()),
    ensures
        text::trim_of(before + s + after) == s,
        text::trim_end_of(before + s + after) == (if s.len() > 0 {
            before + s
        } else {
            seq![]
        }),
        text::trim_start_of(before + s + after) == (if s.len() > 0 {
            s + after
        } else {
            seq![]
        }),
{
    let whole = before + s + after;
    let n = (before + s).len() as int;
    if s.len() > 0 {
        assert forall|i: int| 0 <= i < before.len() implies text::is_ws(#[trigger] whole[i]) by {
            assert(text::is_ws(before[i]));
        }
        assert forall|i: int| n <= i < whole.len() implies text::is_ws(#[trigger] whole[i]) by {
            assert(text::is_ws(after[i - n]));
        }
        assert(whole[n - 1] == s.last());
        assert(whole[before.len() as int] == s[0]);
        text::lemma_trim_end_is(whole, n);
        assert(whole.take(n) =~= before + s);
        text::lemma_indent_len_is(whole, before.len() as int);
        assert(whole.skip(before.len() as int) =~= s + after);
        let rest = s + after;
        assert forall|i: int| s.len() <= i < rest.len() implies text::is_ws(#[trigger] rest[i]) by {
            assert(text::is_ws(after[i - s.len()]));
        }
        text::lemma_trim_end_is(rest, s.len() as int);
        assert(rest.take(s.len() as int) =~= s);
    } else {
        assert forall|i: int| 0 <= i < whole.len() implies text::is_ws(#[trigger] whole[i]) by {
            if i < before.len() {
                assert(text::is_ws(before[i]));
            } else {
                assert(text::is_ws(after[i - before.len()]));
            }
        }
        text::lemma_indent_len_is(whole, whole.len() as int);
        text::lemma_trim_end_is(whole, 0);
        assert(whole.skip(whole.len() as int) =~= seq![]);
        assert(whole.take(0) =~= seq![]);
        assert(text::blank(whole));
        text::lemma_trim_blank(whole);
        assert(s =~= seq![]);
    }
}

// ---------------------------------------------------------------------------
// Plaintext of one line
// ---------------------------------------------------------------------------

/// The scalar behind `head` in a replacement reads as `v`, on the same line.
pub open spec fn shows(replacement: Seq<char>, head: Seq<char>, v: Seq<char>) -> bool {
    let scalar = replacement.skip(head.len() as int);
    &&& replacement == head + scalar
    &&& !scalar.contains('\n')
    &&& reading::scalar_value(scalar) == Some(v)
}

/// Every text `v` without a line feed is read back whole from its replacement: the
/// scalar behind the indentation and the prefix reads in YAML as `v`. A line feed
/// at the end of the plaintext changes nothing.
pub proof fn law_one_line_value_shown(indent: Seq<char>, prefix: Seq<char>, v: Seq<char>)
    requires
        !v.contains('\n'),
    ensures
        shows(actions::decrypted_text(indent, prefix, v), indent + prefix, v),
        shows(actions::decrypted_text(indent, prefix, v.push('\n')), indent + prefix, v),
        actions::decrypted_text(indent, prefix, v.push('\n')) == actions::decrypted_text(indent, prefix, v),
{
    assert(literal::strip_newline(v) == v) by {
        if v.len() > 0 {
            assert(v.contains(v.last()));
        }
    }
    assert(v.push('\n').drop_last() =~= v);
    assert(literal::strip_newline(v.push('\n')) == v);
    reading::law_one_line_plaintext_kept(indent, prefix, v);
    reading::law_one_line_plaintext_kept(indent, prefix, v.push('\n'));
}

/// Two plaintexts of one line have the same replacement only where they are the
/// same.
pub proof fn law_one_line_values_told_apart(indent: Seq<char>, prefix: Seq<char>, v: Seq<char>, w: Seq<char>)
    requires
        !v.contains('\n'),
        !w.contains('\n'),
        actions::decrypted_text(indent, prefix, v) == actions::decrypted_text(indent, prefix, w),
    ensures
        v == w,
{
    law_one_line_value_shown(indent, prefix, v);
    law_one_line_value_shown(indent, prefix, w);
}

/// A text that begins with a letter or a digit, does not end in white space or a
/// colon, and has no colon before a space nor a number sign after one, replaces its
/// block as it is, without quotes. It must hold no tabulator, and nothing else that
/// is not printable.
pub proof fn law_plain_text_unquoted(indent: Seq<char>, prefix: Seq<char>, v: Seq<char>)
    requires
        v.len() > 0,
        'a' <= v[0] <= 'z' || 'A' <= v[0] <= 'Z' || '0' <= v[0] <= '9',
        forall|i: int|
            0 <= i < v.len() ==> literal::literal_char(#[trigger] v[i]) && v[i] != '\n' && v[i] != '\t',
        !text::is_ws(v.last()) && v.last() != ':',
        forall|i: int| 0 < i < v.len() ==> !(v[i - 1] == ':' && #[trigger] v[i] == ' '),
        forall|i: int| 0 < i < v.len() ==> !(v[i - 1] == ' ' && #[trigger] v[i] == '#'),
    ensures
        actions::decrypted_text(indent, prefix, v) == indent + prefix + v,
        actions::decrypted_text(indent, prefix, v.push('\n')) == indent + prefix + v,
{
    reveal_strlit("!&*?|>%@`\"'#-:{}[],");
    reveal_strlit(": ");
    reveal_strlit(":\t");
    reveal_strlit(" #");
    reveal_strlit("\t#");
    assert(!v.contains('\n'));
    law_one_line_value_shown(indent, prefix, v);
    text::lemma_trim_unchanged(v);
    assert(!text::contains_text(v, ": "@)) by {
        lemma_no_pair(v, ": "@);
    }
    assert(!text::contains_text(v, ":\t"@)) by {
        lemma_no_pair(v, ":\t"@);
    }
    assert(!text::contains_text(v, " #"@)) by {
        lemma_no_pair(v, " #"@);
    }
    assert(!text::contains_text(v, "\t#"@)) by {
        lemma_no_pair(v, "\t#"@);
    }
    assert(literal::literal_text(v));
    assert(!actions::SPECIAL_START@.contains(v[0]));
    assert(!actions::must_quote(v));
    assert(literal::strip_newline(v) == v);
}

/// Characters that stand nowhere one after the other are no part of the text.
proof fn lemma_no_pair(s: Seq<char>, pair: Seq<char>)
    requires
        pair.len() == 2,
        forall|i: int| 0 < i < s.len() ==> !(s[i - 1] == pair[0] && #[trigger] s[i] == pair[1]),
    ensures
        !text::contains_text(s, pair),
{
    assert forall|i: int| !#[trigger] text::occurs_at(s, pair, i) by {
        if text::occurs_at(s, pair, i) {
            assert(s.subrange(i, i + 2)[0] == s[i]);
            assert(s.subrange(i, i + 2)[1] == s[i + 1]);
            assert(s[i + 1] == pair[1]);
        }
    }
}

/// Of the ASCII characters a block scalar can hold the printable ones, the
/// tabulator and the line feed. Of the others it can hold all but control
/// characters, the line breaks of Unicode, the byte order mark, and the two that are
/// no characters.
pub proof fn law_literal_ascii(c: char)
    ensures
        c <= '\u{7f}' ==> (literal::literal_char(c) <==> (' ' <= c <= '~' || c == '\t' || c == '\n')),
        c > '\u{7f}' ==> (!literal::literal_char(c) <==> ('\u{80}' <= c <= '\u{9f}' || c == '\u{2028}' || c
            == '\u{2029}' || c == '\u{feff}' || c == '\u{fffe}' || c == '\u{ffff}')),
{
}

/// A text that begins or ends so that YAML would not read it as it is, or has at `i`
/// what would end it or be lost.
pub open spec fn unsafe_at(v: Seq<char>, i: int) -> bool {
    ||| v.len() == 0
    ||| text::is_ws(v[0]) || text::is_ws(v.last())
    ||| v.last() == ':'
    ||| v[0] == '!' || v[0] == '&' || v[0] == '*' || v[0] == '?' || v[0] == '|' || v[0] == '>' || v[0] == '%' || v[0] == '@'
    ||| v[0] == '`' || v[0] == '"' || v[0] == '\'' || v[0] == '#' || v[0] == '-' || v[0] == ':' || v[0] == '{' || v[0] == '}'
    ||| v[0] == '[' || v[0] == ']' || v[0] == ','
    ||| 0 < i < v.len() && v[i - 1] == ':' && (v[i] == ' ' || v[i] == '\t')
    ||| 0 < i < v.len() && v[i] == '#' && (v[i - 1] == ' ' || v[i - 1] == '\t')
    ||| 0 <= i < v.len() && !literal::literal_char(v[i])
}

/// A text needs quotes exactly where YAML would not read it as it is: where it is
/// empty, has white space around it, begins with an indicator of YAML or ends in a
/// colon; or where a colon stands before a space or a tabulator, a number sign after
/// one, or a character anywhere that is not printable.
pub proof fn law_needs_quotes(v: Seq<char>)
    ensures
        actions::must_quote(v) <==> exists|i: int| #[trigger] unsafe_at(v, i),
{
    reveal_strlit("!&*?|>%@`\"'#-:{}[],");
    reveal_strlit(": ");
    reveal_strlit(":\t");
    reveal_strlit(" #");
    reveal_strlit("\t#");
    let s = actions::SPECIAL_START@;
    assert(s.len() == 19);
    assert(s[0] == '!' && s[1] == '&' && s[2] == '*' && s[3] == '?' && s[4] == '|' && s[5] == '>' && s[6] == '%' && s[7]
        == '@' && s[8] == '`' && s[9] == '"' && s[10] == '\'' && s[11] == '#' && s[12] == '-' && s[13] == ':' && s[14]
        == '{' && s[15] == '}' && s[16] == '[' && s[17] == ']' && s[18] == ',');
    if exists|i: int| #[trigger] unsafe_at(v, i) {
        let i = choose|i: int| #[trigger] unsafe_at(v, i);
        if v.len() > 0 {
            lemma_trim_keeps(v);
            if 0 < i < v.len() {
                lemma_pair(v, ": "@, i);
                lemma_pair(v, ":\t"@, i);
                lemma_pair(v, " #"@, i);
                lemma_pair(v, "\t#"@, i);
            }
        }
        assert(actions::must_quote(v));
    } else {
        assert(!unsafe_at(v, 0));
        assert forall|i: int| 0 < i < v.len() implies !(v[i - 1] == ':' && (#[trigger] v[i] == ' ' || v[i] == '\t')) && !(
        v[i] == '#' && (v[i - 1] == ' ' || v[i - 1] == '\t')) by {
            assert(!unsafe_at(v, i));
        }
        lemma_no_pair(v, ": "@);
        lemma_no_pair(v, ":\t"@);
        lemma_no_pair(v, " #"@);
        lemma_no_pair(v, "\t#"@);
        assert forall|i: int| 0 <= i < v.len() implies literal::literal_char(#[trigger] v[i]) by {
            assert(!unsafe_at(v, i));
        }
        text::lemma_trim_unchanged(v);
        assert(!s.contains(v[0]));
    }
}

/// A text with white space around it is not its own trimming.
proof fn lemma_trim_keeps(v: Seq<char>)
    requires
        v.len() > 0,
    ensures
        text::trim_of(v) == v ==> !text::is_ws(v[0]) && !text::is_ws(v.last()),
{
    text::lemma_indent_len(v);
    text::lemma_trim_end(text::trim_start_of(v));
    if text::trim_of(v) == v {
        assert(text::indent_len(v) == 0);
        assert(v.skip(0) =~= v);
    }
}

/// Two characters one after the other are a part of the text.
proof fn lemma_pair(s: Seq<char>, pair: Seq<char>, i: int)
    requires
        pair.len() == 2,
        0 < i < s.len(),
    ensures
        s[i - 1] == pair[0] && s[i] == pair[1] ==> text::contains_text(s, pair),
{
    if s[i - 1] == pair[0] && s[i] == pair[1] {
        assert(s.subrange(i - 1, i + 1) =~= pair);
        assert(text::occurs_at(s, pair, i - 1));
    }
}

/// A one-line text that would not be read as it is stands in quotes: in double ones
/// where it has a character that is not printable, else in single ones. Every other
/// stands as it is.
pub proof fn law_quoted_where_needed(indent: Seq<char>, prefix: Seq<char>, v: Seq<char>)
    requires
        !v.contains('\n'),
    ensures
        ({
            let scalar = actions::decrypted_text(indent, prefix, v).skip((indent + prefix).len() as int);
            if exists|i: int| #[trigger] unsafe_at(v, i) {
                scalar.len() >= 2 && scalar.last() == scalar[0] && scalar[0] == (if literal::literal_text(v) {
                    '\''
                } else {
                    '"'
                })
            } else {
                scalar == v
            }
        }),
{
    law_needs_quotes(v);
    law_one_line_value_shown(indent, prefix, v);
    let scalar = actions::decrypted_text(indent, prefix, v).skip((indent + prefix).len() as int);
    assert(literal::strip_newline(v) == v) by {
        if v.len() > 0 {
            assert(v.contains(v.last()));
        }
    }
    assert(scalar =~= actions::scalar_text(v));
    if exists|i: int| #[trigger] unsafe_at(v, i) {
        if literal::literal_text(v) {
            assert(scalar == actions::single_quoted(v));
        } else {
            assert(scalar == literal::double_quoted(v));
        }
    } else {
        assert(literal::literal_text(v));
    }
}

/// The quotes come off a text where the same quote begins and ends it, and what
/// stands between them is left whole. Every other text is left as it is.
pub proof fn law_quotes_taken_off(q: char, w: Seq<char>, v: Seq<char>)
    ensures
        q == '"' || q == '\'' ==> actions::unquoted(seq![q] + w + seq![q]) == w,
        v.len() < 2 || v[0] != v.last() || (v[0] != '"' && v[0] != '\'') ==> actions::unquoted(v) == v,
{
    let s = seq![q] + w + seq![q];
    assert(s.subrange(1, s.len() - 1) =~= w);
}

/// Inside double quotes, a quote, a backslash and the two line ends stand behind a
/// backslash; every other character stands as it is where it is printable, and as
/// four digits otherwise.
pub proof fn law_characters_escaped(s: Seq<char>, c: char)
    ensures
        literal::escaped(seq![]) == Seq::<char>::empty(),
        ({
            let more = literal::escaped(s.push(c)).skip(literal::escaped(s).len() as int);
            &&& literal::escaped(s.push(c)) == literal::escaped(s) + more
            &&& c == '"' || c == '\\' ==> more == seq!['\\', c]
            &&& c == '\n' ==> more == seq!['\\', 'n']
            &&& c == '\r' ==> more == seq!['\\', 'r']
            &&& c != '"' && c != '\\' && c != '\n' && literal::literal_char(c) ==> more == seq![c]
            &&& c != '\r' && !literal::literal_char(c) ==> more.len() == 6 && more[0] == '\\' && more[1] == 'u'
        }),
{
    assert(s.push(c).drop_last() =~= s);
    let more = literal::escaped(s.push(c)).skip(literal::escaped(s).len() as int);
    assert(more =~= literal::escaped_char(c));
}

/// The indentation of a line is counted in bytes, of all its leading white space.
pub proof fn law_indentation_counted(indent: Seq<char>, rest: Seq<char>)
    requires
        text::blank(indent),
        rest.len() > 0 ==> !text::is_ws(rest[0]),
    ensures
        actions::indent_bytes(indent + rest) == encode_utf8(indent).len(),
{
    let line = indent + rest;
    assert forall|i: int| 0 <= i < indent.len() implies text::is_ws(#[trigger] line[i]) by {
        assert(text::is_ws(indent[i]));
    }
    if rest.len() > 0 {
        assert(line[indent.len() as int] == rest[0]);
    }
    text::lemma_indent_len_is(line, indent.len() as int);
    assert(line.take(indent.len() as int) =~= indent);
}

// ---------------------------------------------------------------------------
// Plain values
// ---------------------------------------------------------------------------

/// `line` is an entry line with these parts, one after the other: indentation, a
/// key, a colon, white space, a value, and white space after it.
pub open spec fn entry_line(
    line: Seq<char>,
    indent: Seq<char>,
    key: Seq<char>,
    gap: Seq<char>,
    v: Seq<char>,
    tail: Seq<char>,
) -> bool {
    &&& line == indent + key + seq![':'] + gap + v + tail
    &&& text::blank(indent) && text::blank(gap) && text::blank(tail)
    &&& key.len() > 0 && gap.len() > 0 && v.len() > 0
    &&& !text::is_ws(key[0]) && key[0] != '#' && !text::is_ws(key.last())
    &&& !key.contains(':')
    &&& !text::is_ws(v[0]) && !text::is_ws(v.last())
    &&& !v.contains('\n')
}

/// The way to match an entry line with so many dashes.
spec fn entry_with(
    indent: Seq<char>,
    key: Seq<char>,
    gap: Seq<char>,
    v: Seq<char>,
    dashes: int,
) -> EntryMatch {
    let colon = (indent.len() + key.len()) as int;
    EntryMatch {
        indent: indent.len() as int,
        dashes,
        colon,
        value: (colon + 1 + gap.len()) as int,
        end: (colon + 1 + gap.len() + v.len()) as int,
    }
}

/// Where the parts of an entry line stand in it.
proof fn lemma_entry_places(
    line: Seq<char>,
    indent: Seq<char>,
    key: Seq<char>,
    gap: Seq<char>,
    v: Seq<char>,
    tail: Seq<char>,
)
    requires
        entry_line(line, indent, key, gap, v, tail),
    ensures
        ({
            let m = entry_with(indent, key, gap, v, 0);
            &&& m.end + tail.len() == line.len()
            &&& forall|n: int| 0 <= n < m.indent ==> text::is_ws(#[trigger] line[n])
            &&& forall|n: int| m.indent <= n < m.colon ==> #[trigger] line[n] == key[n - m.indent] && line[n] != ':'
            &&& line[m.colon] == ':'
            &&& forall|n: int| m.colon < n < m.value ==> text::is_ws(#[trigger] line[n])
            &&& forall|n: int| m.value <= n < m.end ==> #[trigger] line[n] == v[n - m.value] && line[n] != '\n'
            &&& forall|n: int| m.end <= n < line.len() ==> text::is_ws(#[trigger] line[n])
            &&& line.take(m.indent) == indent
            &&& line.subrange(m.indent, m.value) == key + seq![':'] + gap
            &&& line.subrange(m.value, m.end) == v
        }),
{
    let m = entry_with(indent, key, gap, v, 0);
    assert forall|n: int| 0 <= n < m.indent implies text::is_ws(#[trigger] line[n]) by {
        assert(text::is_ws(indent[n]));
    }
    assert forall|n: int| m.indent <= n < m.colon implies #[trigger] line[n] == key[n - m.indent] && line[n] != ':' by {
        assert(key.contains(key[n - m.indent]));
    }
    assert forall|n: int| m.colon < n < m.value implies text::is_ws(#[trigger] line[n]) by {
        assert(text::is_ws(gap[n - m.colon - 1]));
    }
    assert forall|n: int| m.value <= n < m.end implies #[trigger] line[n] == v[n - m.value] && line[n] != '\n' by {
        assert(v.contains(v[n - m.value]));
    }
    assert forall|n: int| m.end <= n < line.len() implies text::is_ws(#[trigger] line[n]) by {
        assert(text::is_ws(tail[n - m.end]));
    }
    assert(line.take(m.indent) =~= indent);
    assert(line.subrange(m.indent, m.value) =~= key + seq![':'] + gap);
    assert(line.subrange(m.value, m.end) =~= v);
}

/// However an entry line is matched, the match can be made to stop where its
/// parts do.
#[verifier::spinoff_prover]
#[verifier::rlimit(40)]
proof fn lemma_entry_matches(
    line: Seq<char>,
    indent: Seq<char>,
    key: Seq<char>,
    gap: Seq<char>,
    v: Seq<char>,
    tail: Seq<char>,
    m: EntryMatch,
)
    requires
        entry_line(line, indent, key, gap, v, tail),
        pattern::entry_match(line, m),
    ensures
        ({
            let o = entry_with(indent, key, gap, v, m.dashes);
            &&& m.indent == o.indent && m.colon == o.colon && m.value <= o.value && m.end >= o.end
            &&& m.dashes <= line.len()
            &&& pattern::entry_match(line, o)
        }),
{
    reveal_strlit("- ");
    lemma_entry_places(line, indent, key, gap, v, tail);
    let o = entry_with(indent, key, gap, v, m.dashes);
    let from = m.indent + 2 * m.dashes;
    assert(!text::is_ws(line[m.indent])) by {
        if m.dashes > 0 {
            assert(text::occurs_at(line, "- "@, m.indent + 2 * 0));
            assert(line.subrange(m.indent, m.indent + 2)[0] == '-');
        }
    }
    assert(m.indent == o.indent) by {
        if m.indent > o.indent {
            assert(line.take(m.indent)[o.indent] == key[0]);
        }
    }
    // The dashes end before the first colon.
    assert(from < o.colon) by {
        if from >= o.colon {
            let n = (o.colon - m.indent) / 2;
            if from > o.colon {
                assert(text::occurs_at(line, "- "@, m.indent + 2 * n));
                let two = line.subrange(m.indent + 2 * n, m.indent + 2 * n + 2);
                assert(two[0] == line[m.indent + 2 * n]);
                assert(two[1] == line[m.indent + 2 * n + 1]);
                assert(line[o.colon] == two[o.colon - m.indent - 2 * n]);
            } else {
                let n = m.dashes - 1;
                assert(text::occurs_at(line, "- "@, m.indent + 2 * n));
                let two = line.subrange(m.indent + 2 * n, m.indent + 2 * n + 2);
                assert(two[1] == line[o.colon - 1]);
                assert(key.last() == ' ');
            }
        }
    }
    assert(m.colon == o.colon);
    assert(m.value <= o.value) by {
        if m.value > o.value {
            let g = line.subrange(m.colon + 1, m.value);
            assert(g[o.value - m.colon - 1] == v[0]);
        }
    }
    assert(m.end >= o.end) by {
        if m.end < o.end {
            assert(line.skip(m.end)[o.end - 1 - m.end] == v.last());
        }
    }
    lemma_entry_match_with(line, indent, key, gap, v, tail, m.dashes);
}

/// An entry line can be matched with so many dashes, if so many begin its key and
/// something else follows them.
proof fn lemma_entry_match_with(
    line: Seq<char>,
    indent: Seq<char>,
    key: Seq<char>,
    gap: Seq<char>,
    v: Seq<char>,
    tail: Seq<char>,
    dashes: int,
)
    requires
        entry_line(line, indent, key, gap, v, tail),
        dashes >= 0,
        2 * dashes < key.len(),
        forall|n: int| 0 <= n < dashes ==> #[trigger] text::occurs_at(line, "- "@, indent.len() + 2 * n),
        !text::is_ws(key[2 * dashes]) && key[2 * dashes] != '#',
    ensures
        pattern::entry_match(line, entry_with(indent, key, gap, v, dashes)),
{
    lemma_entry_places(line, indent, key, gap, v, tail);
    let o = entry_with(indent, key, gap, v, dashes);
    let g = line.subrange(o.colon + 1, o.value);
    assert forall|n: int| 0 <= n < g.len() implies text::is_ws(#[trigger] g[n]) by {
        assert(g[n] == line[o.colon + 1 + n]);
    }
    let b = line.skip(o.end);
    assert forall|n: int| 0 <= n < b.len() implies text::is_ws(#[trigger] b[n]) by {
        assert(b[n] == line[o.end + n]);
    }
    assert(line[o.indent + 2 * dashes] == key[2 * dashes]);
}

/// The first match of an entry line, if none has more than `dashes` dashes.
proof fn lemma_entry_first(
    line: Seq<char>,
    indent: Seq<char>,
    key: Seq<char>,
    gap: Seq<char>,
    v: Seq<char>,
    tail: Seq<char>,
    dashes: int,
)
    requires
        entry_line(line, indent, key, gap, v, tail),
        dashes >= 0,
        forall|d: int| d > dashes ==> !pattern::entry_match(line, #[trigger] entry_with(indent, key, gap, v, d)),
    ensures
        exists|d: int| pattern::first_entry_match(line, #[trigger] entry_with(indent, key, gap, v, d)),
    decreases dashes,
{
    let o = entry_with(indent, key, gap, v, dashes);
    if dashes == 0 {
        lemma_entry_match_with(line, indent, key, gap, v, tail, 0);
    }
    if pattern::entry_match(line, o) {
        assert forall|m: EntryMatch| #[trigger] pattern::entry_match(line, m) implies !pattern::tried_before(m, o) by {
            lemma_entry_matches(line, indent, key, gap, v, tail, m);
            assert(pattern::entry_match(line, entry_with(indent, key, gap, v, m.dashes)));
        }
        assert(pattern::first_entry_match(line, o));
    } else {
        lemma_entry_first(line, indent, key, gap, v, tail, dashes - 1);
    }
}

/// An entry line is taken apart into the parts it was put together from.
pub proof fn law_entry_line_parts(
    line: Seq<char>,
    indent: Seq<char>,
    key: Seq<char>,
    gap: Seq<char>,
    v: Seq<char>,
    tail: Seq<char>,
)
    requires
        entry_line(line, indent, key, gap, v, tail),
    ensures
        pattern::entry_of(line) == Some((indent, key + seq![':'] + gap, v)),
{
    assert forall|d: int| d > line.len() implies !pattern::entry_match(line, #[trigger] entry_with(indent, key, gap, v, d)) by {
    }
    lemma_entry_first(line, indent, key, gap, v, tail, line.len() as int);
    let d = choose|d: int| pattern::first_entry_match(line, #[trigger] entry_with(indent, key, gap, v, d));
    let o = entry_with(indent, key, gap, v, d);
    lemma_entry_places(line, indent, key, gap, v, tail);
    let m = choose|m: EntryMatch| pattern::first_entry_match(line, m);
    assert(pattern::first_entry_match(line, o));
    assert(pattern::entry_match(line, o));
    assert(pattern::entry_match(line, m));
    assert(m == o);
}

/// The value that is found in an entry line is the whole value: every character of
/// it, but for a pair of quotes around it. The indentation is the line's, and the
/// prefix the key with its colon and one space. A value that begins as a tag, an
/// anchor, an alias, a block scalar, a comment or a flow collection is not plain,
/// nor is vault text.
pub proof fn law_plain_value_whole(
    line: Seq<char>,
    at: int,
    indent: Seq<char>,
    key: Seq<char>,
    gap: Seq<char>,
    v: Seq<char>,
    tail: Seq<char>,
)
    requires
        entry_line(line, indent, key, gap, v, tail),
    ensures
        ({
            let other = v[0] == '!' || v[0] == '&' || v[0] == '*' || v[0] == '|' || v[0] == '>' || v[0] == '#' || v[0]
                == '{' || v[0] == '[' || "$ANSIBLE_VAULT"@.is_prefix_of(v);
            let quoted = v.len() >= 2 && v[0] == v.last() && (v[0] == '"' || v[0] == '\'');
            let prefix = key + seq![':', ' '];
            let found = actions::plain_in(line, at);
            &&& other ==> found is None
            &&& !other && !quoted ==> found == Some(PlainText { line: at, indent, prefix, value: v })
            &&& !other && quoted ==> found == Some(
                PlainText { line: at, indent, prefix, value: v.drop_first().drop_last() },
            )
        }),
{
    law_entry_line_parts(line, indent, key, gap, v, tail);
    text::lemma_trim_unchanged(v);
    lemma_entry_prefix(key, gap);
    lemma_vault_text_begins(v);
    if v.len() >= 2 {
        assert(v.subrange(1, v.len() - 1) =~= v.drop_first().drop_last());
    }
}

/// The prefix of a value: its key, a colon and one space.
proof fn lemma_entry_prefix(key: Seq<char>, gap: Seq<char>)
    requires
        text::blank(gap),
    ensures
        text::trim_end_of(key + seq![':'] + gap) + " "@ == key + seq![':', ' '],
{
    reveal_strlit(" ");
    let full = key + seq![':'] + gap;
    let n = key.len() + 1;
    assert forall|i: int| n <= i < full.len() implies text::is_ws(#[trigger] full[i]) by {
        assert(text::is_ws(gap[i - n]));
    }
    text::lemma_trim_end_is(full, n as int);
    assert(full.take(n as int) + " "@ =~= key + seq![':', ' ']);
}

/// Vault text is what begins with the vault header.
proof fn lemma_vault_text_begins(v: Seq<char>)
    requires
        v.len() > 0,
        !text::is_ws(v[0]),
    ensures
        vault::is_vault_text(v) <==> "$ANSIBLE_VAULT"@.is_prefix_of(v),
{
    reveal_strlit("$ANSIBLE_VAULT");
    text::lemma_indent_len_is(v, 0);
    assert(v.skip(0) =~= v);
    if v.len() >= 14 {
        assert(v.take(14) =~= v.subrange(0, 14));
    }
}

/// A line without a colon has no plain value, nor has a comment, nor a line whose
/// first colons have no white space behind them, up to the one that ends it.
pub proof fn law_no_plain_value(line: Seq<char>, at: int, indent: Seq<char>, rest: Seq<char>)
    requires
        line == indent + rest,
        text::blank(indent),
        rest.len() > 0 && !text::is_ws(rest[0]),
        rest[0] == '#' || forall|i: int|
            0 < i < rest.len() - 1 ==> !(#[trigger] rest[i] == ':' && text::is_ws(rest[i + 1])),
    ensures
        actions::plain_in(line, at) is None,
{
    reveal_strlit("- ");
    let n = indent.len() as int;
    assert forall|m: EntryMatch| !#[trigger] pattern::entry_match(line, m) by {
        if pattern::entry_match(line, m) {
            assert(line[n] == rest[0]);
            if m.dashes > 0 {
                assert(text::occurs_at(line, "- "@, m.indent + 2 * 0));
                assert(line.subrange(m.indent, m.indent + 2)[0] == '-');
                assert(line[m.indent] == '-');
            }
            assert(!text::is_ws(line[m.indent]));
            if m.indent < n {
                assert(line[m.indent] == indent[m.indent]);
            } else if m.indent > n {
                assert(line.take(m.indent)[n] == line[n]);
            }
            assert(m.indent == n);
            let i = m.colon - n;
            assert(rest[i] == ':');
            assert(line.subrange(m.colon + 1, m.value)[0] == rest[i + 1]);
        }
    }
}

/// A line whose first colon ends it, or has no white space behind it, has no plain
/// value, where it does not begin with a dash.
pub proof fn law_no_plain_value_after_colon(line: Seq<char>, at: int, indent: Seq<char>, key: Seq<char>, rest: Seq<char>)
    requires
        line == indent + key + seq![':'] + rest,
        text::blank(indent),
        key.len() > 0 && !text::is_ws(key[0]) && key[0] != '-' && !key.contains(':'),
        rest.len() > 0 ==> !text::is_ws(rest[0]),
    ensures
        actions::plain_in(line, at) is None,
{
    reveal_strlit("- ");
    let n = indent.len() as int;
    let c = n + key.len();
    assert forall|i: int| n <= i < c implies line[i] != ':' by {
        assert(key.contains(key[i - n]));
    }
    assert forall|m: EntryMatch| !#[trigger] pattern::entry_match(line, m) by {
        if pattern::entry_match(line, m) {
            assert(line[n] == key[0]);
            if m.dashes > 0 {
                assert(text::occurs_at(line, "- "@, m.indent + 2 * 0));
                assert(line.subrange(m.indent, m.indent + 2)[0] == '-');
                assert(line[m.indent] == '-');
            }
            assert(!text::is_ws(line[m.indent]));
            if m.indent < n {
                assert(line[m.indent] == indent[m.indent]);
            } else if m.indent > n {
                assert(line.take(m.indent)[n] == line[n]);
            }
            assert(m.indent == n && m.dashes == 0);
            assert(line[c] == ':');
            assert(m.colon == c);
            assert(line.subrange(m.colon + 1, m.value)[0] == rest[0]);
        }
    }
}

/// A plain scalar of YAML behind a key is the value that is found there, all of it.
pub proof fn law_plain_scalar_found(indent: Seq<char>, key: Seq<char>, v: Seq<char>, at: int)
    requires
        text::blank(indent),
        key.len() > 0 && !text::is_ws(key[0]) && key[0] != '#' && !text::is_ws(key.last()) && !key.contains(':'),
        reading::plain_scalar(v),
        !"$ANSIBLE_VAULT"@.is_prefix_of(v),
    ensures
        actions::plain_in(indent + key + ": "@ + v, at) == Some(
            PlainText { line: at, indent, prefix: key + ": "@, value: v },
        ),
{
    reveal_strlit(": ");
    reveal_strlit("!&*?|>%@`\"'#-:{}[],");
    let line = indent + key + ": "@ + v;
    assert(line =~= indent + key + seq![':'] + seq![' '] + v + seq![]);
    assert(key + ": "@ =~= key + seq![':', ' ']);
    let s = actions::SPECIAL_START@;
    assert(s[0] == '!' && s[1] == '&' && s[2] == '*' && s[4] == '|' && s[5] == '>' && s[9] == '"' && s[10] == '\''
        && s[11] == '#' && s[14] == '{' && s[16] == '[');
    law_plain_value_whole(line, at, indent, key, seq![' '], v, seq![]);
}

/// What is found in any line is the scalar of the line without the white space
/// around it: as it is where no quote begins it, and what stands between the
/// quotes where a pair of the same quotes stands around it.
pub proof fn law_plain_value_is_scalar(line: Seq<char>, at: int, before: Seq<char>, v: Seq<char>, after: Seq<char>, q: char)
    requires
        actions::plain_in(line, at) is Some,
        (pattern::entry_of(line)->0).2 == before + v + after,
        text::blank(before) && text::blank(after),
        v.len() > 0 && !text::is_ws(v[0]) && !text::is_ws(v.last()),
    ensures
        v[0] != '"' && v[0] != '\'' ==> (actions::plain_in(line, at)->0).value == v,
        forall|w: Seq<char>|
            v == #[trigger] (seq![q] + w + seq![q]) && (q == '"' || q == '\'') ==> (actions::plain_in(line, at)->0).value == w,
{
    law_trimmed(before, v, after);
    assert forall|w: Seq<char>|
        v == #[trigger] (seq![q] + w + seq![q]) && (q == '"' || q == '\'') implies (actions::plain_in(line, at)->0).value
        == w by {
        assert(v.subrange(1, v.len() - 1) =~= w);
    }
}

// ---------------------------------------------------------------------------
// Vault blocks
// ---------------------------------------------------------------------------

/// A tag line is taken apart into its indentation and what stands before the tag,
/// however much white space stands before the bar and whichever indicators behind
/// it.
pub proof fn law_tag_line_parts(
    indent: Seq<char>,
    prefix: Seq<char>,
    gap: Seq<char>,
    sign: Seq<char>,
    digits: Seq<char>,
    tail: Seq<char>,
)
    requires
        text::blank(indent) && text::blank(gap) && text::blank(tail),
        !prefix.contains('\n'),
        prefix.len() > 0 ==> !text::is_ws(prefix[0]),
        sign.len() <= 1,
        sign.len() == 1 ==> sign[0] == '+' || sign[0] == '-',
        forall|i: int| 0 <= i < digits.len() ==> '0' <= #[trigger] digits[i] <= '9',
    ensures
        pattern::tag_of(indent + prefix + "!vault"@ + gap + seq!['|'] + sign + digits + tail) == Some((indent, prefix)),
{
    reveal_strlit("!vault");
    let t = "!vault"@ + gap + seq!['|'] + sign + digits + tail;
    let s = indent + prefix + "!vault"@ + gap + seq!['|'] + sign + digits + tail;
    let i = indent.len() as int;
    let j = i + prefix.len();
    let a = 6 + gap.len();
    let b = a + 1 + sign.len();
    let c = b + digits.len();
    assert(s.skip(j) =~= t);
    assert(pattern::tag_tail(t, a as int, b as int, c as int)) by {
        assert(t.take(6) =~= "!vault"@);
        assert(t.subrange(6, a as int) =~= gap);
        assert(t[a as int] == '|');
        if sign.len() == 1 {
            assert(t[a as int + 1] == sign[0]);
        }
        assert forall|n: int| b <= n < c implies pattern::is_decimal(#[trigger] t[n]) by {
            assert(t[n] == digits[n - b]);
        }
        assert(t.skip(c as int) =~= tail);
    }
    assert forall|n: int| 0 <= n < i implies text::is_ws(#[trigger] s[n]) by {
        assert(text::is_ws(indent[n]));
    }
    assert(s[i] == if prefix.len() > 0 { prefix[0] } else { '!' });
    text::lemma_indent_len_is(s, i);
    assert(s.take(i) =~= indent);
    assert forall|n: int| i <= n < j implies #[trigger] s[n] != '\n' by {
        assert(prefix.contains(prefix[n - i]));
    }
    assert(pattern::tag_match(s, i, j));
    pattern::lemma_tag_match(s, i, j);
    assert(s.subrange(i, j) =~= prefix);
}

/// A tag line has nothing behind its tag but the bar, its indicators and white
/// space: a line with another character, that is no part of `!vault` and has no
/// exclamation mark behind it, is none.
pub proof fn law_no_tag(line: Seq<char>, i: int)
    requires
        0 <= i < line.len(),
        line[i] <= '\u{7f}' && !text::is_ws(line[i]) && line[i] != '|' && line[i] != '+' && line[i] != '-' && !('0'
            <= line[i] <= '9'),
        forall|j: int| i - 6 < j <= i && 0 <= j && j + 6 <= line.len() ==> #[trigger] line.subrange(j, j + 6) != "!vault"@,
        forall|j: int| i < j < line.len() ==> #[trigger] line[j] != '!',
    ensures
        pattern::tag_of(line) is None,
{
    reveal_strlit("!vault");
    let k = text::indent_len(line) as int;
    assert forall|j: int| !#[trigger] pattern::tag_match(line, k, j) by {
        if pattern::tag_match(line, k, j) {
            let t = line.skip(j);
            let (a, b, c) = choose|a: int, b: int, c: int| pattern::tag_tail(t, a, b, c);
            assert(t.take(6) =~= line.subrange(j, j + 6));
            assert(line.subrange(j, j + 6)[0] == line[j]);
            assert(line[j] == '!');
            assert(j <= i);
            assert(j <= i - 6);
            let n = i - j;
            assert(t[n] == line[i]);
            if n < a {
                assert(t.subrange(6, a)[n - 6] == t[n]);
            } else if n >= c {
                assert(t.skip(c)[n - c] == t[n]);
            } else if n >= b {
                assert(pattern::is_decimal(t[n]));
            }
        }
    }
}

/// A row of a block: so many spaces, some text, and white space behind it.
pub open spec fn block_row(line: Seq<char>, depth: nat, s: Seq<char>, tail: Seq<char>) -> bool {
    &&& line == literal::spaces(depth) + s + tail
    &&& text::blank(tail)
    &&& s.len() > 0 && !text::is_ws(s[0]) && !text::is_ws(s.last())
}

/// How a row of a block reads.
proof fn lemma_block_row(line: Seq<char>, depth: nat, s: Seq<char>, tail: Seq<char>)
    requires
        block_row(line, depth, s, tail),
    ensures
        text::trim_of(line) == s,
        actions::indent_bytes(line) == depth,
{
    let w = literal::spaces(depth);
    assert(text::blank(w));
    law_trimmed(w, s, tail);
    assert forall|i: int| 0 <= i < depth implies text::is_ws(#[trigger] line[i]) by {
        assert(w[i] == ' ');
    }
    assert(line[depth as int] == s[0]);
    text::lemma_indent_len_is(line, depth as int);
    assert(line.take(depth as int) =~= w);
    assert(is_ascii_chars(w));
    is_ascii_chars_encode_utf8(w);
}

/// From the line `from` on stand the rows of a block, each indented deeper than
/// `depth`: one that begins with the vault header, and rows of digits.
pub open spec fn block_rows(
    lines: Seq<Seq<char>>,
    from: int,
    depth: nat,
    depths: Seq<nat>,
    rows: Seq<Seq<char>>,
    tails: Seq<Seq<char>>,
) -> bool {
    &&& rows.len() > 0 && depths.len() == rows.len() && tails.len() == rows.len()
    &&& forall|i: int|
        0 <= i < rows.len() ==> depths[i] > depth && block_row(lines[from + i], depths[i], #[trigger] rows[i], tails[i])
    &&& "$ANSIBLE_VAULT"@.is_prefix_of(rows[0]) && !rows[0].contains('!')
    &&& forall|i: int, j: int|
        0 < i < rows.len() && 0 <= j < rows[i].len() ==> ('0' <= #[trigger] rows[i][j] <= '9' || 'a' <= rows[i][j] <= 'f'
            || 'A' <= rows[i][j] <= 'F')
}

/// A vault block is found whole from each of its lines: a tag line; under it,
/// indented deeper, a line that begins with the vault header; and under that the
/// lines of hexadecimal digits, however many, up to the first that is not one. Its
/// vault text is those lines without the white space around them.
pub proof fn law_block_whole(
    lines: Seq<Seq<char>>,
    start: int,
    cursor: int,
    depth: nat,
    prefix: Seq<char>,
    depths: Seq<nat>,
    rows: Seq<Seq<char>>,
    tails: Seq<Seq<char>>,
)
    requires
        0 <= start,
        start + rows.len() < lines.len(),
        pattern::tag_of(lines[start]) == Some((literal::spaces(depth), prefix)),
        block_rows(lines, start + 1, depth, depths, rows, tails),
        start + 1 + rows.len() < lines.len() ==> ends_block(lines[start + 1 + rows.len()], depth),
        start <= cursor <= start + rows.len(),
    ensures
        actions::block_at(lines, cursor) == Some(
            BlockText {
                start_line: start,
                end_line: start + rows.len(),
                indent: literal::spaces(depth),
                prefix,
                vaulttext: text::join_with(rows, seq!['\n']),
            },
        ),
{
    let indent = literal::spaces(depth);
    let end = start + rows.len();
    assert(is_ascii_chars(indent));
    is_ascii_chars_encode_utf8(indent);
    assert(block_row(lines[start + 1 + 0], depths[0], rows[0], tails[0]));
    lemma_block_row(lines[start + 1], depths[0], rows[0], tails[0]);
    lemma_vault_text_begins(rows[0]);
    assert forall|i: int| start + 2 <= i <= end implies actions::digits_under_tag(#[trigger] lines[i], depth) by {
        let k = i - start - 1;
        assert(block_row(lines[start + 1 + k], depths[k], rows[k], tails[k]));
        lemma_block_row(lines[i], depths[k], rows[k], tails[k]);
        assert forall|j: int| 0 <= j < rows[k].len() implies actions::is_hex_char(#[trigger] rows[k][j]) by {
        }
    }
    if end + 1 < lines.len() {
        lemma_ends_block(lines[end + 1], depth);
    }
    round_trip::lemma_block_found(lines, start, end, indent, prefix, cursor);
    let found = Seq::new((end - start) as nat, |i: int| text::trim_of(lines[start + 1 + i]));
    assert forall|i: int| 0 <= i < rows.len() implies found[i] == rows[i] by {
        assert(block_row(lines[start + 1 + i], depths[i], rows[i], tails[i]));
        lemma_block_row(lines[start + 1 + i], depths[i], rows[i], tails[i]);
    }
    assert(found =~= rows);
}

/// The line does not belong to a block whose tag is indented by `depth` spaces: it
/// is blank, is not indented deeper, or holds something else than digits.
pub open spec fn ends_block(line: Seq<char>, depth: nat) -> bool {
    ||| text::blank(line)
    ||| exists|k: int| #![trigger line[k]]
        0 <= k < line.len() && k <= depth && !text::is_ws(line[k]) && line.take(k) == literal::spaces(k as nat)
    ||| exists|k: int|
        0 <= k < line.len() && !text::is_ws(#[trigger] line[k]) && !('0' <= line[k] <= '9' || 'a' <= line[k] <= 'f' || 'A'
            <= line[k] <= 'F')
}

proof fn lemma_ends_block(line: Seq<char>, depth: nat)
    requires
        ends_block(line, depth),
    ensures
        !actions::digits_under_tag(line, depth),
{
    if text::blank(line) {
        text::lemma_trim_blank(line);
    } else if exists|k: int| #![trigger line[k]]
        0 <= k < line.len() && k <= depth && !text::is_ws(line[k]) && line.take(k) == literal::spaces(k as nat) {
        let k = choose|k: int| #![trigger line[k]]
            0 <= k < line.len() && k <= depth && !text::is_ws(line[k]) && line.take(k) == literal::spaces(k as nat);
        let w = line.take(k);
        assert forall|i: int| 0 <= i < k implies text::is_ws(#[trigger] line[i]) by {
            assert(w[i] == ' ');
        }
        text::lemma_indent_len_is(line, k);
        assert(is_ascii_chars(w));
        is_ascii_chars_encode_utf8(w);
    } else {
        let k = choose|k: int|
            0 <= k < line.len() && !text::is_ws(#[trigger] line[k]) && !('0' <= line[k] <= '9' || 'a' <= line[k] <= 'f'
                || 'A' <= line[k] <= 'F');
        let i = text::indent_len(line) as int;
        text::lemma_indent_len(line);
        text::lemma_trim_end(line.skip(i));
        let t = text::trim_of(line);
        if k < i {
            assert(line.take(i)[k] == line[k]);
        } else if k >= i + t.len() {
            assert(line.skip(i).skip(t.len() as int)[k - i - t.len()] == line[k]);
        } else {
            assert(t[k - i] == line.skip(i)[k - i]);
            assert(!actions::is_hex_char(t[k - i]));
        }
    }
}

/// A tag line with no vault header under it, indented deeper, begins no block.
pub proof fn law_no_block_without_header(
    lines: Seq<Seq<char>>,
    start: int,
    depth: nat,
    prefix: Seq<char>,
    under: nat,
    s: Seq<char>,
    tail: Seq<char>,
)
    requires
        0 <= start < lines.len(),
        pattern::tag_of(lines[start]) == Some((literal::spaces(depth), prefix)),
        start + 1 < lines.len() ==> text::blank(lines[start + 1]) || (block_row(lines[start + 1], under, s, tail) && (under
            <= depth || !"$ANSIBLE_VAULT"@.is_prefix_of(s))),
    ensures
        actions::block_at(lines, start) is None,
{
    let indent = literal::spaces(depth);
    assert(is_ascii_chars(indent));
    is_ascii_chars_encode_utf8(indent);
    if start + 1 < lines.len() {
        if text::blank(lines[start + 1]) {
            text::lemma_trim_blank(lines[start + 1]);
        } else {
            lemma_block_row(lines[start + 1], under, s, tail);
            lemma_vault_text_begins(s);
        }
    }
}

/// The line below a block belongs to none, unless it is a tag line itself.
pub proof fn law_block_ends(
    lines: Seq<Seq<char>>,
    start: int,
    depth: nat,
    prefix: Seq<char>,
    depths: Seq<nat>,
    rows: Seq<Seq<char>>,
    tails: Seq<Seq<char>>,
)
    requires
        0 <= start,
        start + rows.len() + 1 < lines.len(),
        pattern::tag_of(lines[start]) == Some((literal::spaces(depth), prefix)),
        block_rows(lines, start + 1, depth, depths, rows, tails),
        ends_block(lines[start + 1 + rows.len()], depth),
        pattern::tag_of(lines[start + 1 + rows.len()]) is None,
    ensures
        actions::block_at(lines, start + 1 + rows.len()) is None,
{
    let end = start + rows.len();
    law_block_whole(lines, start, end, depth, prefix, depths, rows, tails);
    law_block_whole(lines, start, start, depth, prefix, depths, rows, tails);
    assert(actions::tag_line(lines, end) == Some(start)) by {
        actions::lemma_tag_line(lines, end);
        assert(actions::block_from(lines, actions::tag_line(lines, end)->0) is Some);
    }
}

/// A line that is neither a tag line nor part of a payload belongs to no block: one
/// that holds something else than digits and does not begin with the vault header.
pub proof fn law_no_block(lines: Seq<Seq<char>>, cursor: int, before: Seq<char>, s: Seq<char>, after: Seq<char>, i: int)
    requires
        0 <= cursor < lines.len(),
        pattern::tag_of(lines[cursor]) is None,
        lines[cursor] == before + s + after,
        text::blank(before) && text::blank(after),
        !"$ANSIBLE_VAULT"@.is_prefix_of(s),
        0 <= i < s.len() && !text::is_ws(s[0]) && !text::is_ws(s.last()),
        !('0' <= s[i] <= '9' || 'a' <= s[i] <= 'f' || 'A' <= s[i] <= 'F'),
    ensures
        actions::block_at(lines, cursor) is None,
{
    law_trimmed(before, s, after);
    lemma_vault_text_begins(s);
    assert(!actions::is_hex_char(s[i]));
}

// ---------------------------------------------------------------------------
// Replacements of several lines
// ---------------------------------------------------------------------------

/// The lines under a key are indented two columns more than it. A list dash before
/// it counts as indentation, with the spaces after it; one with nothing after it
/// takes the place of the key.
pub proof fn law_lines_under_key(indent: Seq<char>, prefix: Seq<char>, n: nat)
    requires
        prefix.len() > 0 && prefix[0] != ' ',
        n > 0,
    ensures
        prefix[0] != '-' ==> literal::child_indent(indent, prefix) == indent + seq![' ', ' '],
        literal::child_indent(indent, seq!['-'] + prefix) == indent + seq![' ', ' '],
        literal::child_indent(indent, seq!['-'] + literal::spaces(n)) == indent + seq![' ', ' '],
        literal::child_indent(indent, seq![]) == indent + seq![' ', ' '],
        literal::child_indent(indent, seq!['-'] + literal::spaces(n) + prefix) == literal::child_indent(
            indent + literal::spaces(n + 1),
            prefix,
        ),
{
    let two = seq![' ', ' '];
    assert(literal::spaces(2) =~= two);
    assert((seq!['-'] + prefix)[1] == prefix[0]);
    let dash = seq!['-'] + literal::spaces(n);
    assert(dash.skip(1) =~= literal::spaces(n));
    literal::lemma_leading_spaces_is(dash.skip(1), n as int);
    assert(literal::dash_len(dash) == n + 1);
    assert(literal::key_column(dash) == 0);
    let whole = dash + prefix;
    let rest = whole.skip(1);
    assert(rest =~= literal::spaces(n) + prefix);
    literal::lemma_leading_spaces_is(rest, n as int);
    assert(literal::dash_len(whole) == n + 1);
    assert(whole.skip(n as int + 1) =~= prefix);
    assert(literal::key_column(whole) == n + 1 + literal::key_column(prefix));
    let k = literal::key_column(prefix);
    assert(literal::child_indent(indent, whole) =~= indent + literal::spaces(n + 1) + literal::spaces(k + 2));
}

/// An encrypted value is the key with the tag and a bar, and under it every line of
/// the vault text, each indented alike. A line feed at the end changes nothing.
pub proof fn law_encrypted_value_written(indent: Seq<char>, prefix: Seq<char>, rows: Seq<Seq<char>>)
    requires
        rows.len() > 0,
        forall|i: int| 0 <= i < rows.len() ==> text::is_line(#[trigger] rows[i]),
    ensures
        ({
            let child = literal::child_indent(indent, prefix);
            let written = seq![indent + prefix + "!vault |"@] + Seq::new(rows.len(), |i: int| child + rows[i]);
            let vaulttext = text::join_with(rows, seq!['\n']);
            &&& actions::encrypted_text(indent, prefix, vaulttext) == text::join_with(written, seq!['\n'])
            &&& actions::encrypted_text(indent, prefix, vaulttext.push('\n')) == text::join_with(written, seq!['\n'])
        }),
{
    let child = literal::child_indent(indent, prefix);
    let vaulttext = text::join_with(rows, seq!['\n']);
    assert forall|i: int| 0 <= i < rows.len() implies text::one_line(#[trigger] rows[i]) by {
        assert(text::is_line(rows[i]));
    }
    text::lemma_lines_of_joined(rows);
    assert(text::is_line(rows[rows.len() - 1]));
    assert forall|i: int| 0 <= i < rows.len() implies text::stripped(rows)[i] == rows[i] by {
        assert(text::is_line(rows[i]));
    }
    assert(text::stripped(rows) =~= rows);
    let front = rows.drop_last();
    assert forall|i: int| 0 <= i < front.len() implies text::stripped(front)[i] == front[i] by {
        assert(text::is_line(rows[i]));
    }
    assert(text::stripped(front).push(rows.last()) =~= rows);
}

/// A plaintext of several lines, whose first begins with no space, stands line by
/// line under a bar, each line indented alike: all of them. A dash behind the bar
/// tells that no line feed ends it.
pub proof fn law_lines_written(indent: Seq<char>, prefix: Seq<char>, rows: Seq<Seq<char>>)
    requires
        rows.len() > 1,
        forall|i: int| 0 <= i < rows.len() ==> !(#[trigger] rows[i]).contains('\n'),
        forall|i: int| 0 <= i < rows.len() ==> literal::literal_text(#[trigger] rows[i]),
        rows[0].len() > 0 && rows[0][0] != ' ',
        rows.last().len() > 0,
    ensures
        ({
            let child = literal::child_indent(indent, prefix);
            let written = Seq::new(
                rows.len(),
                |i: int| if rows[i].len() == 0 {
                    rows[i]
                } else {
                    child + rows[i]
                },
            );
            let plaintext = text::join_with(rows, seq!['\n']);
            &&& actions::decrypted_text(indent, prefix, plaintext) == text::join_with(
                seq![indent + prefix + seq!['|', '-']] + written,
                seq!['\n'],
            )
            &&& actions::decrypted_text(indent, prefix, plaintext.push('\n')) == text::join_with(
                seq![indent + prefix + seq!['|']] + written,
                seq!['\n'],
            )
        }),
{
    reveal_strlit("|");
    reveal_strlit("-");
    reveal_strlit("");
    let child = literal::child_indent(indent, prefix);
    let written = Seq::new(
        rows.len(),
        |i: int| if rows[i].len() == 0 {
            rows[i]
        } else {
            child + rows[i]
        },
    );
    let p = text::join_with(rows, seq!['\n']);
    let q = p.push('\n');
    lemma_joined_text(rows);
    lemma_one_line(rows[0]);
    assert(q[0] == p[0]);
    assert(!literal::unclear_indent(p) && !literal::unclear_indent(q));
    lemma_indented(rows, child);
    assert(indent + prefix + "|"@ + ""@ + "-"@ =~= indent + prefix + seq!['|', '-']);
    assert(indent + prefix + "|"@ + ""@ + ""@ =~= indent + prefix + seq!['|']);
    assert(seq![indent + prefix + seq!['|', '-']] + written + Seq::<Seq<char>>::empty() =~= seq![indent + prefix + seq![
        '|',
        '-',
    ]] + written);
    assert(seq![indent + prefix + seq!['|']] + written + Seq::<Seq<char>>::empty() =~= seq![indent + prefix + seq!['|']]
        + written);
}

/// A plaintext of several lines whose first begins with a space stands under a bar
/// with the number 2 behind it, which tells how far the lines are indented.
pub proof fn law_leading_space_written(indent: Seq<char>, key: Seq<char>, rows: Seq<Seq<char>>)
    requires
        rows.len() > 1,
        forall|i: int| 0 <= i < rows.len() ==> !(#[trigger] rows[i]).contains('\n'),
        forall|i: int| 0 <= i < rows.len() ==> literal::literal_text(#[trigger] rows[i]),
        rows[0].len() > 0 && rows[0][0] == ' ',
        rows.last().len() > 0,
    ensures
        ({
            let prefix = key + seq![':', ' '];
            let child = literal::child_indent(indent, prefix);
            let written = Seq::new(
                rows.len(),
                |i: int| if rows[i].len() == 0 {
                    rows[i]
                } else {
                    child + rows[i]
                },
            );
            let plaintext = text::join_with(rows, seq!['\n']);
            &&& actions::decrypted_text(indent, prefix, plaintext) == text::join_with(
                seq![indent + prefix + seq!['|', '2', '-']] + written,
                seq!['\n'],
            )
            &&& actions::decrypted_text(indent, prefix, plaintext.push('\n')) == text::join_with(
                seq![indent + prefix + seq!['|', '2']] + written,
                seq!['\n'],
            )
        }),
{
    reveal_strlit("|");
    reveal_strlit("-");
    reveal_strlit("2");
    reveal_strlit("");
    reveal_strlit(": ");
    let prefix = key + seq![':', ' '];
    let child = literal::child_indent(indent, prefix);
    let p = text::join_with(rows, seq!['\n']);
    let q = p.push('\n');
    lemma_joined_text(rows);
    assert(q[0] == p[0]);
    assert(text::occurs_at(prefix, ": "@, key.len() as int)) by {
        assert(prefix.subrange(key.len() as int, key.len() as int + 2) =~= ": "@);
    }
    assert(literal::key_on_line(prefix));
    let written = Seq::new(
        rows.len(),
        |i: int| if rows[i].len() == 0 {
            rows[i]
        } else {
            child + rows[i]
        },
    );
    lemma_indented(rows, child);
    assert(indent + prefix + "|"@ + "2"@ + "-"@ =~= indent + prefix + seq!['|', '2', '-']);
    assert(indent + prefix + "|"@ + "2"@ + ""@ =~= indent + prefix + seq!['|', '2']);
    assert(seq![indent + prefix + seq!['|', '2', '-']] + written + Seq::<Seq<char>>::empty() =~= seq![indent + prefix
        + seq!['|', '2', '-']] + written);
    assert(seq![indent + prefix + seq!['|', '2']] + written + Seq::<Seq<char>>::empty() =~= seq![indent + prefix + seq![
        '|',
        '2',
    ]] + written);
}

/// A plaintext that ends in several line feeds, and begins with no space, keeps them
/// all: its empty lines stand under a bar with a plus sign, closed by a comment.
pub proof fn law_trailing_lines_written(indent: Seq<char>, prefix: Seq<char>, rows: Seq<Seq<char>>, empty: nat)
    requires
        rows.len() > 0,
        empty > 0,
        forall|i: int| 0 <= i < rows.len() ==> !(#[trigger] rows[i]).contains('\n'),
        forall|i: int| 0 <= i < rows.len() ==> literal::literal_text(#[trigger] rows[i]),
        rows[0].len() > 0 && rows[0][0] != ' ',
        rows.last().len() > 0,
    ensures
        ({
            let child = literal::child_indent(indent, prefix);
            let written = Seq::new(
                rows.len(),
                |i: int| if rows[i].len() == 0 {
                    rows[i]
                } else {
                    child + rows[i]
                },
            ) + Seq::new(empty, |i: int| Seq::<char>::empty());
            let plaintext = text::join_with(rows, seq!['\n']) + Seq::new(empty + 1, |i: int| '\n');
            actions::decrypted_text(indent, prefix, plaintext) == text::join_with(
                seq![indent + prefix + seq!['|', '+']] + written + seq![indent + "# end of value"@],
                seq!['\n'],
            )
        }),
{
    reveal_strlit("|");
    reveal_strlit("+");
    reveal_strlit("");
    let child = literal::child_indent(indent, prefix);
    let none = Seq::<char>::empty();
    let es = Seq::new(empty, |i: int| none);
    let all = rows + es;
    let p = text::join_with(rows, seq!['\n']);
    let kept = p + Seq::new(empty, |i: int| '\n');
    let plaintext = p + Seq::new(empty + 1, |i: int| '\n');
    lemma_joined_ends(rows);
    lemma_joined_literal(rows);
    lemma_joined_empties(rows, empty);
    assert(text::join_with(all, seq!['\n']) == kept);
    assert forall|i: int| 0 <= i < all.len() implies text::one_line(#[trigger] all[i]) by {
        if i < rows.len() {
            lemma_one_line(rows[i]);
        }
    }
    text::lemma_split_join(all);
    assert(plaintext.drop_last() =~= kept);
    assert(plaintext.last() == '\n');
    assert(literal::strip_newline(plaintext) == kept);
    assert(kept.last() == '\n');
    assert(kept.contains(kept.last()));
    assert(literal::ends_in_empty_line(plaintext)) by {
        assert(plaintext[plaintext.len() - 2] == kept.last());
    }
    assert(plaintext[0] == p[0]);
    assert(rows[0][0] != '\n') by {
        lemma_one_line(rows[0]);
    }
    assert(!literal::unclear_indent(plaintext));
    assert(literal::literal_text(plaintext)) by {
        assert forall|i: int| 0 <= i < plaintext.len() implies literal::literal_char(#[trigger] plaintext[i]) by {
            if i < p.len() {
                assert(literal::literal_char(p[i]));
            }
        }
    }
    lemma_indented(all, child);
    let written = Seq::new(
        rows.len(),
        |i: int| if rows[i].len() == 0 {
            rows[i]
        } else {
            child + rows[i]
        },
    ) + es;
    assert(literal::indented(all, child) =~= written) by {
        assert forall|i: int| 0 <= i < all.len() implies #[trigger] literal::indented(all, child)[i] == written[i] by {
            if all[i].len() == 0 {
                assert(all[i] =~= none);
            }
        }
    }
    assert(indent + prefix + "|"@ + ""@ + "+"@ =~= indent + prefix + seq!['|', '+']);
}

/// Empty lines at the end are line feeds.
proof fn lemma_joined_empties(rows: Seq<Seq<char>>, empty: nat)
    requires
        rows.len() > 0,
    ensures
        text::join_with(rows + Seq::new(empty, |i: int| Seq::<char>::empty()), seq!['\n']) == text::join_with(
            rows,
            seq!['\n'],
        ) + Seq::new(empty, |i: int| '\n'),
    decreases empty,
{
    let es = Seq::new(empty, |i: int| Seq::<char>::empty());
    let all = rows + es;
    let p = text::join_with(rows, seq!['\n']);
    if empty == 0 {
        assert(all =~= rows);
        assert(p + Seq::new(empty, |i: int| '\n') =~= p);
    } else {
        let fewer = (empty - 1) as nat;
        lemma_joined_empties(rows, fewer);
        assert(all.drop_last() =~= rows + Seq::new(fewer, |i: int| Seq::<char>::empty()));
        assert(all.last() == Seq::<char>::empty());
        assert(text::join_with(all, seq!['\n']) =~= p + Seq::new(fewer, |i: int| '\n') + seq!['\n']);
        assert(p + Seq::new(fewer, |i: int| '\n') + seq!['\n'] =~= p + Seq::new(empty, |i: int| '\n'));
    }
}

/// What `literal::indented` writes.
proof fn lemma_indented(rows: Seq<Seq<char>>, child: Seq<char>)
    ensures
        literal::indented(rows, child) == Seq::new(
            rows.len(),
            |i: int| if rows[i].len() == 0 {
                rows[i]
            } else {
                child + rows[i]
            },
        ),
{
    let written = Seq::new(
        rows.len(),
        |i: int| if rows[i].len() == 0 {
            rows[i]
        } else {
            child + rows[i]
        },
    );
    assert forall|i: int| 0 <= i < rows.len() implies #[trigger] literal::indented(rows, child)[i] == written[i] by {
        if rows[i].len() == 0 {
            assert(rows[i] =~= seq![]);
        }
    }
    assert(literal::indented(rows, child) =~= written);
}

/// What becomes of a text of several lines, and of the same with a line feed behind.
proof fn lemma_joined_text(rows: Seq<Seq<char>>)
    requires
        rows.len() > 1,
        forall|i: int| 0 <= i < rows.len() ==> !(#[trigger] rows[i]).contains('\n'),
        forall|i: int| 0 <= i < rows.len() ==> literal::literal_text(#[trigger] rows[i]),
        rows[0].len() > 0,
        rows.last().len() > 0,
    ensures
        ({
            let p = text::join_with(rows, seq!['\n']);
            let q = p.push('\n');
            &&& p.len() > 0 && p[0] == rows[0][0]
            &&& p.contains('\n')
            &&& text::split_on(p, '\n') == rows
            &&& literal::strip_newline(p) == p && literal::strip_newline(q) == p
            &&& !literal::ends_in_empty_line(p) && !literal::ends_in_empty_line(q)
            &&& literal::literal_text(p) && literal::literal_text(q)
        }),
{
    let p = text::join_with(rows, seq!['\n']);
    let q = p.push('\n');
    lemma_joined_ends(rows);
    assert forall|i: int| 0 <= i < rows.len() implies text::one_line(#[trigger] rows[i]) by {
        lemma_one_line(rows[i]);
    }
    text::lemma_split_join(rows);
    lemma_joined_literal(rows);
    assert(q.drop_last() =~= p);
    assert(text::one_line(rows[rows.len() - 1]));
    assert(p.last() == rows.last().last());
    assert(q[q.len() - 2] == p.last());
    assert forall|i: int| 0 <= i < q.len() implies literal::literal_char(#[trigger] q[i]) by {
        if i < p.len() {
            assert(literal::literal_char(p[i]));
        }
    }
}

/// What a joined text begins and ends with, and that it has several lines.
proof fn lemma_joined_ends(rows: Seq<Seq<char>>)
    requires
        rows.len() > 0,
        rows[0].len() > 0,
        rows.last().len() > 0,
    ensures
        ({
            let p = text::join_with(rows, seq!['\n']);
            &&& p.len() > 0 && p[0] == rows[0][0] && p.last() == rows.last().last()
            &&& rows.len() > 1 ==> p.contains('\n')
        }),
{
    lemma_joined_start(rows);
    let p = text::join_with(rows, seq!['\n']);
    reveal_with_fuel(text::join_with, 2);
    if rows.len() > 1 {
        let f = text::join_with(rows.drop_last(), seq!['\n']);
        assert(p == f + seq!['\n'] + rows.last());
        assert(p[f.len() as int] == '\n');
    } else {
        assert(p =~= rows.last());
    }
}

proof fn lemma_joined_start(rows: Seq<Seq<char>>)
    requires
        rows.len() > 0,
        rows[0].len() > 0,
    ensures
        ({
            let p = text::join_with(rows, seq!['\n']);
            p.len() > 0 && p[0] == rows[0][0]
        }),
    decreases rows.len(),
{
    reveal_with_fuel(text::join_with, 2);
    if rows.len() > 1 {
        lemma_joined_start(rows.drop_last());
    }
}

/// Joining texts adds line feeds alone.
proof fn lemma_joined_literal(rows: Seq<Seq<char>>)
    requires
        forall|i: int| 0 <= i < rows.len() ==> literal::literal_text(#[trigger] rows[i]),
    ensures
        literal::literal_text(text::join_with(rows, seq!['\n'])),
    decreases rows.len(),
{
    let p = text::join_with(rows, seq!['\n']);
    reveal_with_fuel(text::join_with, 2);
    if rows.len() > 0 {
        let front = rows.drop_last();
        assert forall|i: int| 0 <= i < front.len() implies literal::literal_text(#[trigger] front[i]) by {
            assert(literal::literal_text(rows[i]));
        }
        lemma_joined_literal(front);
        let last = rows[rows.len() - 1];
        assert(literal::literal_text(last));
        if rows.len() > 1 {
            let f = text::join_with(front, seq!['\n']);
            assert(p == f + seq!['\n'] + last);
            assert forall|i: int| 0 <= i < p.len() implies literal::literal_char(#[trigger] p[i]) by {
                if i < f.len() {
                    assert(literal::literal_char(f[i]));
                } else if i > f.len() {
                    assert(literal::literal_char(last[i - f.len() - 1]));
                }
            }
        }
    }
}

/// A plaintext with a line feed before its end reads back whole from its
/// replacement, as `reading::law_multiline_plaintext_kept` says.
pub proof fn law_several_lines_shown(
    indent: Seq<char>,
    prefix: Seq<char>,
    plaintext: Seq<char>,
    at: int,
    parent: int,
    below: Seq<Seq<char>>,
)
    requires
        forall|i: int| 0 <= i < indent.len() ==> indent[i] == ' ',
        text::one_line(prefix),
        0 <= at < plaintext.len() - 1 && plaintext[at] == '\n',
        literal::key_on_line(prefix) ==> parent == indent.len() + literal::key_column(prefix),
        !literal::key_on_line(prefix) ==> parent < literal::child_indent(indent, prefix).len(),
        reading::scalar_ends(below, literal::child_indent(indent, prefix).len() as int),
    ensures
        ({
            let rows = text::split_on(actions::decrypted_text(indent, prefix, plaintext), '\n');
            let head = indent + prefix;
            let scalar = rows[0].skip(head.len() as int);
            &&& rows.len() > 0
            &&& rows[0] == head + scalar
            &&& reading::literal_value(scalar, rows.skip(1) + below, parent) == Some(plaintext) || (rows.len() == 1
                && reading::double_quoted_value(scalar) == Some(plaintext))
        }),
{
    let rows = text::split_on(actions::decrypted_text(indent, prefix, plaintext), '\n');
    let head = indent + prefix;
    assert(literal::strip_newline(plaintext)[at] == '\n');
    reading::law_multiline_plaintext_kept(indent, prefix, plaintext, parent, below);
    assert(rows[0] =~= head + rows[0].skip(head.len() as int)) by {
        assert(rows[0].take(head.len() as int) == head);
    }
}

} // verus!
