//! What YAML reads from the scalars that the library writes.

use vstd::prelude::*;
use crate::actions;
use crate::actions::SPECIAL_START;
use crate::hexadecimal;
use crate::literal;
use crate::literal::END_OF_VALUE;
use crate::round_trip;
use crate::text;
use crate::vault;
use crate::vault::{PayloadBytes, HEADER, WRAP_WIDTH};

verus! {

broadcast use vstd::string::group_string_axioms;

// ---------------------------------------------------------------------------
// Literal block scalars
// ---------------------------------------------------------------------------

/// What becomes of the line feeds at the end of a block scalar.
pub enum Chomping {
    /// None is kept.
    Strip,
    /// One is kept.
    Clip,
    /// All are kept.
    Keep,
}

/// A row is empty or has spaces alone.
pub open spec fn all_spaces(row: Seq<char>) -> bool {
    literal::leading_spaces(row) == row.len()
}

/// The indentation of the first row that has more than spaces.
pub open spec fn detected_indent(rows: Seq<Seq<char>>) -> nat
    decreases rows.len(),
{
    if rows.len() == 0 {
        0
    } else if all_spaces(rows[0]) {
        detected_indent(rows.skip(1))
    } else {
        literal::leading_spaces(rows[0])
    }
}

/// The rows before the first that has more than spaces have no more than `n`.
pub open spec fn short_before(rows: Seq<Seq<char>>, n: int) -> bool
    decreases rows.len(),
{
    rows.len() == 0 || !all_spaces(rows[0]) || (rows[0].len() <= n && short_before(rows.skip(1), n))
}

/// The content of a block scalar with `n` columns of indentation: its rows without
/// them. A row that has more than spaces and is indented less is no part of it.
pub open spec fn literal_rows(rows: Seq<Seq<char>>, n: int) -> Seq<Seq<char>>
    decreases rows.len(),
{
    if rows.len() == 0 || (!all_spaces(rows[0]) && literal::leading_spaces(rows[0]) < n) {
        seq![]
    } else {
        let row = if rows[0].len() <= n {
            Seq::<char>::empty()
        } else {
            rows[0].skip(n)
        };
        seq![row] + literal_rows(rows.skip(1), n)
    }
}

/// The rows without the empty ones at the end.
pub open spec fn without_empty_tail(rows: Seq<Seq<char>>) -> Seq<Seq<char>>
    decreases rows.len(),
{
    if rows.len() > 0 && rows.last().len() == 0 {
        without_empty_tail(rows.drop_last())
    } else {
        rows
    }
}

/// The rows as one text, the last with a line feed too.
pub open spec fn ended(rows: Seq<Seq<char>>) -> Seq<char> {
    if rows.len() == 0 {
        seq![]
    } else {
        text::join_with(rows, seq!['\n']).push('\n')
    }
}

/// The text of a block scalar's content.
pub open spec fn chomped(rows: Seq<Seq<char>>, chomping: Chomping) -> Seq<char> {
    match chomping {
        Chomping::Strip => text::join_with(without_empty_tail(rows), seq!['\n']),
        Chomping::Clip => ended(without_empty_tail(rows)),
        Chomping::Keep => ended(rows),
    }
}

/// The indentation that a header such as `|2-` writes out.
pub open spec fn header_indent(header: Seq<char>) -> Option<int> {
    if header.len() > 1 && '1' <= header[1] <= '9' {
        Some(header[1] as int - '0' as int)
    } else {
        None
    }
}

/// What a header such as `|2-` makes of the line feeds at the end.
pub open spec fn header_chomping(header: Seq<char>) -> Chomping {
    if header.last() == '-' {
        Chomping::Strip
    } else if header.last() == '+' {
        Chomping::Keep
    } else {
        Chomping::Clip
    }
}

/// The value of a YAML literal block scalar, from its header and the rows under
/// it. `parent` is the column of the key or the dash that it belongs to: its
/// content is indented deeper, by as much as the header says, or else as the
/// first row that has more than spaces shows. None where it is not well formed.
pub open spec fn literal_value(header: Seq<char>, rows: Seq<Seq<char>>, parent: int) -> Option<Seq<char>> {
    let n = match header_indent(header) {
        Some(d) => parent + d,
        None => detected_indent(rows) as int,
    };
    if header.len() == 0 || header[0] != '|' || n <= parent {
        None
    } else if header_indent(header) is None && !short_before(rows, n) {
        None
    } else {
        Some(chomped(literal_rows(rows, n), header_chomping(header)))
    }
}

/// The rows after a block scalar with `n` columns of indentation are no part of
/// its text: they are empty, or have spaces alone that its indentation covers, up
/// to a row that is indented less.
pub open spec fn scalar_ends(rows: Seq<Seq<char>>, n: int) -> bool
    decreases rows.len(),
{
    if rows.len() == 0 {
        true
    } else if all_spaces(rows[0]) {
        rows[0].len() <= n && scalar_ends(rows.skip(1), n)
    } else {
        literal::leading_spaces(rows[0]) < n
    }
}

/// The number of spaces behind an indentation of spaces.
proof fn lemma_leading_spaces_add(child: Seq<char>, l: Seq<char>)
    requires
        forall|i: int| 0 <= i < child.len() ==> child[i] == ' ',
    ensures
        literal::leading_spaces(child + l) == child.len() + literal::leading_spaces(l),
{
    let n = literal::leading_spaces(l) as int;
    literal::lemma_leading_spaces(l);
    let s = child + l;
    assert forall|i: int| 0 <= i < child.len() + n implies #[trigger] s[i] == ' ' by {
        if i >= child.len() {
            assert(l[i - child.len()] == ' ');
        }
    }
    if n < l.len() {
        assert(s[child.len() + n] == l[n]);
    }
    literal::lemma_leading_spaces_is(s, child.len() + n);
}

/// The content of rows that were indented is the rows again, and then nothing but
/// empty rows.
proof fn lemma_indented_rows(pieces: Seq<Seq<char>>, child: Seq<char>, tail: Seq<Seq<char>>)
    requires
        forall|i: int| 0 <= i < child.len() ==> child[i] == ' ',
        child.len() > 0,
        scalar_ends(tail, child.len() as int),
    ensures
        ({
            let n = child.len() as int;
            let got = literal_rows(literal::indented(pieces, child) + tail, n);
            &&& pieces.len() <= got.len()
            &&& got.take(pieces.len() as int) == pieces
            &&& forall|i: int| pieces.len() <= i < got.len() ==> (#[trigger] got[i]).len() == 0
            &&& tail.len() > 0 && !all_spaces(tail[0]) ==> got == pieces
            &&& tail.len() == 0 ==> got == pieces
        }),
    decreases pieces.len() + tail.len(),
{
    let n = child.len() as int;
    let rows = literal::indented(pieces, child) + tail;
    let got = literal_rows(rows, n);
    if pieces.len() > 0 {
        let rest = pieces.skip(1);
        lemma_indented_rows(rest, child, tail);
        assert(rows.skip(1) =~= literal::indented(rest, child) + tail);
        lemma_leading_spaces_add(child, pieces[0]);
        literal::lemma_leading_spaces(rows[0]);
        if pieces[0].len() > 0 {
            assert(rows[0] == child + pieces[0]);
            assert(rows[0].skip(n) =~= pieces[0]);
        } else {
            assert(rows[0].len() == 0);
            assert(pieces[0] =~= seq![]);
        }
        let more = literal_rows(rows.skip(1), n);
        assert(got == seq![pieces[0]] + more);
        assert(got.take(pieces.len() as int) =~= seq![pieces[0]] + more.take(rest.len() as int));
        assert(pieces =~= seq![pieces[0]] + rest);
        assert forall|i: int| pieces.len() <= i < got.len() implies (#[trigger] got[i]).len() == 0 by {
            assert(got[i] == more[i - 1]);
        }
        if more == rest {
            assert(got =~= pieces);
        }
    } else {
        assert(rows =~= tail);
        assert(got.take(0) =~= pieces);
        if tail.len() > 0 && all_spaces(tail[0]) {
            let rest = tail.skip(1);
            lemma_indented_rows(pieces, child, rest);
            assert(literal::indented(pieces, child) + rest =~= rest);
            let more = literal_rows(rest, n);
            assert(got == seq![Seq::<char>::empty()] + more);
            assert forall|i: int| 0 <= i < got.len() implies (#[trigger] got[i]).len() == 0 by {
                if i > 0 {
                    assert(got[i] == more[i - 1]);
                }
            }
        } else {
            assert(got =~= pieces);
        }
    }
}

/// Empty rows at the end come off.
proof fn lemma_empty_tail(rows: Seq<Seq<char>>, k: int)
    requires
        0 < k <= rows.len(),
        rows[k - 1].len() > 0,
        forall|i: int| k <= i < rows.len() ==> (#[trigger] rows[i]).len() == 0,
    ensures
        without_empty_tail(rows) == rows.take(k),
    decreases rows.len(),
{
    if k < rows.len() {
        assert(rows[rows.len() - 1].len() == 0);
        lemma_empty_tail(rows.drop_last(), k);
        assert(rows.drop_last().take(k) =~= rows.take(k));
    } else {
        assert(rows.take(k) =~= rows);
    }
}

/// A text that tells its indentation: the first row that has more than spaces
/// begins without one.
proof fn lemma_clear_indent(s: Seq<char>, child: Seq<char>, tail: Seq<Seq<char>>)
    requires
        forall|i: int| 0 <= i < child.len() ==> child[i] == ' ',
        !literal::unclear_indent(s),
    ensures
        ({
            let rows = literal::indented(text::split_on(s, '\n'), child) + tail;
            detected_indent(rows) == child.len() && short_before(rows, child.len() as int)
        }),
    decreases s.len(),
{
    let pieces = text::split_on(s, '\n');
    let rows = literal::indented(pieces, child) + tail;
    text::lemma_find_char(s, '\n');
    let i = text::find_char(s, '\n');
    if s[0] == '\n' {
        let rest = s.skip(1);
        assert(i == 0);
        assert(s.take(0) =~= seq![]);
        assert(pieces[0].len() == 0);
        lemma_clear_indent(rest, child, tail);
        assert(pieces.skip(1) =~= text::split_on(rest, '\n'));
        assert(rows.skip(1) =~= literal::indented(text::split_on(rest, '\n'), child) + tail);
        literal::lemma_leading_spaces(rows[0]);
        assert(rows[0].len() == 0);
    } else {
        let p = pieces[0];
        assert(p.len() > 0 && p[0] == s[0]);
        assert(rows[0] == child + p);
        lemma_leading_spaces_add(child, p);
    }
}

/// Stripping one line feed does not make the indentation unclear, nor clear.
proof fn lemma_unclear_stripped(s: Seq<char>)
    requires
        s.len() > 0,
        s.last() == '\n',
    ensures
        literal::unclear_indent(s.drop_last()) == literal::unclear_indent(s),
    decreases s.len(),
{
    let t = s.drop_last();
    if t.len() == 0 {
        assert(s.skip(1) =~= seq![]);
        assert(literal::unclear_indent(s.skip(1)));
    } else if s[0] == '\n' {
        assert(t[0] == s[0]);
        lemma_unclear_stripped(s.skip(1));
        assert(s.skip(1).drop_last() =~= t.skip(1));
    } else {
        assert(t[0] == s[0]);
    }
}

/// The header that is written, read.
proof fn lemma_header(s: Seq<char>)
    ensures
        ({
            let h = "|"@ + literal::indicator(s) + literal::chomping(s);
            &&& h.len() > 0 && h[0] == '|'
            &&& header_indent(h) == (if literal::unclear_indent(s) {
                Some(2int)
            } else {
                None
            })
            &&& header_chomping(h) == (if literal::ends_in_empty_line(s) {
                Chomping::Keep
            } else if literal::strip_newline(s) == s {
                Chomping::Strip
            } else {
                Chomping::Clip
            })
        }),
{
    reveal_strlit("|");
    reveal_strlit("");
    reveal_strlit("2");
    reveal_strlit("+");
    reveal_strlit("-");
}

/// A plaintext of several lines comes out of its replacement unchanged: the first
/// row of the replacement begins with the indentation and the prefix, and what
/// stands behind them reads in YAML as the plaintext, with the rows under it where
/// it is a literal block scalar. That holds whatever follows in the document, as
/// long as the first row there that is not blank is indented less. The block must
/// be indented with spaces. `parent` is the column of the value's key or dash; it
/// is only known where that stands on the same line.
pub proof fn law_multiline_plaintext_kept(
    indent: Seq<char>,
    prefix: Seq<char>,
    plaintext: Seq<char>,
    parent: int,
    below: Seq<Seq<char>>,
)
    requires
        forall|i: int| 0 <= i < indent.len() ==> indent[i] == ' ',
        text::one_line(prefix),
        literal::strip_newline(plaintext).contains('\n'),
        literal::key_on_line(prefix) ==> parent == indent.len() + literal::key_column(prefix),
        !literal::key_on_line(prefix) ==> parent < literal::child_indent(indent, prefix).len(),
        scalar_ends(below, literal::child_indent(indent, prefix).len() as int),
    ensures
        ({
            let rows = text::split_on(actions::decrypted_text(indent, prefix, plaintext), '\n');
            let head = indent + prefix;
            let scalar = rows[0].skip(head.len() as int);
            &&& rows.len() > 0
            &&& text::starts_with(rows[0], head)
            &&& if literal::fits_literal(prefix, plaintext) {
                literal_value(scalar, rows.skip(1) + below, parent) == Some(plaintext)
            } else {
                rows.len() == 1 && double_quoted_value(scalar) == Some(plaintext)
            }
        }),
{
    let head = indent + prefix;
    let r = actions::decrypted_text(indent, prefix, plaintext);
    assert(r == literal::multiline_text(indent, prefix, plaintext));
    if literal::fits_literal(prefix, plaintext) {
        lemma_literal_kept(indent, prefix, plaintext, parent, below);
    } else {
        let q = literal::double_quoted(plaintext);
        lemma_escaped_one_line(plaintext);
        assert(text::one_line(r));
        text::lemma_split_none(r, '\n');
        assert(r.skip(head.len() as int) =~= q);
        assert(r.take(head.len() as int) =~= head);
        law_double_quoted_reads_back(plaintext);
    }
}

proof fn lemma_literal_kept(
    indent: Seq<char>,
    prefix: Seq<char>,
    plaintext: Seq<char>,
    parent: int,
    below: Seq<Seq<char>>,
)
    requires
        forall|i: int| 0 <= i < indent.len() ==> indent[i] == ' ',
        text::one_line(prefix),
        literal::strip_newline(plaintext).contains('\n'),
        literal::key_on_line(prefix) ==> parent == indent.len() + literal::key_column(prefix),
        !literal::key_on_line(prefix) ==> parent < literal::child_indent(indent, prefix).len(),
        scalar_ends(below, literal::child_indent(indent, prefix).len() as int),
        literal::fits_literal(prefix, plaintext),
    ensures
        ({
            let rows = text::split_on(literal::multiline_text(indent, prefix, plaintext), '\n');
            let head = indent + prefix;
            let scalar = rows[0].skip(head.len() as int);
            &&& rows.len() > 0
            &&& text::starts_with(rows[0], head)
            &&& literal_value(scalar, rows.skip(1) + below, parent) == Some(plaintext)
        }),
{
    let head = indent + prefix;
    let pt = literal::strip_newline(plaintext);
    let child = literal::child_indent(indent, prefix);
    let n = child.len() as int;
    let pieces = text::split_on(pt, '\n');
    let rows = literal::literal_lines(indent, prefix, plaintext);
    let keep = literal::ends_in_empty_line(plaintext);
    let end = if keep {
        seq![indent + END_OF_VALUE@]
    } else {
        Seq::<Seq<char>>::empty()
    };
    reveal_strlit("# end of value");
    lemma_header(plaintext);
    let h = "|"@ + literal::indicator(plaintext) + literal::chomping(plaintext);
    assert(rows[0] =~= head + h);
    text::lemma_split_pieces(pt);
    text::lemma_split_nonempty(pt, '\n');
    reveal_strlit("|");
    reveal_strlit("");
    reveal_strlit("2");
    reveal_strlit("+");
    reveal_strlit("-");
    assert forall|i: int| 0 <= i < rows.len() implies text::one_line(#[trigger] rows[i]) by {
        if 0 < i <= pieces.len() {
            assert(text::one_line(pieces[i - 1]));
        }
    }
    text::lemma_split_join(rows);
    assert(rows[0].skip(head.len() as int) =~= h);
    assert(rows[0].take(head.len() as int) =~= head);
    // What stands under the header.
    let tail = end + below;
    let under = literal::indented(pieces, child) + tail;
    assert(rows.skip(1) + below =~= under);
    assert(scalar_ends(tail, n)) by {
        if keep {
            let c = indent + END_OF_VALUE@;
            assert(tail[0] == c);
            lemma_leading_spaces_add(indent, END_OF_VALUE@);
            literal::lemma_leading_spaces_is(END_OF_VALUE@, 0);
        } else {
            assert(tail =~= below);
        }
    }
    lemma_indented_rows(pieces, child, tail);
    let got = literal_rows(under, n);
    // Its indentation.
    if literal::unclear_indent(plaintext) {
        assert(parent + 2 == n);
    } else {
        if pt != plaintext {
            lemma_unclear_stripped(plaintext);
        }
        lemma_clear_indent(pt, child, tail);
        assert(n > parent);
    }
    // Its text.
    text::lemma_join_split(pt, '\n');
    if keep {
        assert(!all_spaces(tail[0])) by {
            lemma_leading_spaces_add(indent, END_OF_VALUE@);
            literal::lemma_leading_spaces_is(END_OF_VALUE@, 0);
        }
        assert(got == pieces);
        assert(plaintext =~= pt.push('\n'));
    } else {
        assert(pt.last() != '\n') by {
            if pt.last() == '\n' && pt != plaintext {
                assert(plaintext[plaintext.len() - 2] == pt.last());
            }
        }
        literal::lemma_last_piece(pt);
        let k = pieces.len() as int;
        assert(got.take(k)[k - 1] == got[k - 1]);
        lemma_empty_tail(got, k);
        if pt != plaintext {
            assert(plaintext =~= pt.push('\n'));
        }
    }
}

/// A value that was encrypted is a block of its key in YAML: the first row of the
/// replacement ends in the tag and the header of a literal block scalar, and the
/// rows under it read as the vault text and a line feed, whatever follows in the
/// document, as long as the first row there that is not blank is indented less.
/// The value must be indented with spaces, and the vault id must not break the
/// header's line. `parent` is the column of the value's key or dash.
pub proof fn law_encrypted_value_is_block(
    indent: Seq<char>,
    prefix: Seq<char>,
    vault_id: Option<Seq<char>>,
    payload: PayloadBytes,
    below: Seq<Seq<char>>,
)
    requires
        forall|i: int| 0 <= i < indent.len() ==> indent[i] == ' ',
        text::one_line(prefix),
        text::one_line(vault::header_line(vault_id)),
        vault::header_line(vault_id).last() != '\r',
        scalar_ends(below, literal::child_indent(indent, prefix).len() as int),
    ensures
        ({
            let vaulttext = vault::envelope_text(vault_id, payload.salt, payload.mac, payload.data);
            let rows = text::split_on(actions::encrypted_text(indent, prefix, vaulttext), '\n');
            let parent = indent.len() + literal::key_column(prefix);
            &&& rows.len() > 1
            &&& rows[0] == indent + prefix + "!vault |"@
            &&& literal_value("|"@, rows.skip(1) + below, parent as int) == Some(vaulttext.push('\n'))
        }),
{
    let vaulttext = vault::envelope_text(vault_id, payload.salt, payload.mac, payload.data);
    let h = vault::header_line(vault_id);
    let cs = vault::chunks(
        vault::body_digits(payload.salt, payload.mac, payload.data),
        WRAP_WIDTH as nat,
    );
    let child = literal::child_indent(indent, prefix);
    let n = child.len() as int;
    let pieces = seq![h] + cs;
    round_trip::lemma_envelope_lines(vault_id, payload.salt, payload.mac, payload.data);
    assert(text::lines_of(vaulttext) == pieces);
    reveal_strlit("!vault |");
    reveal_strlit("|");
    reveal_strlit("$ANSIBLE_VAULT");
    let head = indent + prefix + "!vault |"@;
    let rows = seq![head] + literal::indented(pieces, child);
    assert(h.len() > 0 && h[0] == HEADER@[0]);
    let written = seq![head] + Seq::new(pieces.len(), |i: int| child + pieces[i]);
    assert(written =~= rows) by {
        assert forall|i: int| 0 <= i < pieces.len() implies (#[trigger] pieces[i]).len() > 0 by {
            if i > 0 {
                assert(cs[i - 1].len() > 0);
            }
        }
    }
    assert forall|i: int| 0 <= i < rows.len() implies text::one_line(#[trigger] rows[i]) by {
        if i > 1 {
            assert(text::is_line(cs[i - 2]));
        }
    }
    text::lemma_split_join(rows);
    let under = literal::indented(pieces, child) + below;
    assert(rows.skip(1) + below =~= under);
    lemma_indented_rows(pieces, child, below);
    let got = literal_rows(under, n);
    assert(under[0] == child + h);
    lemma_leading_spaces_add(child, h);
    literal::lemma_leading_spaces_is(h, 0);
    let k = pieces.len() as int;
    assert(got.take(k)[k - 1] == got[k - 1]);
    assert(pieces[k - 1] == cs[k - 2]);
    assert(cs[k - 2].len() > 0);
    lemma_empty_tail(got, k);
}

// ---------------------------------------------------------------------------
// Double-quoted scalars
// ---------------------------------------------------------------------------

/// The value of a lower-case hexadecimal digit.
pub open spec fn digit_of(c: char) -> int {
    if '0' <= c <= '9' {
        c as int - '0' as int
    } else {
        c as int - 'a' as int + 10
    }
}

/// The text that stands inside double quotes on one line, its escapes read. None
/// where it holds a character that YAML does not keep, or an escape that is not
/// one of those that the library writes.
pub open spec fn unescaped(s: Seq<char>) -> Option<Seq<char>>
    decreases s.len(),
{
    if s.len() == 0 {
        Some(seq![])
    } else if s[0] == '"' {
        None
    } else if s[0] == '\n' || !literal::literal_char(s[0]) {
        None
    } else if s[0] != '\\' {
        after_char(s[0], unescaped(s.skip(1)))
    } else if s.len() < 2 {
        None
    } else if s[1] == '"' || s[1] == '\\' {
        after_char(s[1], unescaped(s.skip(2)))
    } else if s[1] == 'n' {
        after_char('\n', unescaped(s.skip(2)))
    } else if s[1] == 'r' {
        after_char('\r', unescaped(s.skip(2)))
    } else if s[1] == 'u' && s.len() >= 6 {
        let u = 0x1000 * digit_of(s[2]) + 0x100 * digit_of(s[3]) + 0x10 * digit_of(s[4]) + digit_of(s[5]);
        after_char(u as char, unescaped(s.skip(6)))
    } else {
        None
    }
}

/// A character and the text after it.
pub open spec fn after_char(c: char, rest: Option<Seq<char>>) -> Option<Seq<char>> {
    match rest {
        Some(t) => Some(seq![c] + t),
        None => None,
    }
}

/// The value of a YAML double-quoted scalar.
pub open spec fn double_quoted_value(s: Seq<char>) -> Option<Seq<char>> {
    if s.len() >= 2 && s[0] == '"' && s.last() == '"' {
        unescaped(s.subrange(1, s.len() - 1))
    } else {
        None
    }
}

/// One character comes back from inside double quotes.
proof fn lemma_unescaped_char(c: char, rest: Seq<char>)
    ensures
        unescaped(literal::escaped_char(c) + rest) == after_char(c, unescaped(rest)),
{
    let e = literal::escaped_char(c);
    let s = e + rest;
    if c == '"' || c == '\\' || c == '\n' || c == '\r' {
        assert(s.skip(2) =~= rest);
    } else if literal::literal_char(c) {
        assert(s.skip(1) =~= rest);
    } else {
        let u = c as int;
        assert(0 <= u < 0x10000);
        lemma_digits(u);
        assert(s.skip(6) =~= rest);
        assert(s[2] == literal::digit_at(u, 0x1000));
        assert(s[3] == literal::digit_at(u, 0x100));
        assert(s[4] == literal::digit_at(u, 0x10));
        assert(s[5] == literal::digit_at(u, 1));
    }
}

/// Four digits hold a number below 65536.
proof fn lemma_digits(u: int)
    requires
        0 <= u < 0x10000,
    ensures
        0x1000 * digit_of(literal::digit_at(u, 0x1000)) + 0x100 * digit_of(literal::digit_at(u, 0x100)) + 0x10 * digit_of(
            literal::digit_at(u, 0x10),
        ) + digit_of(literal::digit_at(u, 1)) == u,
{
    lemma_digit((u / 0x1000) % 16);
    lemma_digit((u / 0x100) % 16);
    lemma_digit((u / 0x10) % 16);
    lemma_digit((u / 1) % 16);
    assert(u / 1 == u);
    assert((u / 0x10) / 0x10 == u / 0x100);
    assert((u / 0x100) / 0x10 == u / 0x1000);
    assert((u / 0x1000) / 0x10 == 0);
}

/// A digit has the value that it was made of.
proof fn lemma_digit(n: int)
    requires
        0 <= n < 16,
    ensures
        digit_of(hexadecimal::hex_digit(n)) == n,
{
}

proof fn lemma_unescaped(s: Seq<char>, rest: Seq<char>)
    ensures
        unescaped(literal::escaped(s) + rest) == (match unescaped(rest) {
            Some(t) => Some(s + t),
            None => None,
        }),
    decreases s.len(),
{
    if s.len() == 0 {
        assert(literal::escaped(s) + rest =~= rest);
        if unescaped(rest) is Some {
            assert(s + unescaped(rest)->0 =~= unescaped(rest)->0);
        }
    } else {
        let front = s.drop_last();
        let c = s.last();
        let more = literal::escaped_char(c) + rest;
        assert(literal::escaped(s) + rest =~= literal::escaped(front) + more);
        lemma_unescaped(front, more);
        lemma_unescaped_char(c, rest);
        if unescaped(rest) is Some {
            let t = unescaped(rest)->0;
            assert(front + (seq![c] + t) =~= s + t);
        }
    }
}

/// A double-quoted scalar reads back as the text that it was made of.
pub proof fn law_double_quoted_reads_back(s: Seq<char>)
    ensures
        double_quoted_value(literal::double_quoted(s)) == Some(s),
{
    let q = literal::double_quoted(s);
    assert(q.subrange(1, q.len() - 1) =~= literal::escaped(s) + Seq::<char>::empty());
    lemma_unescaped(s, seq![]);
    assert(s + Seq::<char>::empty() =~= s);
}

/// A double-quoted scalar stands on one line.
proof fn lemma_escaped_one_line(s: Seq<char>)
    ensures
        text::one_line(literal::escaped(s)),
    decreases s.len(),
{
    if s.len() > 0 {
        lemma_escaped_one_line(s.drop_last());
        let e = literal::escaped_char(s.last());
        assert(text::one_line(e));
        let a = literal::escaped(s.drop_last());
        assert forall|i: int| 0 <= i < literal::escaped(s).len() implies literal::escaped(s)[i] != '\n' by {
            if i < a.len() {
                assert(a[i] != '\n');
            } else {
                assert(e[i - a.len()] != '\n');
            }
        }
    }
}

// ---------------------------------------------------------------------------
// Single-quoted scalars
// ---------------------------------------------------------------------------

/// The text that stands inside single quotes on one line: each pair of quotes is
/// one. None where a quote stands alone, or a character that YAML does not keep.
pub open spec fn halved(s: Seq<char>) -> Option<Seq<char>>
    decreases s.len(),
{
    if s.len() == 0 {
        Some(seq![])
    } else if s[0] == '\n' || !literal::literal_char(s[0]) {
        None
    } else if s[0] != '\'' {
        after_char(s[0], halved(s.skip(1)))
    } else if s.len() >= 2 && s[1] == '\'' {
        after_char('\'', halved(s.skip(2)))
    } else {
        None
    }
}

/// The value of a YAML single-quoted scalar on one line.
pub open spec fn single_quoted_value(s: Seq<char>) -> Option<Seq<char>> {
    if s.len() >= 2 && s[0] == '\'' && s.last() == '\'' {
        halved(s.subrange(1, s.len() - 1))
    } else {
        None
    }
}

proof fn lemma_halved_doubled(s: Seq<char>, rest: Seq<char>)
    requires
        literal::literal_text(s),
        text::one_line(s),
    ensures
        halved(actions::doubled(s) + rest) == (match halved(rest) {
            Some(t) => Some(s + t),
            None => None,
        }),
    decreases s.len(),
{
    if s.len() == 0 {
        assert(actions::doubled(s) + rest =~= rest);
        if halved(rest) is Some {
            assert(s + halved(rest)->0 =~= halved(rest)->0);
        }
    } else {
        let front = s.drop_last();
        let c = s.last();
        let tail = if c == '\'' {
            seq!['\'', '\''] + rest
        } else {
            seq![c] + rest
        };
        assert(literal::literal_char(s[s.len() - 1]));
        assert(literal::literal_text(front)) by {
            assert forall|i: int| 0 <= i < front.len() implies literal::literal_char(#[trigger] front[i]) by {
                assert(literal::literal_char(s[i]));
            }
        }
        assert(actions::doubled(s) + rest =~= actions::doubled(front) + tail);
        lemma_halved_doubled(front, tail);
        if c == '\'' {
            assert(tail.skip(2) =~= rest);
        } else {
            assert(tail.skip(1) =~= rest);
        }
        assert(halved(tail) == after_char(c, halved(rest)));
        if halved(rest) is Some {
            let t = halved(rest)->0;
            assert(front + (seq![c] + t) =~= s + t);
        }
    }
}

/// A single-quoted scalar reads back as the text that it was made of, whatever
/// quotes that holds, where it is one line of characters that YAML keeps.
pub proof fn law_single_quoted_reads_back(v: Seq<char>)
    requires
        literal::literal_text(v),
        text::one_line(v),
    ensures
        single_quoted_value(actions::single_quoted(v)) == Some(v),
{
    let q = actions::single_quoted(v);
    assert(q.subrange(1, q.len() - 1) =~= actions::doubled(v) + Seq::<char>::empty());
    lemma_halved_doubled(v, seq![]);
    assert(v + Seq::<char>::empty() =~= v);
}

// ---------------------------------------------------------------------------
// Scalars on one line
// ---------------------------------------------------------------------------

/// A text is a YAML plain scalar on one line: it begins with no indicator, has no
/// white space around it, and holds neither a colon that ends a key, nor a number
/// sign that begins a comment, nor a character that YAML does not keep.
pub open spec fn plain_scalar(s: Seq<char>) -> bool {
    &&& s.len() > 0
    &&& !SPECIAL_START@.contains(s[0])
    &&& !text::is_ws(s[0]) && !text::is_ws(s.last())
    &&& literal::literal_text(s) && text::one_line(s)
    &&& s.last() != ':'
    &&& forall|i: int|
        0 <= i < s.len() - 1 ==> !(#[trigger] s[i] == ':' && (s[i + 1] == ' ' || s[i + 1] == '\t'))
    &&& forall|i: int| 0 < i < s.len() ==> !(#[trigger] s[i] == '#' && (s[i - 1] == ' ' || s[i - 1] == '\t'))
}

/// The text of a YAML scalar on one line, in the style that it begins in. Which
/// type a plain one is resolved to is not looked at.
pub open spec fn scalar_value(s: Seq<char>) -> Option<Seq<char>> {
    if s.len() > 0 && s[0] == '"' {
        double_quoted_value(s)
    } else if s.len() > 0 && s[0] == '\'' {
        single_quoted_value(s)
    } else if plain_scalar(s) {
        Some(s)
    } else {
        None
    }
}

/// A text without a pair of characters has them nowhere one after the other.
proof fn lemma_no_pair(s: Seq<char>, pair: Seq<char>, i: int)
    requires
        pair.len() == 2,
        !text::contains_text(s, pair),
        0 <= i < s.len() - 1,
    ensures
        !(s[i] == pair[0] && s[i + 1] == pair[1]),
{
    if s[i] == pair[0] && s[i + 1] == pair[1] {
        assert(s.subrange(i, i + 2) =~= pair);
        assert(text::occurs_at(s, pair, i));
    }
}

/// A plaintext of one line comes out of its replacement unchanged, but for one
/// final line feed: the replacement is one line, the indentation and the prefix,
/// and a scalar behind them that reads in YAML as the plaintext.
pub proof fn law_one_line_plaintext_kept(indent: Seq<char>, prefix: Seq<char>, plaintext: Seq<char>)
    requires
        !literal::strip_newline(plaintext).contains('\n'),
    ensures
        ({
            let v = literal::strip_newline(plaintext);
            let r = actions::decrypted_text(indent, prefix, plaintext);
            let scalar = r.skip((indent + prefix).len() as int);
            &&& r == indent + prefix + scalar
            &&& text::one_line(scalar)
            &&& scalar_value(scalar) == Some(v)
        }),
{
    let v = literal::strip_newline(plaintext);
    let r = actions::decrypted_text(indent, prefix, plaintext);
    let scalar = actions::scalar_text(v);
    assert(r.skip((indent + prefix).len() as int) =~= scalar);
    assert(text::one_line(v));
    if !literal::literal_text(v) {
        law_double_quoted_reads_back(v);
        lemma_escaped_one_line(v);
    } else if actions::must_quote(v) {
        law_single_quoted_reads_back(v);
        lemma_doubled_one_line(v);
    } else {
        lemma_plain_scalar(v);
    }
}

/// A value that need not be quoted is a plain scalar.
proof fn lemma_plain_scalar(v: Seq<char>)
    requires
        !actions::must_quote(v),
        text::one_line(v),
    ensures
        plain_scalar(v),
        scalar_value(v) == Some(v),
{
    reveal_strlit("!&*?|>%@`\"'#-:{}[],");
    reveal_strlit(": ");
    reveal_strlit(":\t");
    reveal_strlit(" #");
    reveal_strlit("\t#");
    text::lemma_indent_len(v);
    text::lemma_trim_end(text::trim_start_of(v));
    let k = text::indent_len(v) as int;
    assert(text::trim_start_of(v).len() == v.len() - k);
    assert(k == 0);
    assert forall|i: int| 0 <= i < v.len() - 1 implies !(#[trigger] v[i] == ':' && (v[i + 1] == ' ' || v[i + 1]
        == '\t')) by {
        lemma_no_pair(v, ": "@, i);
        lemma_no_pair(v, ":\t"@, i);
    }
    assert forall|i: int| 0 < i < v.len() implies !(#[trigger] v[i] == '#' && (v[i - 1] == ' ' || v[i - 1]
        == '\t')) by {
        lemma_no_pair(v, " #"@, i - 1);
        lemma_no_pair(v, "\t#"@, i - 1);
    }
    assert(v[0] != '"' && v[0] != '\'') by {
        assert(SPECIAL_START@[9] == '"');
        assert(SPECIAL_START@[10] == '\'');
    }
}

/// Doubling quotes adds no line feed.
proof fn lemma_doubled_one_line(s: Seq<char>)
    requires
        text::one_line(s),
    ensures
        text::one_line(actions::doubled(s)),
    decreases s.len(),
{
    if s.len() > 0 {
        lemma_doubled_one_line(s.drop_last());
    }
}

} // verus!
