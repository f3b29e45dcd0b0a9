//! What holds of the scanner, the renderers and the vault format together.

use vstd::prelude::*;
use vstd::string::*;
use vstd::utf8::*;
use crate::actions;
use crate::actions::BlockText;
use crate::literal;
use crate::pattern;
use crate::pattern::EntryMatch;
use crate::text;
use crate::vault;
use crate::vault::{PayloadBytes, HEADER, WRAP_WIDTH};

verus! {

broadcast use vstd::string::group_string_axioms;

// ---------------------------------------------------------------------------
// Blocks and cursors
// ---------------------------------------------------------------------------

/// A tag that is found from a line is found from every line between.
proof fn lemma_tag_line_between(lines: Seq<Seq<char>>, from: int, at: int)
    requires
        from >= 0,
        actions::tag_line(lines, from) is Some,
        actions::tag_line(lines, from)->0 <= at <= from,
    ensures
        actions::tag_line(lines, at) == actions::tag_line(lines, from),
    decreases from,
{
    if at < from {
        actions::lemma_tag_line(lines, from);
        lemma_tag_line_between(lines, from - 1, at);
    }
}

/// A block that is found from one of its lines is found, the same, from each of
/// its lines above that one, the tag line among them.
pub proof fn law_block_found_above(lines: Seq<Seq<char>>, cursor: int, at: int)
    requires
        cursor >= 0,
        actions::block_at(lines, cursor) is Some,
        actions::block_at(lines, cursor)->0.start_line <= at <= cursor,
    ensures
        actions::block_at(lines, at) == actions::block_at(lines, cursor),
{
    lemma_tag_line_between(lines, cursor, at);
}

/// A block that is found from its tag line is found, the same, from each of its
/// lines, unless its header reads as a tag itself.
pub proof fn law_block_found_below(lines: Seq<Seq<char>>, start: int, at: int)
    requires
        0 <= start <= at,
        actions::block_at(lines, start) is Some,
        actions::block_at(lines, start)->0.start_line == start,
        at <= actions::block_at(lines, start)->0.end_line,
        at == start || pattern::tag_of(lines[start + 1]) is None,
    ensures
        actions::block_at(lines, at) == actions::block_at(lines, start),
{
    actions::lemma_tag_line(lines, start);
    law_block_holds_cursor(lines, start);
    let (indent, prefix) = pattern::tag_of(lines[start])->0;
    let ti = encode_utf8(indent).len();
    assert forall|i: int| start < i <= at implies pattern::tag_of(#[trigger] lines[i]) is None && actions::in_payload(
        lines[i],
    ) by {
        if i > start + 1 {
            lemma_digits_len_each(lines, start + 2, ti, i);
            lemma_digits_no_tag(lines[i]);
        }
    }
    lemma_tag_line_is(lines, start, at);
}

/// Each line that `digits_len` counts holds digits.
proof fn lemma_digits_len_each(lines: Seq<Seq<char>>, from: int, tag_indent: nat, i: int)
    requires
        0 <= from <= i < from + actions::digits_len(lines, from, tag_indent),
    ensures
        i < lines.len(),
        actions::digits_under_tag(lines[i], tag_indent),
    decreases i - from,
{
    if from < i {
        lemma_digits_len_each(lines, from + 1, tag_indent, i);
    }
}

/// A line without an exclamation mark is no tag line.
proof fn lemma_no_mark_no_tag(line: Seq<char>)
    requires
        !text::trim_of(line).contains('!'),
    ensures
        pattern::tag_of(line) is None,
{
    if pattern::tag_of(line) is Some {
        reveal_strlit("!vault");
        let i = text::indent_len(line) as int;
        let j = choose|j: int| pattern::tag_match(line, i, j);
        let (a, b, c) = choose|a: int, b: int, c: int| pattern::tag_tail(line.skip(j), a, b, c);
        assert(line.skip(j).take(6)[0] == '!');
        assert(line[j] == '!');
        text::lemma_indent_len(line);
        let rest = line.skip(i);
        let t = text::trim_of(line);
        text::lemma_trim_end(rest);
        let n = t.len() as int;
        if j < i + n {
            assert(t[j - i] == rest[j - i]);
        } else {
            assert(text::is_ws(rest.skip(n)[j - i - n]));
        }
    }
}

/// A line of digits is no tag line.
proof fn lemma_digits_no_tag(line: Seq<char>)
    requires
        actions::all_digits(text::trim_of(line)),
    ensures
        pattern::tag_of(line) is None,
{
    let t = text::trim_of(line);
    if t.contains('!') {
        let i = choose|i: int| 0 <= i < t.len() && t[i] == '!';
        assert(actions::is_hex_char(t[i]));
    }
    lemma_no_mark_no_tag(line);
}

/// A block is found, the same, from its tag line and from every line of its
/// payload, and is made of those lines alone: the tag line at `start` with its
/// indentation and prefix, a header under it, digits down to `end`, all indented
/// deeper than the tag line, and then no such line of digits. What stands above,
/// and below the line that ends it, does not matter. The header must not read as a
/// tag, which takes an exclamation mark.
pub proof fn law_block_from_every_line(
    lines: Seq<Seq<char>>,
    start: int,
    end: int,
    indent: Seq<char>,
    prefix: Seq<char>,
    cursor: int,
)
    requires
        0 <= start < end < lines.len(),
        lines[start] == indent + prefix + "!vault |"@,
        text::blank(indent),
        text::one_line(prefix),
        prefix.len() > 0 ==> !text::is_ws(prefix[0]),
        actions::header_under_tag(lines[start + 1], encode_utf8(indent).len()),
        pattern::tag_of(lines[start + 1]) is None || !text::trim_of(lines[start + 1]).contains('!'),
        forall|i: int|
            start + 2 <= i <= end ==> actions::digits_under_tag(#[trigger] lines[i], encode_utf8(indent).len()),
        end + 1 < lines.len() ==> !actions::digits_under_tag(lines[end + 1], encode_utf8(indent).len()),
        start <= cursor <= end,
    ensures
        actions::block_at(lines, cursor) == Some(
            BlockText {
                start_line: start,
                end_line: end,
                indent,
                prefix,
                vaulttext: text::join_with(
                    Seq::new((end - start) as nat, |i: int| text::trim_of(lines[start + 1 + i])),
                    seq!['\n'],
                ),
            },
        ),
{
    lemma_tag_line_rendered(indent, prefix);
    lemma_block_found(lines, start, end, indent, prefix, cursor);
}

/// The block whose tag line has this indentation and prefix.
pub proof fn lemma_block_found(
    lines: Seq<Seq<char>>,
    start: int,
    end: int,
    indent: Seq<char>,
    prefix: Seq<char>,
    cursor: int,
)
    requires
        0 <= start < end < lines.len(),
        pattern::tag_of(lines[start]) == Some((indent, prefix)),
        actions::header_under_tag(lines[start + 1], encode_utf8(indent).len()),
        pattern::tag_of(lines[start + 1]) is None || !text::trim_of(lines[start + 1]).contains('!'),
        forall|i: int|
            start + 2 <= i <= end ==> actions::digits_under_tag(#[trigger] lines[i], encode_utf8(indent).len()),
        end + 1 < lines.len() ==> !actions::digits_under_tag(lines[end + 1], encode_utf8(indent).len()),
        start <= cursor <= end,
    ensures
        actions::block_at(lines, cursor) == Some(
            BlockText {
                start_line: start,
                end_line: end,
                indent,
                prefix,
                vaulttext: text::join_with(
                    Seq::new((end - start) as nat, |i: int| text::trim_of(lines[start + 1 + i])),
                    seq!['\n'],
                ),
            },
        ),
{
    let ti = encode_utf8(indent).len();
    if !text::trim_of(lines[start + 1]).contains('!') {
        lemma_no_mark_no_tag(lines[start + 1]);
    }
    assert forall|i: int| start < i <= cursor implies pattern::tag_of(#[trigger] lines[i]) is None && actions::in_payload(
        lines[i],
    ) by {
        if i > start + 1 {
            assert(actions::digits_under_tag(lines[i], ti));
            lemma_digits_no_tag(lines[i]);
        }
    }
    lemma_tag_line_is(lines, start, cursor);
    lemma_digits_len_is(lines, start + 2, (end - start - 1) as nat, ti);
    assert(actions::payload_lines(lines, start, ti) =~= Seq::new(
        (end - start) as nat,
        |i: int| text::trim_of(lines[start + 1 + i]),
    ));
}

/// The cursor lies in the block that is found for it, and the block in the
/// document.
pub proof fn law_block_holds_cursor(lines: Seq<Seq<char>>, cursor: int)
    requires
        cursor >= 0,
    ensures
        actions::block_at(lines, cursor) matches Some(b) ==> 0 <= b.start_line <= cursor <= b.end_line < lines.len(),
{
    if actions::block_at(lines, cursor) is Some {
        actions::lemma_tag_line(lines, cursor);
        let start = actions::tag_line(lines, cursor)->0;
        let indent = (pattern::tag_of(lines[start])->0).0;
        actions::lemma_digits_len(lines, start + 2, encode_utf8(indent).len());
    }
}

/// `n` lines of digits.
proof fn lemma_digits_len_is(lines: Seq<Seq<char>>, from: int, n: nat, tag_indent: nat)
    requires
        0 <= from,
        from + n <= lines.len(),
        forall|i: int| from <= i < from + n ==> actions::digits_under_tag(#[trigger] lines[i], tag_indent),
        from + n < lines.len() ==> !actions::digits_under_tag(lines[from + n], tag_indent),
    ensures
        actions::digits_len(lines, from, tag_indent) == n,
    decreases n,
{
    if n > 0 {
        assert(actions::digits_under_tag(lines[from], tag_indent));
        lemma_digits_len_is(lines, from + 1, (n - 1) as nat, tag_indent);
    }
}

// ---------------------------------------------------------------------------
// Encrypting a value
// ---------------------------------------------------------------------------

/// The line that `render_encrypted` writes first is a tag line with the value's
/// indentation and prefix.
proof fn lemma_tag_line_rendered(indent: Seq<char>, prefix: Seq<char>)
    requires
        text::blank(indent),
        text::one_line(prefix),
        prefix.len() > 0 ==> !text::is_ws(prefix[0]),
    ensures
        pattern::tag_of(indent + prefix + "!vault |"@) == Some((indent, prefix)),
        (indent + prefix + "!vault |"@).last() == '|',
{
    reveal_strlit("!vault |");
    reveal_strlit("!vault");
    let s = indent + prefix + "!vault |"@;
    let i = indent.len() as int;
    let j = i + prefix.len();
    assert forall|n: int| 0 <= n < i implies text::is_ws(#[trigger] s[n]) by {
        assert(text::is_ws(indent[n]));
    }
    assert(s[i] == if prefix.len() > 0 { prefix[0] } else { '!' });
    text::lemma_indent_len_is(s, i);
    let t = s.skip(j);
    assert(t =~= "!vault |"@);
    assert(t.take(6) =~= "!vault"@);
    assert(pattern::tag_tail(t, 7, 8, 8)) by {
        assert(t.subrange(6, 7)[0] == ' ');
        assert(t.skip(8).len() == 0);
    }
    assert(s.take(i) =~= indent);
    assert forall|n: int| i <= n < j implies #[trigger] s[n] != '\n' by {
        assert(prefix[n - i] == s[n]);
    }
    assert(pattern::tag_match(s, i, j));
    pattern::lemma_tag_match(s, i, j);
    assert(s.subrange(i, j) =~= prefix);
}

/// A line that is a tag line behind more indentation, or without its final
/// carriage return, is one as it stands.
proof fn lemma_tag_without_indent(w: Seq<char>, h: Seq<char>)
    requires
        text::blank(w),
        h.len() > 0,
        pattern::tag_of(text::strip_cr(w + h)) is Some,
    ensures
        pattern::tag_of(h) is Some,
{
    let s = text::strip_cr(w + h);
    let i = text::indent_len(s) as int;
    let j = choose|j: int| pattern::tag_match(s, i, j);
    let (a, b, c) = choose|a: int, b: int, c: int| pattern::tag_tail(s.skip(j), a, b, c);
    let n = w.len() as int;
    reveal_strlit("!vault");
    assert(s.skip(j).take(6)[0] == '!');
    assert(s[j] == '!');
    if j < n {
        assert(text::is_ws(w[j]));
    }
    let t = s.skip(j);
    let u = h.skip(j - n);
    assert(u.take(t.len() as int) =~= t);
    assert(pattern::tag_tail(u, a, b, c)) by {
        assert(u.take(6) =~= t.take(6));
        assert(u.subrange(6, a) =~= t.subrange(6, a));
        assert forall|k: int| b <= k < c implies pattern::is_decimal(#[trigger] u[k]) by {
            assert(pattern::is_decimal(t[k]));
        }
        assert forall|k: int| 0 <= k < u.skip(c).len() implies text::is_ws(#[trigger] u.skip(c)[k]) by {
            if c + k < t.len() {
                assert(text::is_ws(t.skip(c)[k]));
            }
        }
    }
    text::lemma_indent_len(h);
    let m = text::indent_len(h) as int;
    pattern::lemma_tag_match(s, i, j);
    text::lemma_trim_indented(w, h);
    assert(h[j - n] == '!');
    if m > j - n {
        assert(text::is_ws(h.take(m)[j - n]));
    }
    assert forall|k: int| m <= k < j - n implies #[trigger] h[k] != '\n' by {
        lemma_indent_of_stripped(w, h);
        assert(s[n + k] == h[k]);
    }
    assert(pattern::tag_match(h, m, j - n));
}

/// Indentation in front adds to the indentation.
proof fn lemma_indent_of_stripped(w: Seq<char>, h: Seq<char>)
    requires
        text::blank(w),
        text::indent_len(h) < text::strip_cr(w + h).len() - w.len(),
    ensures
        text::indent_len(text::strip_cr(w + h)) == w.len() + text::indent_len(h),
{
    let s = text::strip_cr(w + h);
    let m = text::indent_len(h) as int;
    let n = w.len() as int;
    text::lemma_indent_len(h);
    assert forall|k: int| 0 <= k < n + m implies text::is_ws(#[trigger] s[k]) by {
        if k < n {
            assert(text::is_ws(w[k]));
        } else {
            assert(text::is_ws(h.take(m)[k - n]));
        }
    }
    assert(s[n + m] == h[m]);
    text::lemma_indent_len_is(s, n + m);
}

/// The lines of a vault text: the header and the digits.
pub proof fn lemma_envelope_lines(vault_id: Option<Seq<char>>, salt: Seq<u8>, mac: Seq<u8>, data: Seq<u8>)
    requires
        text::one_line(vault::header_line(vault_id)),
    ensures
        ({
            let cs = vault::chunks(vault::body_digits(salt, mac, data), WRAP_WIDTH as nat);
            &&& text::lines_of(vault::envelope_text(vault_id, salt, mac, data)) == seq![
                text::strip_cr(vault::header_line(vault_id)),
            ] + cs
            &&& cs.len() > 0
            &&& forall|i: int|
                0 <= i < cs.len() ==> {
                    &&& (#[trigger] cs[i]).len() > 0
                    &&& text::is_line(cs[i])
                    &&& forall|j: int| 0 <= j < cs[i].len() ==> vault::is_digit(#[trigger] cs[i][j])
                }
        }),
{
    let body = vault::body_digits(salt, mac, data);
    let cs = vault::chunks(body, WRAP_WIDTH as nat);
    let h = vault::header_line(vault_id);
    vault::lemma_inner_ascii(salt, mac, data);
    vault::lemma_hex_digits(encode_utf8(vault::inner_text(salt, mac, data)));
    vault::lemma_chunks(body, WRAP_WIDTH as nat);
    let vparts = seq![h] + cs;
    assert forall|i: int| 1 <= i < vparts.len() implies text::is_line(#[trigger] vparts[i]) by {
        let c = cs[i - 1];
        assert(vault::is_digit(c[c.len() - 1]));
        assert forall|j: int| 0 <= j < c.len() implies c[j] != '\n' by {
            assert(vault::is_digit(c[j]));
        }
    }
    text::lemma_lines_join(vparts);
    text::lemma_lines_ended(h);
    assert(vparts.skip(1) =~= cs);
    assert forall|i: int| 0 <= i < cs.len() implies text::is_line(#[trigger] cs[i]) by {
        assert(text::is_line(vparts[i + 1]));
    }
}

/// What the lines under the tag are: the header and the digits, indented.
pub proof fn lemma_rendered_lines(
    indent: Seq<char>,
    prefix: Seq<char>,
    vault_id: Option<Seq<char>>,
    salt: Seq<u8>,
    mac: Seq<u8>,
    data: Seq<u8>,
)
    requires
        text::one_line(indent),
        text::one_line(prefix),
        text::one_line(vault::header_line(vault_id)),
    ensures
        ({
            let cs = vault::chunks(vault::body_digits(salt, mac, data), WRAP_WIDTH as nat);
            let w = literal::child_indent(indent, prefix);
            text::lines_of(actions::encrypted_text(indent, prefix, vault::envelope_text(vault_id, salt, mac, data))) == seq![
                indent + prefix + "!vault |"@,
                text::strip_cr(w + text::strip_cr(vault::header_line(vault_id))),
            ] + Seq::new(cs.len(), |i: int| w + cs[i])
        }),
        text::ends_in_line(actions::encrypted_text(indent, prefix, vault::envelope_text(vault_id, salt, mac, data))),
        vault::chunks(vault::body_digits(salt, mac, data), WRAP_WIDTH as nat).len() > 0,
        forall|i: int|
            0 <= i < vault::chunks(vault::body_digits(salt, mac, data), WRAP_WIDTH as nat).len() ==> {
                let c = #[trigger] vault::chunks(vault::body_digits(salt, mac, data), WRAP_WIDTH as nat)[i];
                c.len() > 0 && forall|j: int| 0 <= j < c.len() ==> vault::is_digit(#[trigger] c[j])
            },
{
    let body = vault::body_digits(salt, mac, data);
    let cs = vault::chunks(body, WRAP_WIDTH as nat);
    let h = vault::header_line(vault_id);
    let w = literal::child_indent(indent, prefix);
    reveal_strlit("!vault |");
    lemma_envelope_lines(vault_id, salt, mac, data);
    let ls = text::lines_of(vault::envelope_text(vault_id, salt, mac, data));
    let head = indent + prefix + "!vault |"@;
    let rparts = seq![head] + Seq::new(ls.len(), |i: int| w + ls[i]);
    assert(text::one_line(w));
    assert forall|i: int| 0 <= i < rparts.len() implies text::one_line(#[trigger] rparts[i]) by {
        if i == 1 {
            assert(text::one_line(text::strip_cr(h)));
            assert(rparts[1] == w + text::strip_cr(h));
        } else if i > 1 {
            assert(text::is_line(cs[i - 2]));
            assert(rparts[i] == w + cs[i - 2]);
        }
    }
    text::lemma_lines_of_joined(rparts);
    let c = cs.last();
    assert(rparts.last() == w + c);
    let whole = text::join_with(rparts, seq!['\n']);
    assert(whole.last() == c[c.len() - 1]);
    assert(vault::is_digit(c[c.len() - 1]));
    let got = text::stripped(rparts.drop_last()).push(rparts.last());
    let want = seq![head, text::strip_cr(w + text::strip_cr(h))] + Seq::new(cs.len(), |i: int| w + cs[i]);
    assert(got =~= want) by {
        assert(head.last() == '|');
        assert forall|i: int| 0 <= i < got.len() implies got[i] == want[i] by {
            if i >= 2 && i + 1 < got.len() {
                let d = cs[i - 2];
                assert(vault::is_digit(d[d.len() - 1]));
                assert((w + d).last() == d.last());
            }
        }
    }
}

/// A value that was encrypted in a document is found again as a block: from the
/// tag line, and, unless the header itself reads as a tag, from every line of
/// the payload. The block has the value's indentation and prefix, and decrypts
/// as the vault text does that was put in. The line after it must not hold digits
/// alone, indented deeper than the value was, which would make it part of the
/// payload, and the vault id must not break the header's line.
#[verifier::spinoff_prover]
#[verifier::rlimit(40)]
pub proof fn law_encrypted_value_found(
    above: Seq<Seq<char>>,
    below: Seq<Seq<char>>,
    indent: Seq<char>,
    prefix: Seq<char>,
    vault_id: Option<Seq<char>>,
    payload: PayloadBytes,
    cursor: int,
    password: Seq<char>,
)
    requires
        text::blank(indent),
        text::one_line(indent),
        text::one_line(prefix),
        prefix.len() > 0 ==> !text::is_ws(prefix[0]),
        text::one_line(vault::header_line(vault_id)),
        below.len() > 0 ==> !actions::digits_under_tag(below[0], encode_utf8(indent).len()),
        above.len() <= cursor,
        cursor < above.len() + text::lines_of(
            actions::encrypted_text(
                indent,
                prefix,
                vault::envelope_text(vault_id, payload.salt, payload.mac, payload.data),
            ),
        ).len(),
        cursor == above.len() || pattern::tag_of(vault::header_line(vault_id)) is None,
    ensures
        ({
            let vaulttext = vault::envelope_text(vault_id, payload.salt, payload.mac, payload.data);
            let rendered = text::lines_of(actions::encrypted_text(indent, prefix, vaulttext));
            let found = actions::block_at(above + rendered + below, cursor);
            &&& found is Some
            &&& found->0.start_line == above.len()
            &&& found->0.end_line == above.len() + rendered.len() - 1
            &&& found->0.indent == indent
            &&& found->0.prefix == prefix
            &&& vault::decrypted(found->0.vaulttext, password) == vault::decrypted(vaulttext, password)
        }),
{
    let vaulttext = vault::envelope_text(vault_id, payload.salt, payload.mac, payload.data);
    let rendered = text::lines_of(actions::encrypted_text(indent, prefix, vaulttext));
    let doc = above + rendered + below;
    let cs = vault::chunks(vault::body_digits(payload.salt, payload.mac, payload.data), WRAP_WIDTH as nat);
    let h = vault::header_line(vault_id);
    let w = literal::child_indent(indent, prefix);
    let head = indent + prefix + "!vault |"@;
    let start = above.len() as int;
    let ti = encode_utf8(indent).len();
    lemma_rendered_lines(indent, prefix, vault_id, payload.salt, payload.mac, payload.data);
    lemma_tag_line_rendered(indent, prefix);
    assert(doc[start] == head);
    let hline = text::strip_cr(w + text::strip_cr(h));
    assert(doc[start + 1] == rendered[1]);
    assert(rendered[1] == hline);
    lemma_header_under_tag(indent, prefix, vault_id);
    let n = (cs.len() + 1) as nat;
    assert forall|i: int| start + 1 <= i < start + 1 + n implies {
        &&& actions::in_payload(#[trigger] doc[i])
        &&& i > start + 1 ==> actions::digits_under_tag(doc[i], ti)
        &&& i > start + 1 ==> text::trim_of(doc[i]) == cs[i - start - 2]
        &&& pattern::tag_of(h) is None ==> pattern::tag_of(doc[i]) is None
    } by {
        assert(doc[i] == rendered[i - start]);
        if i > start + 1 {
            let c = cs[i - start - 2];
            assert(rendered[i - start] == w + c);
            lemma_digits_under_tag(indent, prefix, c);
        }
    }
    assert(doc.len() == start + 1 + n + below.len());
    if below.len() > 0 {
        assert(doc[start + 1 + n] == below[0]);
    }
    assert forall|i: int| start + 2 <= i < start + 2 + cs.len() implies actions::digits_under_tag(#[trigger] doc[i], ti) by {
        assert(actions::in_payload(doc[i]));
    }
    lemma_digits_len_is(doc, start + 2, cs.len(), ti);
    let lines = actions::payload_lines(doc, start, ti);
    assert(lines =~= seq![text::trim_of(h)] + cs) by {
        assert forall|i: int| 0 <= i < lines.len() implies lines[i] == (seq![text::trim_of(h)] + cs)[i] by {
            assert(actions::in_payload(doc[start + 1 + i]));
        }
    }
    // The cursor's tag line.
    lemma_tag_line_is(doc, start, cursor);
    // The vault text of the block.
    lemma_trimmed_header_reads(vault_id);
    vault::lemma_envelope_reads_back(text::trim_of(h), payload.salt, payload.mac, payload.data);
    vault::lemma_header_reads(vault_id);
    vault::lemma_envelope_reads_back(h, payload.salt, payload.mac, payload.data);
}

/// The tag line of a cursor below it, with nothing but payload between.
proof fn lemma_tag_line_is(lines: Seq<Seq<char>>, start: int, at: int)
    requires
        0 <= start <= at,
        pattern::tag_of(lines[start]) is Some,
        forall|i: int| start < i <= at ==> pattern::tag_of(#[trigger] lines[i]) is None && actions::in_payload(lines[i]),
    ensures
        actions::tag_line(lines, at) == Some(start),
    decreases at - start,
{
    if start < at {
        assert(pattern::tag_of(lines[at]) is None);
        lemma_tag_line_is(lines, start, at - 1);
    }
}

/// The header's line, as it stands under a tag.
proof fn lemma_header_under_tag(indent: Seq<char>, prefix: Seq<char>, vault_id: Option<Seq<char>>)
    requires
        text::blank(indent),
    ensures
        ({
            let h = vault::header_line(vault_id);
            let line = text::strip_cr(literal::child_indent(indent, prefix) + text::strip_cr(h));
            &&& actions::header_under_tag(line, encode_utf8(indent).len())
            &&& actions::in_payload(line)
            &&& vault::is_vault_text(text::trim_of(line))
            &&& text::trim_of(line) == text::trim_of(h)
            &&& pattern::tag_of(h) is None ==> pattern::tag_of(line) is None
        }),
{
    let h = vault::header_line(vault_id);
    let w = literal::child_indent(indent, prefix);
    reveal_strlit("$ANSIBLE_VAULT");
    reveal_strlit(";1.1;AES256");
    reveal_strlit(";1.2;AES256;");
    assert forall|i: int| 0 <= i < w.len() implies text::is_ws(#[trigger] w[i]) by {
        if i < indent.len() {
            assert(text::is_ws(indent[i]));
        }
    }
    let g = text::strip_cr(h);
    let line = text::strip_cr(w + g);
    let fixed = if vault_id is Some && vault_id->0.len() > 0 {
        HEADER@ + ";1.2;AES256;"@
    } else {
        HEADER@ + ";1.1;AES256"@
    };
    let n = HEADER@.len() as int;
    assert(h.len() >= fixed.len());
    assert(h.take(fixed.len() as int) =~= fixed);
    assert(fixed.last() != '\r');
    assert forall|i: int| 0 <= i < fixed.len() implies h[i] == #[trigger] fixed[i] by {
        assert(h.take(fixed.len() as int)[i] == fixed[i]);
    }
    assert(h[fixed.len() - 1] == fixed[fixed.len() - 1]);
    assert(g.len() >= fixed.len());
    text::lemma_trim_strip_cr(w + g);
    text::lemma_trim_indented(w, g);
    text::lemma_trim_strip_cr(h);
    assert(h[0] == fixed[0]);
    text::lemma_indent_len_is(h, 0);
    text::lemma_indent_len_is(g, 0);
    assert(h.skip(0) =~= h);
    // The trimmed header begins with the fixed part.
    let t = text::trim_of(h);
    text::lemma_trim_end(h);
    if t.len() < fixed.len() {
        let k = t.len() as int;
        assert(text::is_ws(h.skip(k)[fixed.len() - 1 - k]));
        assert(h[fixed.len() - 1] == fixed[fixed.len() - 1]);
    }
    assert(t.take(n) =~= HEADER@) by {
        assert forall|i: int| 0 <= i < n implies t[i] == HEADER@[i] by {
            assert(h[i] == fixed[i]);
        }
    }
    assert(t[0] == fixed[0]);
    text::lemma_indent_len_is(t, 0);
    assert(t.skip(0) =~= t);
    assert(vault::is_vault_text(t));
    // Its indentation is deeper than the tag's.
    assert(line.len() > w.len());
    assert forall|i: int| 0 <= i < w.len() implies text::is_ws(#[trigger] line[i]) by {
        assert(text::is_ws(w[i]));
    }
    assert(line[w.len() as int] == g[0]);
    text::lemma_indent_len_is(line, w.len() as int);
    assert(line.take(w.len() as int) =~= w);
    lemma_deeper(indent, prefix);
    // It is a tag line only where the header is one.
    if pattern::tag_of(line) is Some {
        lemma_tag_without_indent(w, g);
        lemma_no_indent_strip(h);
    }
}

/// A text that is a tag line without its final carriage return is one with it.
proof fn lemma_no_indent_strip(h: Seq<char>)
    requires
        h.len() > 0,
        pattern::tag_of(text::strip_cr(h)) is Some,
    ensures
        pattern::tag_of(h) is Some,
{
    let e = Seq::<char>::empty();
    assert(e + h =~= h);
    lemma_tag_without_indent(e, h);
}

/// The lines under a value are indented deeper than the value.
proof fn lemma_deeper(indent: Seq<char>, prefix: Seq<char>)
    ensures
        encode_utf8(literal::child_indent(indent, prefix)).len() > encode_utf8(indent).len(),
{
    let more = literal::spaces(literal::key_column(prefix) + 2);
    text::lemma_encode_concat(indent, more);
    assert(is_ascii_chars(more));
    is_ascii_chars_encode_utf8(more);
}

/// A line of digits, as it stands under a tag.
proof fn lemma_digits_under_tag(indent: Seq<char>, prefix: Seq<char>, c: Seq<char>)
    requires
        text::blank(indent),
        c.len() > 0,
        forall|j: int| 0 <= j < c.len() ==> vault::is_digit(#[trigger] c[j]),
    ensures
        actions::digits_under_tag(literal::child_indent(indent, prefix) + c, encode_utf8(indent).len()),
        actions::in_payload(literal::child_indent(indent, prefix) + c),
        text::trim_of(literal::child_indent(indent, prefix) + c) == c,
        pattern::tag_of(literal::child_indent(indent, prefix) + c) is None,
{
    let w = literal::child_indent(indent, prefix);
    let line = w + c;
    assert forall|i: int| 0 <= i < w.len() implies text::is_ws(#[trigger] w[i]) by {
        if i < indent.len() {
            assert(text::is_ws(indent[i]));
        }
    }
    assert(vault::is_digit(c[0]));
    assert(vault::is_digit(c[c.len() - 1]));
    text::lemma_trim_unchanged(c);
    text::lemma_indent_len_is(c, 0);
    text::lemma_trim_indented(w, c);
    assert(line.take(w.len() as int) =~= w);
    lemma_deeper(indent, prefix);
    assert forall|i: int| 0 <= i < c.len() implies actions::is_hex_char(#[trigger] c[i]) by {
        assert(vault::is_digit(c[i]));
    }
    lemma_digits_no_tag(line);
}

/// A header reads as one without the white space at its end.
proof fn lemma_trimmed_header_reads(vault_id: Option<Seq<char>>)
    requires
        text::one_line(vault::header_line(vault_id)),
    ensures
        vault::id_keeps_body(vault_id),
        vault::header_reads(text::trim_of(vault::header_line(vault_id))),
{
    let h = vault::header_line(vault_id);
    if vault_id is Some {
        let id = vault_id->0;
        assert forall|i: int, j: int| 0 <= i < j < id.len() && #[trigger] id[i] == '\n' implies text::is_ws(
            #[trigger] id[j],
        ) by {
            let k = h.len() - id.len() + i;
            assert(h[k] == id[i]);
        }
    }
    vault::lemma_header_reads(vault_id);
    text::lemma_lines_ended(h);
    text::lemma_trim_strip_cr(h);
    let t = text::trim_of(h);
    text::lemma_indent_len_is(h, 0);
    assert(h.skip(0) =~= h);
    text::lemma_trim_end(h);
    lemma_header_under_tag(seq![], seq![], vault_id);
    assert(t.len() > 0);
    assert(t[0] == h[0]);
    assert(text::one_line(t));
    text::lemma_lines_ended(t);
    text::lemma_trim_unchanged(t);
    assert(text::strip_cr(t) == t);
}


// ---------------------------------------------------------------------------
// Plain values
// ---------------------------------------------------------------------------

/// What an entry line is made of, one part after the other.
proof fn lemma_entry_parts(line: Seq<char>, m: EntryMatch)
    requires
        pattern::entry_match(line, m),
    ensures
        ({
            let indent = line.take(m.indent);
            let key = line.subrange(m.indent, m.value);
            let scalar = line.subrange(m.value, m.end);
            &&& line == indent + key + scalar + line.skip(m.end)
            &&& text::blank(indent)
            &&& key.len() > 0 && !text::is_ws(key[0])
            &&& text::trim_end_of(key) == line.subrange(m.indent, m.colon + 1)
            &&& text::blank(line.skip(m.end))
            &&& scalar.len() > 0
        }),
{
    reveal_strlit("- ");
    let key = line.subrange(m.indent, m.value);
    assert(line =~= line.take(m.indent) + key + line.subrange(m.value, m.end) + line.skip(m.end));
    assert(!text::is_ws(key[0])) by {
        if m.dashes > 0 {
            assert(text::occurs_at(line, "- "@, m.indent + 2 * 0));
            assert(line.subrange(m.indent, m.indent + 2)[0] == '-');
        }
    }
    let n = m.colon + 1 - m.indent;
    assert forall|i: int| n <= i < key.len() implies text::is_ws(#[trigger] key[i]) by {
        assert(text::is_ws(line.subrange(m.colon + 1, m.value)[i - n]));
    }
    assert(key[n - 1] == ':');
    text::lemma_trim_end_is(key, n);
    assert(key.take(n) =~= line.subrange(m.indent, m.colon + 1));
}

/// A plain value of a line has the line's indentation, which is white space, and
/// a prefix that begins with something else and ends in a colon and a space. So
/// it can be encrypted where it stands: the rendered block will be found again.
#[verifier::spinoff_prover]
#[verifier::rlimit(40)]
pub proof fn law_plain_value_shape(line: Seq<char>, at: int)
    requires
        text::one_line(line),
        actions::plain_in(line, at) is Some,
    ensures
        ({
            let p = actions::plain_in(line, at)->0;
            let n = p.prefix.len() as int;
            &&& p.line == at
            &&& text::blank(p.indent) && text::one_line(p.indent)
            &&& p.indent == line.take(text::indent_len(line) as int)
            &&& n > 2 && text::one_line(p.prefix) && !text::is_ws(p.prefix[0])
            &&& p.prefix[n - 2] == ':' && p.prefix[n - 1] == ' '
            &&& text::one_line(p.value)
        }),
{
    let m = choose|m: EntryMatch| pattern::first_entry_match(line, m);
    lemma_entry_parts(line, m);
    reveal_strlit(" ");
    let p = actions::plain_in(line, at)->0;
    let indent = line.take(m.indent);
    let key = line.subrange(m.indent, m.value);
    let scalar = line.subrange(m.value, m.end);
    assert(text::one_line(key));
    text::lemma_trim_end(key);
    assert forall|i: int| 0 <= i < m.indent implies text::is_ws(#[trigger] line[i]) by {
        assert(text::is_ws(indent[i]));
    }
    assert(line[m.indent] == key[0]);
    text::lemma_indent_len_is(line, m.indent);
    let v = text::trim_of(scalar);
    lemma_trim_piece(scalar);
    assert(text::one_line(v)) by {
        let k = text::indent_len(scalar) as int;
        assert forall|i: int| 0 <= i < v.len() implies v[i] != '\n' by {
            assert(v[i] == scalar[k + i]);
            assert(scalar[k + i] == line[m.value + k + i]);
        }
    }
    if v.len() >= 2 {
        assert(text::one_line(v.subrange(1, v.len() - 1)));
    }
}

/// A line with a plain value has more than its indentation.
pub proof fn lemma_plain_line(line: Seq<char>, at: int)
    requires
        actions::plain_in(line, at) is Some,
    ensures
        text::indent_len(line) < line.len(),
{
    let m = choose|m: EntryMatch| pattern::first_entry_match(line, m);
    lemma_entry_parts(line, m);
    let key = line.subrange(m.indent, m.value);
    assert forall|i: int| 0 <= i < m.indent implies text::is_ws(#[trigger] line[i]) by {
        assert(text::is_ws(line.take(m.indent)[i]));
    }
    assert(line[m.indent] == key[0]);
    text::lemma_indent_len_is(line, m.indent);
}

/// A trimmed text is a piece of the text.
proof fn lemma_trim_piece(s: Seq<char>)
    ensures
        ({
            let k = text::indent_len(s) as int;
            let v = text::trim_of(s);
            &&& k + v.len() <= s.len()
            &&& v == s.subrange(k, k + v.len())
        }),
{
    let k = text::indent_len(s) as int;
    text::lemma_indent_len(s);
    text::lemma_trim_end(s.skip(k));
    let v = text::trim_of(s);
    assert(s.skip(k).take(v.len() as int) =~= s.subrange(k, k + v.len()));
}

/// Encrypting a value and decrypting it again gives the line back, but for white
/// space at its end, where the line was written as the library writes it: one
/// space after the colon, and the scalar quoted as it would quote the value.
#[verifier::spinoff_prover]
#[verifier::rlimit(40)]
pub proof fn law_decryption_restores_line(line: Seq<char>, at: int)
    requires
        text::one_line(line),
        actions::plain_in(line, at) is Some,
        ({
            let p = actions::plain_in(line, at)->0;
            let (indent, key, scalar) = pattern::entry_of(line)->0;
            &&& key == p.prefix
            &&& text::trim_of(scalar) == actions::scalar_text(p.value)
        }),
    ensures
        ({
            let p = actions::plain_in(line, at)->0;
            actions::decrypted_text(p.indent, p.prefix, p.value) == text::trim_end_of(line)
        }),
{
    let m = choose|m: EntryMatch| pattern::first_entry_match(line, m);
    lemma_entry_parts(line, m);
    law_plain_value_shape(line, at);
    let p = actions::plain_in(line, at)->0;
    let (indent, key, scalar) = pattern::entry_of(line)->0;
    assert(literal::strip_newline(p.value) == p.value) by {
        if p.value.len() > 0 {
            assert(p.value[p.value.len() - 1] != '\n');
        }
    }
    assert(!p.value.contains('\n'));
    let written = actions::scalar_text(p.value);
    assert(actions::decrypted_text(p.indent, p.prefix, p.value) == indent + key + written);
    // The scalar begins with no white space, as it would have been taken for the key's.
    lemma_trim_piece(scalar);
    text::lemma_indent_len(scalar);
    assert(written.len() > 0);
    let k = text::indent_len(scalar) as int;
    assert(k == 0) by {
        if k > 0 {
            let o = EntryMatch { value: m.value + k, ..m };
            lemma_later_value(line, m, k);
            assert(pattern::tried_before(o, m));
        }
    }
    assert(scalar.skip(0) =~= scalar);
    text::lemma_trim_end(scalar);
    let n = m.value + written.len();
    assert forall|i: int| n <= i < line.len() implies text::is_ws(#[trigger] line[i]) by {
        if i < m.end {
            assert(text::is_ws(scalar.skip(written.len() as int)[i - n]));
        } else {
            assert(text::is_ws(line.skip(m.end)[i - m.end]));
        }
    }
    assert(written == scalar.take(written.len() as int));
    assert(line[n - 1] == written.last());
    text::lemma_trim_end_is(line, n);
    assert(line.take(n) =~= indent + key + written);
}

/// White space that begins a scalar could have been taken with the key's.
proof fn lemma_later_value(line: Seq<char>, m: EntryMatch, k: int)
    requires
        pattern::entry_match(line, m),
        0 < k < m.end - m.value,
        text::blank(line.subrange(m.value, m.end).take(k)),
    ensures
        pattern::entry_match(line, EntryMatch { value: m.value + k, ..m }),
{
    let scalar = line.subrange(m.value, m.end);
    let gap = line.subrange(m.colon + 1, m.value + k);
    assert forall|i: int| 0 <= i < gap.len() implies text::is_ws(#[trigger] gap[i]) by {
        if i < m.value - m.colon - 1 {
            assert(text::is_ws(line.subrange(m.colon + 1, m.value)[i]));
        } else {
            assert(text::is_ws(scalar.take(k)[i - (m.value - m.colon - 1)]));
        }
    }
}

/// A plain value of a document can be encrypted in place and is found again: for
/// a document of lines, a plain value on the line `at`, and any vault text put
/// in its place, every line of the new block leads to a block with the value's
/// indentation and prefix that decrypts as that vault text. The next line must
/// not hold digits alone, indented deeper, nor the vault id break its line, nor
/// the header read as a tag.
pub proof fn law_encrypt_in_place(
    lines: Seq<Seq<char>>,
    at: int,
    vault_id: Option<Seq<char>>,
    payload: PayloadBytes,
    cursor: int,
    password: Seq<char>,
)
    requires
        0 <= at < lines.len(),
        text::one_line(lines[at]),
        actions::plain_at(lines, at) is Some,
        at + 1 < lines.len() ==> !actions::digits_under_tag(lines[at + 1], encode_utf8((actions::plain_at(lines, at)->0).indent).len()),
        text::one_line(vault::header_line(vault_id)),
        pattern::tag_of(vault::header_line(vault_id)) is None,
        ({
            let p = actions::plain_at(lines, at)->0;
            let vaulttext = vault::envelope_text(vault_id, payload.salt, payload.mac, payload.data);
            at <= cursor < at + text::lines_of(actions::encrypted_text(p.indent, p.prefix, vaulttext)).len()
        }),
    ensures
        ({
            let p = actions::plain_at(lines, at)->0;
            let vaulttext = vault::envelope_text(vault_id, payload.salt, payload.mac, payload.data);
            let rendered = text::lines_of(actions::encrypted_text(p.indent, p.prefix, vaulttext));
            let found = actions::block_at(lines.take(at) + rendered + lines.skip(at + 1), cursor);
            &&& found is Some
            &&& found->0.start_line == at
            &&& found->0.end_line == at + rendered.len() - 1
            &&& found->0.indent == p.indent
            &&& found->0.prefix == p.prefix
            &&& vault::decrypted(found->0.vaulttext, password) == vault::decrypted(vaulttext, password)
        }),
{
    let p = actions::plain_at(lines, at)->0;
    law_plain_value_shape(lines[at], at);
    law_encrypted_value_found(
        lines.take(at),
        lines.skip(at + 1),
        p.indent,
        p.prefix,
        vault_id,
        payload,
        cursor,
        password,
    );
}

} // verus!
