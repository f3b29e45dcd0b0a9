//! What the server's edits do to a document.

use vstd::prelude::*;
use vstd::string::*;
use vstd::utf8::*;
use crate::actions;
use crate::pattern;
use crate::round_trip;
use crate::server;
use crate::server::EditText;
use crate::text;
use crate::vault;
use crate::vault::PayloadBytes;

verus! {

broadcast use vstd::string::group_string_axioms;

// ---------------------------------------------------------------------------
// Applying edits
// ---------------------------------------------------------------------------

/// Where the line `n` of a text begins, or the end of the text where it has no
/// such line. Lines end in line feeds.
pub open spec fn line_start(s: Seq<char>, n: int) -> int
    decreases s.len(),
{
    let i = text::find_char(s, '\n');
    if n <= 0 {
        0
    } else if 0 <= i < s.len() {
        i + 1 + line_start(s.skip(i + 1), n - 1)
    } else {
        s.len() as int
    }
}

/// The length of the first line of a text, without what ends it.
pub open spec fn first_line_len(s: Seq<char>) -> nat {
    let i = text::find_char(s, '\n');
    if i < s.len() {
        text::strip_cr(s.take(i)).len()
    } else {
        s.len()
    }
}

/// Where a position lies in a text. A column past the end of the line, such as
/// the greatest there is, is the end of the line.
pub open spec fn offset_of(s: Seq<char>, line: u32, character: u32) -> int {
    let start = line_start(s, line as int);
    let len = first_line_len(s.skip(start)) as int;
    if character == u32::MAX || character > len {
        start + len
    } else {
        start + character
    }
}

/// The text once an edit was made.
pub open spec fn applied(s: Seq<char>, edit: EditText) -> Seq<char> {
    s.take(offset_of(s, edit.start_line, edit.start_character)) + edit.new_text + s.skip(
        offset_of(s, edit.end_line, edit.end_character),
    )
}

/// The lines before and from the beginning of a line.
proof fn lemma_line_start(s: Seq<char>, n: int)
    requires
        0 <= n <= text::lines_of(s).len(),
    ensures
        0 <= line_start(s, n) <= s.len(),
        text::lines_of(s.take(line_start(s, n))) == text::lines_of(s).take(n),
        text::lines_of(s.skip(line_start(s, n))) == text::lines_of(s).skip(n),
        n == 0 ==> line_start(s, n) == 0,
        0 < n < text::lines_of(s).len() ==> line_start(s, n) > 0 && s[line_start(s, n) - 1] == '\n',
    decreases s.len(),
{
    text::lemma_find_char(s, '\n');
    let i = text::find_char(s, '\n');
    let k = line_start(s, n);
    let all = text::lines_of(s);
    if n == 0 {
        assert(s.take(0) =~= seq![]);
        assert(s.skip(0) =~= s);
        assert(all.take(0) =~= seq![]);
        assert(all.skip(0) =~= all);
    } else if i < s.len() {
        let rest = s.skip(i + 1);
        let first = text::strip_cr(s.take(i));
        assert(all == seq![first] + text::lines_of(rest));
        lemma_line_start(rest, n - 1);
        let j = line_start(rest, n - 1);
        assert(s.take(k) =~= s.take(i).push('\n') + rest.take(j));
        text::lemma_lines_append(s.take(i), rest.take(j));
        text::lemma_lines_ended(s.take(i));
        assert(all.take(n) =~= seq![first] + text::lines_of(rest).take(n - 1));
        assert(s.skip(k) =~= rest.skip(j));
        assert(all.skip(n) =~= text::lines_of(rest).skip(n - 1));
        if n < all.len() {
            if n == 1 {
                assert(s[i] == '\n');
            } else {
                assert(rest[j - 1] == s[k - 1]);
            }
        }
    } else {
        assert(all =~= seq![s]);
        assert(s.take(k) =~= s);
        assert(s.skip(k) =~= seq![]);
        assert(all.take(1) =~= all);
        assert(all.skip(1) =~= seq![]);
    }
}

/// An edit for lines of a document replaces those lines and no others. The
/// document must have no more lines than a position can count, and the new text
/// must end inside a line.
pub proof fn law_edit_replaces_lines(s: Seq<char>, start_line: usize, end_line: usize, new_text: Seq<char>)
    requires
        start_line <= end_line < text::lines_of(s).len() <= u32::MAX,
        text::ends_in_line(new_text),
    ensures
        text::lines_of(applied(s, server::line_edit(start_line, end_line, new_text, text::lines_of(s).len() as usize))) == text::lines_of(s).take(
            start_line as int,
        ) + text::lines_of(new_text) + text::lines_of(s).skip(end_line + 1),
{
    let all = text::lines_of(s);
    let edit = server::line_edit(start_line, end_line, new_text, all.len() as usize);
    let a = line_start(s, start_line as int);
    lemma_line_start(s, start_line as int);
    text::lemma_find_char(s.skip(a), '\n');
    assert(edit.start_line == start_line);
    assert(offset_of(s, edit.start_line, edit.start_character) == a);
    let head = s.take(a);
    text::lemma_lines_closed(new_text);
    if end_line + 1 < all.len() {
        assert(edit.end_line == end_line + 1);
        let c = line_start(s, end_line + 1);
        lemma_line_start(s, end_line + 1);
        text::lemma_find_char(s.skip(c), '\n');
        assert(offset_of(s, edit.end_line, edit.end_character) == c);
        let tail = s.skip(c);
        text::lemma_lines_append(new_text, tail);
        lemma_head_lines(s, start_line as int, new_text.push('\n') + tail);
        assert(head + new_text.push('\n') + tail =~= head + (new_text.push('\n') + tail));
        assert(all.take(start_line as int) + (text::lines_of(new_text) + text::lines_of(tail)) =~= all.take(start_line as int)
            + text::lines_of(new_text) + text::lines_of(tail));
    } else {
        assert(edit.end_line == end_line);
        let c = line_start(s, end_line as int);
        lemma_line_start(s, end_line as int);
        let last = s.skip(c);
        let n = first_line_len(last) as int;
        text::lemma_find_char(last, '\n');
        let i = text::find_char(last, '\n');
        let tail = s.skip(c + n);
        assert(offset_of(s, edit.end_line, edit.end_character) == c + n);
        assert(all.skip(end_line as int).len() == 1);
        if i < last.len() {
            let rest = last.skip(i + 1);
            assert(text::lines_of(last) == seq![text::strip_cr(last.take(i))] + text::lines_of(rest));
            assert(text::lines_of(rest).len() == 0);
            assert(rest.len() == 0) by {
                if rest.len() > 0 {
                    text::lemma_find_char(rest, '\n');
                }
            }
            if n == i {
                assert(tail =~= seq!['\n']);
                assert(new_text + tail =~= new_text.push('\n'));
            } else {
                assert(last.take(i).last() == '\r');
                assert(tail =~= seq!['\r', '\n']);
                assert(new_text + tail =~= new_text.push('\r').push('\n'));
            }
        } else {
            assert(tail =~= seq![]);
            assert(new_text + tail =~= new_text);
        }
        lemma_head_lines(s, start_line as int, new_text + tail);
        assert(head + new_text + tail =~= head + (new_text + tail));
        assert(all.skip(end_line + 1) =~= seq![]);
        assert(all.take(start_line as int) + text::lines_of(new_text) + all.skip(end_line + 1) =~= all.take(
            start_line as int,
        ) + text::lines_of(new_text));
    }
}

/// Text after the beginning of a line adds its lines to those before.
proof fn lemma_head_lines(s: Seq<char>, n: int, rest: Seq<char>)
    requires
        0 <= n < text::lines_of(s).len(),
    ensures
        text::lines_of(s.take(line_start(s, n)) + rest) == text::lines_of(s).take(n) + text::lines_of(rest),
{
    lemma_line_start(s, n);
    let k = line_start(s, n);
    let head = s.take(k);
    if n == 0 {
        assert(head + rest =~= rest);
        assert(text::lines_of(s).take(0) + text::lines_of(rest) =~= text::lines_of(rest));
    } else {
        assert(head =~= head.drop_last().push('\n'));
        text::lemma_lines_append(head.drop_last(), rest);
    }
}

// ---------------------------------------------------------------------------
// Encrypting and decrypting in place
// ---------------------------------------------------------------------------

/// The document once a plain value was encrypted.
pub open spec fn with_encrypted(s: Seq<char>, cursor: usize, vaulttext: Seq<char>) -> Seq<char> {
    let p = server::plan_of(Some(s), cursor as int)->plain;
    applied(s, server::line_edit(cursor, cursor, actions::encrypted_text(p.indent, p.prefix, vaulttext), text::lines_of(s).len() as usize))
}

/// The document once the block at a line was decrypted.
pub open spec fn with_decrypted(s: Seq<char>, cursor: usize, plaintext: Seq<char>) -> Seq<char> {
    let b = server::plan_of(Some(s), cursor as int)->block;
    applied(
        s,
        server::line_edit(
            b.start_line as usize,
            b.end_line as usize,
            actions::decrypted_text(b.indent, b.prefix, plaintext),
            text::lines_of(s).len() as usize,
        ),
    )
}

/// Decrypting a block replaces its lines by those of the replacement, and no
/// others, whatever the plaintext is.
pub proof fn law_decryption_replaces_block(s: Seq<char>, cursor: usize, plaintext: Seq<char>)
    requires
        server::plan_of(Some(s), cursor as int) is Decrypt,
        text::lines_of(s).len() <= u32::MAX,
    ensures
        ({
            let b = server::plan_of(Some(s), cursor as int)->block;
            text::lines_of(with_decrypted(s, cursor, plaintext)) == text::lines_of(s).take(b.start_line) + text::lines_of(
                actions::decrypted_text(b.indent, b.prefix, plaintext),
            ) + text::lines_of(s).skip(b.end_line + 1)
        }),
{
    let b = server::plan_of(Some(s), cursor as int)->block;
    round_trip::law_block_holds_cursor(text::lines_of(s), cursor as int);
    actions::lemma_replacement(b.indent, b.prefix, plaintext);
    law_edit_replaces_lines(
        s,
        b.start_line as usize,
        b.end_line as usize,
        actions::decrypted_text(b.indent, b.prefix, plaintext),
    );
}

/// A value that was encrypted in a document is offered for decryption on every
/// line that took its place, and decrypts as the vault text does that was put
/// in. The line below must not hold digits alone, indented deeper than the value's
/// line, nor the vault id break its line or make the header read as a tag.
pub proof fn law_encrypted_value_offered(
    s: Seq<char>,
    cursor: usize,
    vault_id: Option<Seq<char>>,
    payload: PayloadBytes,
    at: int,
    password: Seq<char>,
)
    requires
        server::plan_of(Some(s), cursor as int) is Encrypt,
        text::one_line(text::lines_of(s)[cursor as int]),
        text::lines_of(s).len() <= u32::MAX,
        cursor + 1 < text::lines_of(s).len() ==> !actions::digits_under_tag(
            text::lines_of(s)[cursor + 1],
            encode_utf8(server::plan_of(Some(s), cursor as int)->plain.indent).len(),
        ),
        text::one_line(vault::header_line(vault_id)),
        pattern::tag_of(vault::header_line(vault_id)) is None,
        ({
            let p = server::plan_of(Some(s), cursor as int)->plain;
            let vaulttext = vault::envelope_text(vault_id, payload.salt, payload.mac, payload.data);
            cursor <= at < cursor + text::lines_of(actions::encrypted_text(p.indent, p.prefix, vaulttext)).len()
        }),
    ensures
        ({
            let p = server::plan_of(Some(s), cursor as int)->plain;
            let vaulttext = vault::envelope_text(vault_id, payload.salt, payload.mac, payload.data);
            let added = text::lines_of(actions::encrypted_text(p.indent, p.prefix, vaulttext));
            let plan = server::plan_of(Some(with_encrypted(s, cursor, vaulttext)), at);
            &&& plan is Decrypt
            &&& plan->block.start_line == cursor
            &&& plan->block.end_line == cursor + added.len() - 1
            &&& plan->block.indent == p.indent
            &&& plan->block.prefix == p.prefix
            &&& vault::decrypted(plan->block.vaulttext, password) == vault::decrypted(vaulttext, password)
            &&& text::lines_of(with_encrypted(s, cursor, vaulttext)) == text::lines_of(s).take(cursor as int) + added
                + text::lines_of(s).skip(cursor + 1)
        }),
{
    let ls = text::lines_of(s);
    let p = server::plan_of(Some(s), cursor as int)->plain;
    let vaulttext = vault::envelope_text(vault_id, payload.salt, payload.mac, payload.data);
    round_trip::law_plain_value_shape(ls[cursor as int], cursor as int);
    round_trip::lemma_rendered_lines(p.indent, p.prefix, vault_id, payload.salt, payload.mac, payload.data);
    law_edit_replaces_lines(s, cursor, cursor, actions::encrypted_text(p.indent, p.prefix, vaulttext));
    round_trip::law_encrypt_in_place(ls, cursor as int, vault_id, payload, at, password);
}

/// Encrypting a value and decrypting it again gives every line of the document
/// back, but for white space at the end of the value's line, where that line was
/// written as the library writes it. The block may be decrypted from any of its
/// lines.
pub proof fn law_decryption_restores_document(
    s: Seq<char>,
    cursor: usize,
    vault_id: Option<Seq<char>>,
    payload: PayloadBytes,
    at: usize,
)
    requires
        server::plan_of(Some(s), cursor as int) is Encrypt,
        text::one_line(text::lines_of(s)[cursor as int]),
        text::lines_of(s).len() <= u32::MAX,
        cursor + 1 < text::lines_of(s).len() ==> !actions::digits_under_tag(
            text::lines_of(s)[cursor + 1],
            encode_utf8(server::plan_of(Some(s), cursor as int)->plain.indent).len(),
        ),
        text::one_line(vault::header_line(vault_id)),
        pattern::tag_of(vault::header_line(vault_id)) is None,
        ({
            let p = server::plan_of(Some(s), cursor as int)->plain;
            let vaulttext = vault::envelope_text(vault_id, payload.salt, payload.mac, payload.data);
            let (indent, key, scalar) = pattern::entry_of(text::lines_of(s)[cursor as int])->0;
            &&& cursor <= at < cursor + text::lines_of(actions::encrypted_text(p.indent, p.prefix, vaulttext)).len()
            &&& text::lines_of(with_encrypted(s, cursor, vaulttext)).len() <= u32::MAX
            &&& key == p.prefix
            &&& text::trim_of(scalar) == actions::scalar_text(p.value)
        }),
    ensures
        ({
            let p = server::plan_of(Some(s), cursor as int)->plain;
            let vaulttext = vault::envelope_text(vault_id, payload.salt, payload.mac, payload.data);
            let t = with_encrypted(s, cursor, vaulttext);
            text::lines_of(with_decrypted(t, at, p.value)) == text::lines_of(s).update(
                cursor as int,
                text::trim_end_of(text::lines_of(s)[cursor as int]),
            )
        }),
{
    let ls = text::lines_of(s);
    let line = ls[cursor as int];
    let p = server::plan_of(Some(s), cursor as int)->plain;
    let vaulttext = vault::envelope_text(vault_id, payload.salt, payload.mac, payload.data);
    let t = with_encrypted(s, cursor, vaulttext);
    let added = text::lines_of(actions::encrypted_text(p.indent, p.prefix, vaulttext));
    law_encrypted_value_offered(s, cursor, vault_id, payload, at as int, p.value);
    round_trip::law_decryption_restores_line(line, cursor as int);
    round_trip::law_plain_value_shape(line, cursor as int);
    let new_text = actions::decrypted_text(p.indent, p.prefix, p.value);
    text::lemma_trim_end(line);
    assert(new_text.len() > 0) by {
        assert(line.take(text::indent_len(line) as int) == p.indent);
        lemma_nonblank(line, cursor as int);
    }
    assert(text::one_line(new_text));
    assert(text::ends_in_line(new_text));
    text::lemma_lines_single(new_text);
    let b = server::plan_of(Some(t), at as int)->block;
    law_edit_replaces_lines(t, b.start_line as usize, b.end_line as usize, new_text);
    let lt = text::lines_of(t);
    assert(lt.take(cursor as int) =~= ls.take(cursor as int));
    assert(lt.skip(cursor + added.len()) =~= ls.skip(cursor + 1));
    assert(ls.take(cursor as int) + seq![new_text] + ls.skip(cursor + 1) =~= ls.update(cursor as int, new_text));
}

/// A line with a plain value is not blank.
proof fn lemma_nonblank(line: Seq<char>, at: int)
    requires
        text::one_line(line),
        actions::plain_in(line, at) is Some,
    ensures
        text::trim_end_of(line).len() > 0,
{
    round_trip::law_plain_value_shape(line, at);
    round_trip::lemma_plain_line(line, at);
    text::lemma_trim_end(line);
    text::lemma_indent_len(line);
    let k = text::indent_len(line) as int;
    if text::trim_end_of(line).len() == 0 {
        assert(text::is_ws(line.skip(0)[k]));
    }
}

} // verus!
