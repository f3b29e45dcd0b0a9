//! Analysis of YAML documents at a cursor: the vault block or plain scalar that
//! stands there, and the text that replaces it.

use vstd::prelude::*;
use vstd::string::*;
use vstd::utf8::*;
use crate::document_laws;
use crate::literal;
use crate::literal::{all_literal, child_indent_text, quote_double, render_multiline};
use crate::pattern;
use crate::pattern::{split_entry, split_tag};
use crate::text;
use crate::text::{chars_of, contains, index_of, joined, leading_ws, lines, same_text, text_of, trim, trim_end};
use crate::vault;
use crate::vault::is_vault_data;

verus! {

broadcast use vstd::string::group_string_axioms;

// ---------------------------------------------------------------------------
// Vault blocks
// ---------------------------------------------------------------------------

/// An encrypted `!vault |` block in a document.
#[derive(Debug)]
pub struct VaultBlock {
    /// The line of the tag, counted from 0.
    pub start_line: usize,
    /// The last line of the payload, counted from 0.
    pub end_line: usize,
    /// The white space before everything else on the tag line.
    pub indent: String,
    /// What stands before the tag, such as `db_password: ` or `- `.
    pub prefix: String,
    /// The vault text: header and digits, with line feeds between.
    pub vaulttext: String,
}

/// A `VaultBlock` with texts for strings.
pub struct BlockText {
    pub start_line: int,
    pub end_line: int,
    pub indent: Seq<char>,
    pub prefix: Seq<char>,
    pub vaulttext: Seq<char>,
}

impl View for VaultBlock {
    type V = BlockText;

    open spec fn view(&self) -> BlockText {
        BlockText {
            start_line: self.start_line as int,
            end_line: self.end_line as int,
            indent: self.indent@,
            prefix: self.prefix@,
            vaulttext: self.vaulttext@,
        }
    }
}

/// The bytes of a line's leading white space.
pub open spec fn indent_bytes(line: Seq<char>) -> nat {
    encode_utf8(line.take(text::indent_len(line) as int)).len()
}

/// A hexadecimal digit of either case.
pub open spec fn is_hex_char(c: char) -> bool {
    '0' <= c <= '9' || 'a' <= c <= 'f' || 'A' <= c <= 'F'
}

/// The line may stand between a tag and the cursor: it is blank, a vault
/// header, or all digits.
pub open spec fn in_payload(line: Seq<char>) -> bool {
    let t = text::trim_of(line);
    vault::is_vault_text(t) || all_digits(t)
}

/// The nearest tag line at or above `at`, with nothing but payload between.
pub open spec fn tag_line(lines: Seq<Seq<char>>, at: int) -> Option<int>
    decreases at,
{
    if pattern::tag_of(lines[at]) is Some {
        Some(at)
    } else if at <= 0 || !in_payload(lines[at]) {
        None
    } else {
        tag_line(lines, at - 1)
    }
}

/// The line stands under a tag with `tag_indent` bytes of indentation: it is not
/// blank, and it is indented deeper.
pub open spec fn under_tag(line: Seq<char>, tag_indent: nat) -> bool {
    text::trim_of(line).len() > 0 && indent_bytes(line) > tag_indent
}

/// Every character is a hexadecimal digit.
pub open spec fn all_digits(s: Seq<char>) -> bool {
    forall|i: int| 0 <= i < s.len() ==> is_hex_char(#[trigger] s[i])
}

/// The line under a tag holds digits and nothing else.
pub open spec fn digits_under_tag(line: Seq<char>, tag_indent: nat) -> bool {
    under_tag(line, tag_indent) && all_digits(text::trim_of(line))
}

/// The line under a tag holds a vault header.
pub open spec fn header_under_tag(line: Seq<char>, tag_indent: nat) -> bool {
    under_tag(line, tag_indent) && vault::is_vault_text(text::trim_of(line))
}

/// The number of lines of digits from `from` on.
pub open spec fn digits_len(lines: Seq<Seq<char>>, from: int, tag_indent: nat) -> nat
    decreases lines.len() - from,
{
    if 0 <= from < lines.len() && digits_under_tag(lines[from], tag_indent) {
        1 + digits_len(lines, from + 1, tag_indent)
    } else {
        0
    }
}

/// The payload under the tag at `start`, a header and the digits after it: each
/// line without surrounding white space. It ends at the first line that holds
/// anything but digits.
pub open spec fn payload_lines(lines: Seq<Seq<char>>, start: int, tag_indent: nat) -> Seq<Seq<char>> {
    Seq::new(1 + digits_len(lines, start + 2, tag_indent), |i: int| text::trim_of(lines[start + 1 + i]))
}

/// The block whose tag stands at `start`, if a vault header stands under it.
pub open spec fn block_from(lines: Seq<Seq<char>>, start: int) -> Option<BlockText> {
    let (indent, prefix) = pattern::tag_of(lines[start])->0;
    let tag_indent = encode_utf8(indent).len();
    let payload = payload_lines(lines, start, tag_indent);
    if start + 1 < lines.len() && header_under_tag(lines[start + 1], tag_indent) {
        Some(
            BlockText {
                start_line: start,
                end_line: start + payload.len(),
                indent,
                prefix,
                vaulttext: text::join_with(payload, seq!['\n']),
            },
        )
    } else {
        None
    }
}

/// The vault block that holds the line `cursor`, if there is one.
pub open spec fn block_at(lines: Seq<Seq<char>>, cursor: int) -> Option<BlockText> {
    if cursor >= lines.len() {
        None
    } else {
        match tag_line(lines, cursor) {
            None => None,
            Some(start) => match block_from(lines, start) {
                None => None,
                Some(block) => if cursor <= block.end_line {
                    Some(block)
                } else {
                    None
                },
            },
        }
    }
}

/// The view of an optional block.
pub open spec fn block_view(b: Option<VaultBlock>) -> Option<BlockText> {
    match b {
        Some(b) => Some(b@),
        None => None,
    }
}

/// The bytes of a line's leading white space.
pub fn indent_of(line: &str) -> (n: usize)
    ensures
        n == indent_bytes(line@),
{
    let v: Vec<char> = chars_of(line);
    let k: usize = leading_ws(&v);
    let indent: String = text_of(&v, 0, k);
    assert(v@.subrange(0, k as int) =~= line@.take(k as int));
    let bytes: &[u8] = indent.as_str().as_bytes();
    bytes.len()
}

/// Whether every character is a hexadecimal digit.
fn all_hex(s: &str) -> (r: bool)
    ensures
        r == all_digits(s@),
{
    let v: Vec<char> = chars_of(s);
    let mut i: usize = 0;
    while i < v.len()
        invariant
            i <= v@.len(),
            v@ == s@,
            forall|j: int| 0 <= j < i ==> is_hex_char(#[trigger] s@[j]),
        decreases v@.len() - i,
    {
        let c: char = v[i];
        let hex: bool = ('0' <= c && c <= '9') || ('a' <= c && c <= 'f') || ('A' <= c && c <= 'F');
        if !hex {
            assert(!is_hex_char(s@[i as int]));
            return false;
        }
        i += 1;
    }
    true
}

/// Finds the tag line at or above the cursor.
fn find_tag_line(lines: &[&str], cursor_line: usize) -> (r: Option<usize>)
    requires
        cursor_line < lines@.len(),
    ensures
        match r {
            Some(l) => tag_line(text::str_texts(lines@), cursor_line as int) == Some(l as int),
            None => tag_line(text::str_texts(lines@), cursor_line as int) is None,
        },
{
    let ghost all = text::str_texts(lines@);
    let mut l: usize = cursor_line;
    loop
        invariant
            l <= cursor_line < lines@.len(),
            all == text::str_texts(lines@),
            tag_line(all, cursor_line as int) == tag_line(all, l as int),
        decreases l,
    {
        assert(all[l as int] == lines@[l as int]@);
        if split_tag(lines[l]).is_some() {
            return Some(l);
        }
        let t: String = trim(lines[l]);
        if l == 0 || !(is_vault_data(t.as_str()) || all_hex(t.as_str())) {
            return None;
        }
        l -= 1;
    }
}

/// Finds the vault block that holds `cursor_line`, if there is one.
pub fn find_vault_block(lines: &[&str], cursor_line: usize) -> (r: Option<VaultBlock>)
    ensures
        block_view(r) == block_at(text::str_texts(lines@), cursor_line as int),
        r matches Some(b) ==> b.start_line <= cursor_line <= b.end_line < lines@.len(),
{
    let ghost all = text::str_texts(lines@);
    if cursor_line >= lines.len() {
        return None;
    }
    let start: usize = match find_tag_line(lines, cursor_line) {
        Some(l) => l,
        None => {
            return None;
        },
    };
    proof {
        lemma_tag_line(all, cursor_line as int);
        assert(all[start as int] == lines@[start as int]@);
    }
    let (indent, prefix): (String, String) = match split_tag(lines[start]) {
        Some(parts) => parts,
        None => {
            return None;
        },
    };
    let tag_indent: usize = indent.as_str().as_bytes().len();
    let ghost whole = payload_lines(all, start as int, tag_indent as nat);
    if start == lines.len() - 1 {
        return None;
    }
    let header: &str = lines[start + 1];
    assert(all[start + 1] == header@);
    let t: String = trim(header);
    if t.as_str().is_empty() || indent_of(header) <= tag_indent || !is_vault_data(t.as_str()) {
        return None;
    }
    let mut vaulttext: String = t;
    let mut end: usize = start + 1;
    let mut going: bool = true;
    proof {
        lemma_digits_len(all, start + 2, tag_indent as nat);
        assert(whole.take(1) =~= seq![vaulttext@]);
    }
    while going && end < lines.len() - 1
        invariant
            start < end < lines@.len(),
            all == text::str_texts(lines@),
            whole == payload_lines(all, start as int, tag_indent as nat),
            whole.len() == (end - start) + digits_len(all, end + 1, tag_indent as nat),
            !going ==> digits_len(all, end + 1, tag_indent as nat) == 0,
            vaulttext@ == text::join_with(whole.take(end - start), seq!['\n']),
        decreases lines@.len() - end, (if going { 1int } else { 0int }),
    {
        let line: &str = lines[end + 1];
        assert(all[end + 1] == line@);
        let t: String = trim(line);
        if t.as_str().is_empty() || indent_of(line) <= tag_indent || !all_hex(t.as_str()) {
            going = false;
        } else {
            vaulttext.push('\n');
            vaulttext.append(t.as_str());
            proof {
                let n = end - start;
                assert(whole[n] == t@);
                assert(whole.take(n + 1).drop_last() =~= whole.take(n));
                assert(whole.take(n + 1).last() == t@);
                assert(vaulttext@ =~= text::join_with(whole.take(n), seq!['\n']) + seq!['\n'] + t@);
            }
            end += 1;
        }
    }
    assert(whole.take(end - start) =~= whole);
    if cursor_line > end {
        return None;
    }
    Some(VaultBlock { start_line: start, end_line: end, indent, prefix, vaulttext })
}

/// A tag line that was found lies at or above the cursor.
pub proof fn lemma_tag_line(lines: Seq<Seq<char>>, at: int)
    requires
        at >= 0,
    ensures
        tag_line(lines, at) matches Some(l) ==> 0 <= l <= at && pattern::tag_of(lines[l]) is Some && (forall|k: int|
            l < k <= at ==> pattern::tag_of(#[trigger] lines[k]) is None && in_payload(lines[k])),
    decreases at,
{
    if pattern::tag_of(lines[at]) is None && at > 0 && in_payload(lines[at]) {
        lemma_tag_line(lines, at - 1);
    }
}

/// A payload lies within the document.
pub proof fn lemma_digits_len(lines: Seq<Seq<char>>, from: int, tag_indent: nat)
    requires
        0 <= from <= lines.len(),
    ensures
        from + digits_len(lines, from, tag_indent) <= lines.len(),
    decreases lines.len() - from,
{
    if from < lines.len() && digits_under_tag(lines[from], tag_indent) {
        lemma_digits_len(lines, from + 1, tag_indent);
    }
}

// ---------------------------------------------------------------------------
// Plain values
// ---------------------------------------------------------------------------

/// A plain `key: value` scalar that can be encrypted.
#[derive(Debug)]
pub struct PlainValue {
    /// The line, counted from 0.
    pub line: usize,
    /// The white space before everything else on the line.
    pub indent: String,
    /// The key with its colon and one space, such as `db_password: `.
    pub prefix: String,
    /// The scalar, without quotes.
    pub value: String,
}

/// A `PlainValue` with texts for strings.
pub struct PlainText {
    pub line: int,
    pub indent: Seq<char>,
    pub prefix: Seq<char>,
    pub value: Seq<char>,
}

impl View for PlainValue {
    type V = PlainText;

    open spec fn view(&self) -> PlainText {
        PlainText { line: self.line as int, indent: self.indent@, prefix: self.prefix@, value: self.value@ }
    }
}

/// The view of an optional plain value.
pub open spec fn plain_view(p: Option<PlainValue>) -> Option<PlainText> {
    match p {
        Some(p) => Some(p@),
        None => None,
    }
}

/// A scalar that begins with `c` is not plain: a tag, an anchor, an alias, a
/// block scalar, a comment or a flow collection.
pub open spec fn starts_other_node(c: char) -> bool {
    c == '!' || c == '&' || c == '*' || c == '|' || c == '>' || c == '#' || c == '{' || c == '['
}

/// `v` without the quotes around it, where the same quote begins and ends it.
pub open spec fn unquoted(v: Seq<char>) -> Seq<char> {
    if v.len() >= 2 && (v[0] == '"' || v[0] == '\'') && v.last() == v[0] {
        v.subrange(1, v.len() - 1)
    } else {
        v
    }
}

/// The plain value in a line, if there is one.
pub open spec fn plain_in(line: Seq<char>, at: int) -> Option<PlainText> {
    match pattern::entry_of(line) {
        None => None,
        Some((indent, key, scalar)) => {
            let value = text::trim_of(scalar);
            if (value.len() > 0 && starts_other_node(value[0])) || vault::is_vault_text(value) {
                None
            } else {
                Some(PlainText { line: at, indent, prefix: text::trim_end_of(key) + " "@, value: unquoted(value) })
            }
        },
    }
}

/// The plain value on the line `cursor`, if there is one.
pub open spec fn plain_at(lines: Seq<Seq<char>>, cursor: int) -> Option<PlainText> {
    if cursor >= lines.len() {
        None
    } else {
        plain_in(lines[cursor], cursor)
    }
}

/// Takes the quotes off a quoted scalar.
pub fn unquote(v: &str) -> (r: String)
    ensures
        r@ == unquoted(v@),
{
    let b: Vec<char> = chars_of(v);
    let n: usize = b.len();
    if n >= 2 && (b[0] == '"' || b[0] == '\'') && b[n - 1] == b[0] {
        text_of(&b, 1, n - 1)
    } else {
        v.to_owned()
    }
}

/// Finds the plain `key: value` scalar on `cursor_line`, if there is one.
pub fn find_plain_value(lines: &[&str], cursor_line: usize) -> (r: Option<PlainValue>)
    ensures
        plain_view(r) == plain_at(text::str_texts(lines@), cursor_line as int),
        cursor_line >= lines@.len() ==> r is None,
        cursor_line < lines@.len() ==> plain_view(r) == plain_in(lines@[cursor_line as int]@, cursor_line as int),
        r matches Some(p) ==> p.line == cursor_line && cursor_line < lines@.len(),
{
    if cursor_line >= lines.len() {
        return None;
    }
    let line: &str = lines[cursor_line];
    assert(text::str_texts(lines@)[cursor_line as int] == line@);
    match split_entry(line) {
        None => None,
        Some((indent, key, scalar)) => {
            let value: String = trim(scalar.as_str());
            let v: Vec<char> = chars_of(value.as_str());
            if v.len() > 0 {
                let c: char = v[0];
                if c == '!' || c == '&' || c == '*' || c == '|' || c == '>' || c == '#' || c == '{' || c == '[' {
                    return None;
                }
            }
            if is_vault_data(value.as_str()) {
                return None;
            }
            let key: String = trim_end(key.as_str());
            Some(
                PlainValue {
                    line: cursor_line,
                    indent,
                    prefix: joined(key.as_str(), " "),
                    value: unquote(value.as_str()),
                },
            )
        },
    }
}

// ---------------------------------------------------------------------------
// Replacement text
// ---------------------------------------------------------------------------

/// The characters that cannot begin an unquoted scalar.
pub const SPECIAL_START: &'static str = "!&*?|>%@`\"'#-:{}[],";

/// The scalar cannot stand unquoted in YAML: it would not be one, would end before
/// a comment or at a colon, or holds a character that YAML does not keep.
pub open spec fn must_quote(v: Seq<char>) -> bool {
    ||| v.len() == 0
    ||| text::trim_of(v) != v
    ||| SPECIAL_START@.contains(v[0])
    ||| text::contains_text(v, ": "@)
    ||| text::contains_text(v, ":\t"@)
    ||| v.last() == ':'
    ||| text::contains_text(v, " #"@)
    ||| text::contains_text(v, "\t#"@)
    ||| !literal::literal_text(v)
}

/// `s` with each single quote doubled.
pub open spec fn doubled(s: Seq<char>) -> Seq<char>
    decreases s.len(),
{
    if s.len() == 0 {
        seq![]
    } else if s.last() == '\'' {
        doubled(s.drop_last()) + seq!['\'', '\'']
    } else {
        doubled(s.drop_last()).push(s.last())
    }
}

/// `s` as a YAML single-quoted scalar.
pub open spec fn single_quoted(s: Seq<char>) -> Seq<char> {
    seq!['\''] + doubled(s) + seq!['\'']
}

/// A one-line value as it stands in YAML. Escapes take double quotes.
pub open spec fn scalar_text(v: Seq<char>) -> Seq<char> {
    if !literal::literal_text(v) {
        literal::double_quoted(v)
    } else if must_quote(v) {
        single_quoted(v)
    } else {
        v
    }
}

/// The replacement of a block by its plaintext: a scalar on the tag's line, or,
/// where the plaintext has several lines, a literal block scalar under it, or a
/// double-quoted scalar where it cannot be one.
pub open spec fn decrypted_text(indent: Seq<char>, prefix: Seq<char>, plaintext: Seq<char>) -> Seq<char> {
    let pt = literal::strip_newline(plaintext);
    if pt.contains('\n') {
        literal::multiline_text(indent, prefix, plaintext)
    } else {
        indent + prefix + scalar_text(pt)
    }
}

/// The replacement of a plain value by its vault text: the tag on the value's
/// line, and the vault text under it, deeper than the value's key.
pub open spec fn encrypted_text(indent: Seq<char>, prefix: Seq<char>, vaulttext: Seq<char>) -> Seq<char> {
    let body = text::lines_of(vaulttext);
    text::join_with(
        seq![indent + prefix + "!vault |"@] + Seq::new(body.len(), |i: int| literal::child_indent(indent, prefix) + body[i]),
        seq!['\n'],
    )
}

/// Whether a scalar cannot stand unquoted in YAML.
pub fn needs_quoting(v: &str) -> (r: bool)
    ensures
        r == must_quote(v@),
{
    let chars: Vec<char> = chars_of(v);
    let n: usize = chars.len();
    if n == 0 {
        return true;
    }
    let t: String = trim(v);
    if !same_text(t.as_str(), v) {
        return true;
    }
    let special: Vec<char> = chars_of(SPECIAL_START);
    let k: usize = index_of(&special, 0, chars[0]);
    assert(special@.skip(0) =~= special@);
    if k < special.len() {
        assert(SPECIAL_START@[k as int] == v@[0]);
        return true;
    }
    assert(!SPECIAL_START@.contains(v@[0]));
    contains(v, ": ") || contains(v, ":\t") || chars[n - 1] == ':' || contains(v, " #") || contains(v, "\t#")
        || !all_literal(&chars)
}

/// A YAML single-quoted scalar.
pub fn quote_single(v: &str) -> (r: String)
    ensures
        r@ == single_quoted(v@),
{
    let chars: Vec<char> = chars_of(v);
    let mut r: String = String::new();
    r.push('\'');
    let mut i: usize = 0;
    assert(v@.take(0) =~= seq![]);
    assert(r@ =~= seq!['\''] + doubled(v@.take(0)));
    while i < chars.len()
        invariant
            i <= chars@.len(),
            chars@ == v@,
            r@ == seq!['\''] + doubled(v@.take(i as int)),
        decreases chars@.len() - i,
    {
        assert(v@.take(i + 1).drop_last() =~= v@.take(i as int));
        assert(v@.take(i + 1).last() == v@[i as int]);
        let ghost before = r@;
        r.push(chars[i]);
        if chars[i] == '\'' {
            r.push('\'');
            assert(r@ =~= before + seq!['\'', '\'']);
        }
        assert(r@ =~= seq!['\''] + doubled(v@.take(i + 1)));
        i += 1;
    }
    assert(v@.take(i as int) =~= v@);
    r.push('\'');
    assert(r@ =~= single_quoted(v@));
    r
}

/// The text that replaces the lines of `block` once it is decrypted. It begins as
/// the tag line does, and ends without a line feed.
pub fn render_decrypted(block: &VaultBlock, plaintext: &str) -> (r: String)
    ensures
        r@ == decrypted_text(block.indent@, block.prefix@, plaintext@),
        text::starts_with(r@, block.indent@ + block.prefix@),
        text::ends_in_line(r@),
        !plaintext@.contains('\n') ==> document_laws::shows(r@, block.indent@ + block.prefix@, plaintext@),
        plaintext@.len() > 0 && plaintext@.last() == '\n' && !plaintext@.drop_last().contains('\n')
            ==> document_laws::shows(r@, block.indent@ + block.prefix@, plaintext@.drop_last()),
{
    let chars: Vec<char> = chars_of(plaintext);
    let ended: bool = chars.len() > 0 && chars[chars.len() - 1] == '\n';
    let n: usize = if ended {
        chars.len() - 1
    } else {
        chars.len()
    };
    let newline: usize = index_of(&chars, 0, '\n');
    proof {
        lemma_replacement(block.indent@, block.prefix@, plaintext@);
        if !plaintext@.contains('\n') {
            document_laws::law_one_line_value_shown(block.indent@, block.prefix@, plaintext@);
        }
        if plaintext@.len() > 0 && plaintext@.last() == '\n' && !plaintext@.drop_last().contains('\n') {
            document_laws::law_one_line_value_shown(block.indent@, block.prefix@, plaintext@.drop_last());
            assert(plaintext@.drop_last().push('\n') =~= plaintext@);
        }
    }
    if newline < n {
        assert(literal::strip_newline(plaintext@)[newline as int] == '\n');
        return render_multiline(block.indent.as_str(), block.prefix.as_str(), plaintext);
    }
    let pt: String = text_of(&chars, 0, n);
    assert(pt@ =~= literal::strip_newline(plaintext@));
    assert(forall|i: int| 0 <= i < pt@.len() ==> pt@[i] != '\n');
    let mut out: String = joined(block.indent.as_str(), block.prefix.as_str());
    let pt_chars: Vec<char> = chars_of(pt.as_str());
    if !all_literal(&pt_chars) {
        let quoted: String = quote_double(pt.as_str());
        out.append(quoted.as_str());
    } else if needs_quoting(pt.as_str()) {
        let quoted: String = quote_single(pt.as_str());
        out.append(quoted.as_str());
    } else {
        out.append(pt.as_str());
    }
    out
}

/// A replacement begins as the tag line does, and ends without a line feed.
pub proof fn lemma_replacement(indent: Seq<char>, prefix: Seq<char>, plaintext: Seq<char>)
    ensures
        text::starts_with(decrypted_text(indent, prefix, plaintext), indent + prefix),
        text::ends_in_line(decrypted_text(indent, prefix, plaintext)),
{
    let head = indent + prefix;
    let r = decrypted_text(indent, prefix, plaintext);
    let pt = literal::strip_newline(plaintext);
    if pt.contains('\n') {
        literal::lemma_multiline_ends(indent, prefix, plaintext);
    } else {
        let v = scalar_text(pt);
        assert(v.len() > 0);
        assert(r.take(head.len() as int) =~= head);
        assert(r.last() == v.last());
        if !must_quote(pt) {
            text::lemma_trim_end(text::trim_start_of(pt));
        }
    }
}

/// The text that replaces the line of `plain` once its value is encrypted,
/// without a final line feed.
pub fn render_encrypted(plain: &PlainValue, vaulttext: &str) -> (r: String)
    ensures
        r@ == encrypted_text(plain.indent@, plain.prefix@, vaulttext@),
{
    let child: String = child_indent_text(plain.indent.as_str(), plain.prefix.as_str());
    let mut out: String = joined(plain.indent.as_str(), plain.prefix.as_str());
    out.append("!vault |");
    let body: Vec<String> = lines(vaulttext);
    let ghost head = out@;
    let ghost ls = text::lines_of(vaulttext@);
    let ghost all = Seq::new(ls.len(), |i: int| literal::child_indent(plain.indent@, plain.prefix@) + ls[i]);
    let mut i: usize = 0;
    assert(seq![head] + all.take(0) =~= seq![head]);
    assert(body@.len() == ls.len());
    while i < body.len()
        invariant
            i <= body@.len(),
            text::texts(body@) == ls,
            body@.len() == all.len(),
            child@ == literal::child_indent(plain.indent@, plain.prefix@),
            all == Seq::new(ls.len(), |i: int| literal::child_indent(plain.indent@, plain.prefix@) + ls[i]),
            out@ == text::join_with(seq![head] + all.take(i as int), seq!['\n']),
        decreases body@.len() - i,
    {
        let ghost before = seq![head] + all.take(i as int);
        let ghost after = seq![head] + all.take(i + 1);
        assert(ls[i as int] == body@[i as int]@);
        out.push('\n');
        out.append(child.as_str());
        out.append(body[i].as_str());
        proof {
            assert(after.drop_last() =~= before);
            assert(after.last() == all[i as int]);
            assert(out@ =~= text::join_with(before, seq!['\n']) + seq!['\n'] + all[i as int]);
        }
        i += 1;
    }
    assert(all.take(all.len() as int) =~= all);
    out
}

} // verus!
