//! The vault format in terms of its primitives: which text is written for a
//! plaintext, and which texts are read.

use vstd::prelude::*;
use vstd::string::*;
use vstd::utf8::*;
use crate::crypto;
use crate::document_laws;
use crate::hexadecimal;
use crate::text;
use crate::vault;
use crate::vault::VaultFailure;

verus! {

broadcast use vstd::string::group_string_axioms;

/// The keys of a password are cut out of what PBKDF2 derives, in 10,000 rounds,
/// from all of the password's bytes and all of the salt: 32 bytes for AES, 32 for
/// HMAC, 16 for the counter.
pub proof fn law_keys_from_whole_password(password: Seq<char>, salt: Seq<u8>)
    ensures
        ({
            let k = crypto::pbkdf2_sha256_bytes(encode_utf8(password), salt, 10_000u32, 80usize);
            &&& vault::key_material(password, salt) == k
            &&& vault::aes_key_of(k) == k.subrange(0, 32)
            &&& vault::hmac_key_of(k) == k.subrange(32, 64)
            &&& vault::iv_of(k) == k.subrange(64, 80)
        }),
{
}

/// The text that `ansible-vault` hides in the body: salt, code and ciphertext.
proof fn lemma_inner(salt: Seq<u8>, mac: Seq<u8>, data: Seq<u8>)
    ensures
        vault::body_digits(salt, mac, data) == hexadecimal::hex_encoded(
            encode_utf8(
                hexadecimal::hex_encoded(salt) + seq!['\n'] + hexadecimal::hex_encoded(mac) + seq!['\n']
                    + hexadecimal::hex_encoded(data),
            ),
        ),
{
}

/// Every text in the format decrypts, whoever wrote it and however its digits are
/// wrapped: a header of version 1.1, or of version 1.2 with a vault id, over lines
/// of digits that hold the salt, the HMAC-SHA256 code of the ciphertext and the
/// ciphertext, which is the padded plaintext under AES-256 in counter mode, all
/// under the keys that PBKDF2 derives from the password.
pub proof fn law_format_decrypts(
    vault_id: Option<Seq<char>>,
    rows: Seq<Seq<char>>,
    salt: Seq<u8>,
    mac: Seq<u8>,
    data: Seq<u8>,
    password: Seq<char>,
    plaintext: Seq<char>,
    pad: nat,
)
    requires
        vault_id matches Some(id) ==> id.len() > 0 && text::one_line(id),
        rows.len() > 0,
        forall|i: int| 0 <= i < rows.len() ==> {
            &&& 0 < (#[trigger] rows[i]).len()
            &&& forall|j: int| 0 <= j < rows[i].len() ==> '0' <= #[trigger] rows[i][j] <= '9' || 'a' <= rows[i][j] <= 'f'
        },
        text::concat(rows) == hexadecimal::hex_encoded(
            encode_utf8(
                hexadecimal::hex_encoded(salt) + seq!['\n'] + hexadecimal::hex_encoded(mac) + seq!['\n']
                    + hexadecimal::hex_encoded(data),
            ),
        ),
        ({
            let k = crypto::pbkdf2_sha256_bytes(encode_utf8(password), salt, 10_000u32, 80usize);
            &&& mac == crypto::hmac_sha256_bytes(k.subrange(32, 64), data)
            &&& 1 <= pad <= 16
            &&& crypto::aes256_ctr_bytes(k.subrange(0, 32), k.subrange(64, 80), data) == encode_utf8(plaintext)
                + Seq::new(pad, |i: int| pad as u8)
        }),
    ensures
        ({
            let header = match vault_id {
                Some(id) => "$ANSIBLE_VAULT;1.2;AES256;"@ + id,
                None => "$ANSIBLE_VAULT;1.1;AES256"@,
            };
            vault::decrypted(text::join_with(seq![header] + rows, seq!['\n']), password) == Ok::<
                Seq<char>,
                VaultFailure,
            >(plaintext)
        }),
{
    let header = match vault_id {
        Some(id) => "$ANSIBLE_VAULT;1.2;AES256;"@ + id,
        None => "$ANSIBLE_VAULT;1.1;AES256"@,
    };
    reveal_strlit("$ANSIBLE_VAULT;1.2;AES256;");
    reveal_strlit("$ANSIBLE_VAULT;1.1;AES256");
    reveal_strlit("$ANSIBLE_VAULT");
    reveal_strlit(";1.2;AES256;");
    reveal_strlit(";1.1;AES256");
    assert("$ANSIBLE_VAULT;1.2;AES256;"@ =~= vault::HEADER@ + ";1.2;AES256;"@);
    assert(header =~= vault::header_line(vault_id));
    vault::lemma_header_reads(vault_id);
    assert forall|i: int| 0 <= i < rows.len() implies {
        &&& 0 < (#[trigger] rows[i]).len()
        &&& forall|j: int| 0 <= j < rows[i].len() ==> vault::is_digit(#[trigger] rows[i][j])
    } by {
    }
    vault::lemma_rows_read_back(header, rows);
    lemma_inner(salt, mac, data);
    vault::lemma_body_reads_back(salt, mac, data);
    law_keys_from_whole_password(password, salt);
    let k = crypto::pbkdf2_sha256_bytes(encode_utf8(password), salt, 10_000u32, 80usize);
    let p = crypto::aes256_ctr_bytes(k.subrange(0, 32), k.subrange(64, 80), data);
    let b = encode_utf8(plaintext);
    encode_utf8_valid_utf8(plaintext);
    encode_utf8_decode_utf8(plaintext);
    assert(p.last() as int == pad);
    assert(p.take(p.len() - pad) =~= b);
}

/// What is written for a plaintext is a text in the format, which `ansible-vault`
/// reads: the header on a line of its own, then the digits in lines of 80, the last
/// of them perhaps shorter. The padding has 1 to 16 bytes and fills the last block.
/// The vault id must not break the header's line.
pub proof fn law_encrypted_text_in_format(
    plaintext: Seq<char>,
    password: Seq<char>,
    vault_id: Option<Seq<char>>,
    salt: Seq<u8>,
)
    requires
        vault_id matches Some(id) ==> text::one_line(id),
    ensures
        ({
            let rows = text::split_on(vault::encrypted(plaintext, password, vault_id, salt), '\n');
            let k = crypto::pbkdf2_sha256_bytes(encode_utf8(password), salt, 10_000u32, 80usize);
            let b = encode_utf8(plaintext);
            let pad = (16 - b.len() % 16) as nat;
            let data = crypto::aes256_ctr_bytes(
                k.subrange(0, 32),
                k.subrange(64, 80),
                b + Seq::new(pad, |i: int| pad as u8),
            );
            let mac = crypto::hmac_sha256_bytes(k.subrange(32, 64), data);
            &&& rows.len() > 1
            &&& rows[0] == (if vault_id is Some && vault_id->0.len() > 0 {
                "$ANSIBLE_VAULT;1.2;AES256;"@ + vault_id->0
            } else {
                "$ANSIBLE_VAULT;1.1;AES256"@
            })
            &&& text::concat(rows.skip(1)) == hexadecimal::hex_encoded(
                encode_utf8(
                    hexadecimal::hex_encoded(salt) + seq!['\n'] + hexadecimal::hex_encoded(mac) + seq!['\n']
                        + hexadecimal::hex_encoded(data),
                ),
            )
            &&& forall|i: int| 1 <= i < rows.len() - 1 ==> (#[trigger] rows[i]).len() == 80
            &&& 0 < rows.last().len() <= 80
        }),
{
    reveal_strlit("$ANSIBLE_VAULT;1.2;AES256;");
    reveal_strlit("$ANSIBLE_VAULT;1.1;AES256");
    reveal_strlit("$ANSIBLE_VAULT");
    reveal_strlit(";1.2;AES256;");
    reveal_strlit(";1.1;AES256");
    assert("$ANSIBLE_VAULT;1.2;AES256;"@ =~= vault::HEADER@ + ";1.2;AES256;"@);
    assert("$ANSIBLE_VAULT;1.1;AES256"@ =~= vault::HEADER@ + ";1.1;AES256"@);
    let h = vault::header_line(vault_id);
    let data = vault::ciphertext(plaintext, password, salt);
    let mac = vault::mac_of(data, password, salt);
    let b = encode_utf8(plaintext);
    let pad = (16 - b.len() % 16) as nat;
    assert(vault::padded(b) =~= b + Seq::new(pad, |i: int| pad as u8));
    law_keys_from_whole_password(password, salt);
    lemma_inner(salt, mac, data);
    let digits = vault::body_digits(salt, mac, data);
    let cs = vault::chunks(digits, vault::WRAP_WIDTH as nat);
    vault::lemma_inner_ascii(salt, mac, data);
    vault::lemma_hex_digits(encode_utf8(vault::inner_text(salt, mac, data)));
    vault::lemma_chunks(digits, vault::WRAP_WIDTH as nat);
    vault::law_body_lines_wrapped(digits);
    let parts = seq![h] + cs;
    assert(text::one_line(h));
    assert forall|i: int| 0 <= i < parts.len() implies text::one_line(#[trigger] parts[i]) by {
        if i > 0 {
            let c = cs[i - 1];
            assert forall|j: int| 0 <= j < c.len() implies c[j] != '\n' by {
                assert(vault::is_digit(c[j]));
            }
        }
    }
    text::lemma_split_join(parts);
    assert(parts.skip(1) =~= cs);
    assert forall|i: int| 1 <= i < parts.len() - 1 implies (#[trigger] parts[i]).len() == 80 by {
        assert(cs[i - 1].len() == vault::WRAP_WIDTH);
    }
    assert(parts.last() == cs[cs.len() - 1]);
}

/// A text decrypts only where its code is that of its ciphertext under the
/// password.
pub proof fn law_success_is_authentic(vaulttext: Seq<char>, password: Seq<char>)
    requires
        vault::decrypted(vaulttext, password) is Ok,
    ensures
        ({
            let payload = vault::payload_of((vault::envelope_of(vaulttext)->Ok_0).body)->Ok_0;
            let k = crypto::pbkdf2_sha256_bytes(encode_utf8(password), payload.salt, 10_000u32, 80usize);
            payload.mac == crypto::hmac_sha256_bytes(k.subrange(32, 64), payload.data)
        }),
{
}

/// A field of a header: no separator, no white space.
pub open spec fn header_field(s: Seq<char>) -> bool {
    s.len() > 0 && forall|i: int| 0 <= i < s.len() ==> #[trigger] s[i] != ';' && !text::is_ws(s[i])
}

/// A version other than 1.1 and 1.2 is refused, and after that a cipher other than
/// AES256, each by its name, whatever the body is and the password.
pub proof fn law_unknown_format_refused(
    version: Seq<char>,
    cipher: Seq<char>,
    body: Seq<char>,
    password: Seq<char>,
)
    requires
        header_field(version),
        header_field(cipher),
        body.len() > 0,
        !text::is_ws(body.last()),
    ensures
        ({
            let t = "$ANSIBLE_VAULT;"@ + version + seq![';'] + cipher + seq!['\n'] + body;
            let r = vault::decrypted(t, password);
            &&& version != "1.1"@ && version != "1.2"@ ==> r == Err::<Seq<char>, VaultFailure>(
                VaultFailure::InvalidFormat("unsupported version "@ + version),
            )
            &&& (version == "1.1"@ || version == "1.2"@) && cipher != "AES256"@ ==> r == Err::<Seq<char>, VaultFailure>(
                VaultFailure::UnsupportedCipher(cipher),
            )
        }),
{
    reveal_strlit("$ANSIBLE_VAULT;");
    reveal_strlit("$ANSIBLE_VAULT");
    let h = "$ANSIBLE_VAULT;"@ + version + seq![';'] + cipher;
    let t = "$ANSIBLE_VAULT;"@ + version + seq![';'] + cipher + seq!['\n'] + body;
    assert(t =~= h.push('\n') + body);
    assert(t.last() == body.last());
    assert(t[0] == '$');
    text::lemma_trim_unchanged(t);
    assert forall|i: int| 0 <= i < h.len() implies !text::is_ws(#[trigger] h[i]) by {
        let n = "$ANSIBLE_VAULT;"@.len() as int;
        if i >= n + version.len() + 1 {
            assert(cipher[i - n - version.len() - 1] == h[i]);
        } else if n <= i < n + version.len() {
            assert(version[i - n] == h[i]);
        }
    }
    assert(!text::is_ws(h[h.len() - 1]));
    assert(text::one_line(h)) by {
        assert forall|i: int| 0 <= i < h.len() implies h[i] != '\n' by {
            assert(!text::is_ws(h[i]));
        }
    }
    text::lemma_lines_append(h, body);
    text::lemma_lines_ended(h);
    assert(text::strip_cr(h) == h) by {
        assert(!text::is_ws(h[h.len() - 1]));
    }
    let lines = text::lines_of(t);
    assert(lines[0] == h);
    text::lemma_trim_unchanged(h);
    let tail = version.push(';') + cipher;
    assert(h =~= vault::HEADER@.push(';') + tail);
    text::lemma_split_first(vault::HEADER@, tail, ';');
    text::lemma_split_first(version, cipher, ';');
    text::lemma_split_none(cipher, ';');
    assert(text::split_on(h, ';') =~= seq![vault::HEADER@, version, cipher]);
}

/// Deciphered bytes give a text only with 1 to 16 bytes of padding, and no more
/// than there are.
pub proof fn law_bad_padding_refused(data: Seq<u8>)
    requires
        data.len() > 0,
        data.last() == 0 || data.last() > 16 || data.last() > data.len(),
    ensures
        vault::unpadded(data) == Err::<Seq<char>, VaultFailure>(VaultFailure::WrongPassword),
{
}

/// A text is vault data exactly where the header stands behind nothing but white
/// space.
pub proof fn law_vault_data_begins_with_header(white: Seq<char>, rest: Seq<char>)
    requires
        text::blank(white),
        rest.len() > 0 ==> !text::is_ws(rest[0]),
    ensures
        vault::is_vault_text(white + rest) == (rest.len() >= 14 && rest.take(14) == "$ANSIBLE_VAULT"@),
{
    reveal_strlit("$ANSIBLE_VAULT");
    let s = white + rest;
    assert forall|i: int| 0 <= i < white.len() implies text::is_ws(#[trigger] s[i]) by {
        assert(text::is_ws(white[i]));
    }
    if rest.len() > 0 {
        assert(s[white.len() as int] == rest[0]);
    }
    text::lemma_indent_len_is(s, white.len() as int);
    assert(s.skip(white.len() as int) =~= rest);
}

/// A header line with these fields.
pub open spec fn header_of(version: Seq<char>, cipher: Seq<char>, vault_id: Option<Seq<char>>) -> Seq<char> {
    "$ANSIBLE_VAULT;"@ + version + seq![';'] + cipher + (match vault_id {
        Some(id) => seq![';'] + id,
        None => seq![],
    })
}

/// The fields of a header line.
proof fn lemma_header_fields(version: Seq<char>, cipher: Seq<char>, vault_id: Option<Seq<char>>)
    requires
        header_field(version),
        header_field(cipher),
        vault_id matches Some(id) ==> !id.contains(';'),
    ensures
        text::split_on(header_of(version, cipher, vault_id), ';') == seq!["$ANSIBLE_VAULT"@, version, cipher] + (
        match vault_id {
            Some(id) => seq![id],
            None => seq![],
        }),
{
    reveal_strlit("$ANSIBLE_VAULT;");
    reveal_strlit("$ANSIBLE_VAULT");
    let h = header_of(version, cipher, vault_id);
    match vault_id {
        Some(id) => {
            let tail = version.push(';') + (cipher.push(';') + id);
            assert(h =~= "$ANSIBLE_VAULT"@.push(';') + tail);
            assert forall|i: int| 0 <= i < id.len() implies id[i] != ';' by {
                assert(id.contains(id[i]));
            }
            text::lemma_split_first("$ANSIBLE_VAULT"@, tail, ';');
            text::lemma_split_first(version, cipher.push(';') + id, ';');
            text::lemma_split_first(cipher, id, ';');
            text::lemma_split_none(id, ';');
            assert(text::split_on(h, ';') =~= seq!["$ANSIBLE_VAULT"@, version, cipher] + seq![id]);
        },
        None => {
            let tail = version.push(';') + cipher;
            assert(h =~= "$ANSIBLE_VAULT"@.push(';') + tail);
            text::lemma_split_first("$ANSIBLE_VAULT"@, tail, ';');
            text::lemma_split_first(version, cipher, ';');
            text::lemma_split_none(cipher, ';');
            assert(text::split_on(h, ';') =~= seq!["$ANSIBLE_VAULT"@, version, cipher] + seq![]);
        },
    }
}

/// A line with white space around what it says.
pub open spec fn spaced(line: Seq<char>, before: Seq<char>, s: Seq<char>, after: Seq<char>) -> bool {
    &&& line == before + s + after
    &&& text::blank(before) && text::blank(after)
    &&& s.len() > 0 && !text::is_ws(s[0]) && !text::is_ws(s.last())
    &&& !line.contains('\n')
}

/// A header over lines is taken apart into its fields and what the lines say: the
/// cipher, the vault id where there is one, and all the lines, one after the other.
/// White space around the text and around each line does not matter.
pub proof fn law_envelope_parts(
    before: Seq<char>,
    version: Seq<char>,
    cipher: Seq<char>,
    vault_id: Option<Seq<char>>,
    rows: Seq<Seq<char>>,
    lefts: Seq<Seq<char>>,
    bodies: Seq<Seq<char>>,
    rights: Seq<Seq<char>>,
    after: Seq<char>,
)
    requires
        version == "1.1"@ || version == "1.2"@,
        header_field(cipher),
        vault_id matches Some(id) ==> id.len() > 0 && !text::is_ws(id.last()) && !id.contains(';') && !id.contains('\n'),
        rows.len() > 0,
        rows.len() == lefts.len() && rows.len() == bodies.len() && rows.len() == rights.len(),
        forall|i: int| 0 <= i < rows.len() ==> spaced(#[trigger] rows[i], lefts[i], bodies[i], rights[i]),
        text::blank(before) && text::blank(after),
    ensures
        ({
            let t = before + text::join_with(seq![header_of(version, cipher, vault_id)] + rows, seq!['\n']) + after;
            let e = vault::envelope_of(t);
            &&& e is Ok
            &&& e->Ok_0.cipher == cipher
            &&& e->Ok_0.vault_id == vault_id
            &&& e->Ok_0.body == text::concat(bodies)
        }),
{
    reveal_strlit("1.1");
    reveal_strlit("1.2");
    assert(header_field(version));
    lemma_header_fields(version, cipher, vault_id);
    lemma_header_ends(version, cipher, vault_id);
    let h = header_of(version, cipher, vault_id);
    lemma_spaced_lines(before, h, rows, lefts, bodies, rights, after);
    let t = before + text::join_with(seq![h] + rows, seq!['\n']) + after;
    let lines = text::lines_of(text::trim_of(t));
    let trims = Seq::new((lines.len() - 1) as nat, |i: int| text::trim_of(lines[i + 1]));
    assert(trims =~= bodies);
}

/// The lines of a header over lines with white space around them.
proof fn lemma_spaced_lines(
    before: Seq<char>,
    h: Seq<char>,
    rows: Seq<Seq<char>>,
    lefts: Seq<Seq<char>>,
    bodies: Seq<Seq<char>>,
    rights: Seq<Seq<char>>,
    after: Seq<char>,
)
    requires
        h.len() > 0 && !text::is_ws(h[0]) && !text::is_ws(h.last()) && text::one_line(h),
        rows.len() > 0,
        rows.len() == lefts.len() && rows.len() == bodies.len() && rows.len() == rights.len(),
        forall|i: int| 0 <= i < rows.len() ==> spaced(#[trigger] rows[i], lefts[i], bodies[i], rights[i]),
        text::blank(before) && text::blank(after),
    ensures
        ({
            let t = before + text::join_with(seq![h] + rows, seq!['\n']) + after;
            let lines = text::lines_of(text::trim_of(t));
            &&& lines.len() == rows.len() + 1
            &&& text::trim_of(lines[0]) == h
            &&& forall|i: int| 0 <= i < rows.len() ==> text::trim_of(lines[i + 1]) == #[trigger] bodies[i]
        }),
{
    let n = rows.len() - 1;
    assert(spaced(rows[n], lefts[n], bodies[n], rights[n]));
    let last = lefts[n] + bodies[n];
    let front = seq![h] + rows.take(n);
    let parts = front.push(last);
    let t = before + text::join_with(seq![h] + rows, seq!['\n']) + after;
    lemma_spaced_trim(before, h, rows, lefts[n], bodies[n], rights[n], after);
    assert forall|i: int| 0 <= i < parts.len() implies text::one_line(#[trigger] parts[i]) by {
        if 0 < i {
            let row = rows[i - 1];
            assert(spaced(row, lefts[i - 1], bodies[i - 1], rights[i - 1]));
            lemma_spaced_one_line(row, lefts[i - 1], bodies[i - 1], rights[i - 1]);
        }
    }
    text::lemma_lines_of_joined(parts);
    let lines = text::lines_of(text::trim_of(t));
    assert(parts.last() == last);
    assert(parts.drop_last() =~= front);
    assert(lines == text::stripped(front).push(last));
    text::lemma_trim_strip_cr(h);
    text::lemma_trim_unchanged(h);
    assert(lines[0] == text::strip_cr(h));
    assert forall|i: int| 0 <= i < rows.len() implies text::trim_of(lines[i + 1]) == #[trigger] bodies[i] by {
        assert(spaced(rows[i], lefts[i], bodies[i], rights[i]));
        lemma_spaced_one_line(rows[i], lefts[i], bodies[i], rights[i]);
        if i < n {
            assert(front[i + 1] == rows[i]);
            assert(lines[i + 1] == text::strip_cr(rows[i]));
        }
    }
}

/// How a line with white space around it reads.
proof fn lemma_spaced_one_line(line: Seq<char>, before: Seq<char>, s: Seq<char>, after: Seq<char>)
    requires
        spaced(line, before, s, after),
    ensures
        text::one_line(line),
        text::one_line(before + s),
        text::trim_of(line) == s,
        text::trim_of(text::strip_cr(line)) == s,
        text::trim_of(before + s) == s,
        (before + s).len() > 0,
{
    assert forall|j: int| 0 <= j < line.len() implies line[j] != '\n' by {
        if line[j] == '\n' {
            assert(line.contains('\n'));
        }
    }
    assert forall|j: int| 0 <= j < (before + s).len() implies (before + s)[j] != '\n' by {
        assert((before + s)[j] == line[j]);
    }
    text::lemma_trim_strip_cr(line);
    document_laws::law_trimmed(before, s, after);
    assert(text::blank(Seq::<char>::empty()));
    document_laws::law_trimmed(before, s, seq![]);
    assert(before + s + seq![] =~= before + s);
}

/// What is left of a text without the white space around it: all but that of its
/// last line.
proof fn lemma_spaced_trim(
    before: Seq<char>,
    h: Seq<char>,
    rows: Seq<Seq<char>>,
    left: Seq<char>,
    body: Seq<char>,
    right: Seq<char>,
    after: Seq<char>,
)
    requires
        h.len() > 0 && !text::is_ws(h[0]),
        rows.len() > 0,
        spaced(rows.last(), left, body, right),
        text::blank(before) && text::blank(after),
    ensures
        text::trim_of(before + text::join_with(seq![h] + rows, seq!['\n']) + after) == text::join_with(
            (seq![h] + rows.take(rows.len() - 1)).push(left + body),
            seq!['\n'],
        ),
{
    let front = seq![h] + rows.take(rows.len() - 1);
    let parts = front.push(left + body);
    let whole = seq![h] + rows;
    let core = text::join_with(parts, seq!['\n']);
    let tail = right + after;
    assert(whole.drop_last() =~= front);
    assert(parts.drop_last() =~= front);
    assert(whole.last() == rows.last());
    assert(text::join_with(whole, seq!['\n']) =~= core + right);
    assert(before + text::join_with(whole, seq!['\n']) + after =~= before + core + tail);
    assert forall|i: int| 0 <= i < tail.len() implies text::is_ws(#[trigger] tail[i]) by {
        if i < right.len() {
            assert(text::is_ws(right[i]));
        } else {
            assert(text::is_ws(after[i - right.len()]));
        }
    }
    text::lemma_join_prefix(parts, seq!['\n']);
    assert(parts[0] == h);
    assert(core.take(h.len() as int)[0] == core[0]);
    assert(core.last() == body.last());
    document_laws::law_trimmed(before, core, tail);
}

/// A header line is one line with no white space around it.
proof fn lemma_header_ends(version: Seq<char>, cipher: Seq<char>, vault_id: Option<Seq<char>>)
    requires
        header_field(version),
        header_field(cipher),
        vault_id matches Some(id) ==> id.len() > 0 && !text::is_ws(id.last()) && !id.contains('\n'),
    ensures
        ({
            let h = header_of(version, cipher, vault_id);
            &&& h.len() > 0 && h[0] == '$' && !text::is_ws(h.last())
            &&& text::one_line(h)
        }),
{
    reveal_strlit("$ANSIBLE_VAULT;");
    let h = header_of(version, cipher, vault_id);
    let n = "$ANSIBLE_VAULT;"@.len() as int;
    assert(!text::is_ws(cipher[cipher.len() - 1]));
    assert forall|i: int| 0 <= i < h.len() implies h[i] != '\n' by {
        if n <= i < n + version.len() {
            assert(!text::is_ws(version[i - n]));
        } else if n + version.len() < i < n + version.len() + 1 + cipher.len() {
            assert(!text::is_ws(cipher[i - n - version.len() - 1]));
        } else if i > n + version.len() + 1 + cipher.len() {
            let id = vault_id->0;
            assert(id.contains(id[i - n - version.len() - cipher.len() - 2]));
        }
    }
}

/// A text that is blank is told to be empty. One whose first line is no header, or
/// has fewer than three fields, is told to have a bad one.
pub proof fn law_bad_header_refused(
    blank: Seq<char>,
    first: Seq<char>,
    rest: Seq<char>,
    password: Seq<char>,
)
    requires
        text::blank(blank),
        first.len() > 0 && !text::is_ws(first[0]) && !text::is_ws(first.last()) && !first.contains('\n'),
        rest.len() > 0 && !text::is_ws(rest.last()),
        !"$ANSIBLE_VAULT;"@.is_prefix_of(first) || (forall|i: int| 15 <= i < first.len() ==> first[i] != ';'),
    ensures
        vault::decrypted(blank, password) == Err::<Seq<char>, VaultFailure>(VaultFailure::InvalidFormat("empty input"@)),
        vault::decrypted(first.push('\n') + rest, password) == Err::<Seq<char>, VaultFailure>(
            VaultFailure::InvalidFormat("bad header"@),
        ),
{
    reveal_strlit("$ANSIBLE_VAULT;");
    reveal_strlit("$ANSIBLE_VAULT");
    text::lemma_trim_blank(blank);
    let t = first.push('\n') + rest;
    assert(t.last() == rest.last());
    text::lemma_trim_unchanged(t);
    assert forall|i: int| 0 <= i < first.len() implies first[i] != '\n' by {
        assert(first.contains(first[i]));
    }
    text::lemma_lines_append(first, rest);
    text::lemma_lines_ended(first);
    assert(text::strip_cr(first) == first);
    text::lemma_trim_unchanged(first);
    let parts = text::split_on(first, ';');
    assert(text::lines_of(t)[0] == first);
    // A first field that is the header's name has a separator behind it.
    text::lemma_find_char(first, ';');
    let i = text::find_char(first, ';');
    if parts.len() >= 3 && parts[0] == vault::HEADER@ {
        assert(i < first.len());
        assert(parts[0] == first.take(i));
        assert(i == 14);
        assert(first.take(15) =~= "$ANSIBLE_VAULT;"@);
        assert(first.subrange(0, 15) =~= "$ANSIBLE_VAULT;"@);
        let tail = first.skip(15);
        assert(first =~= vault::HEADER@.push(';') + tail);
        assert forall|j: int| 0 <= j < tail.len() implies tail[j] != ';' by {
            assert(tail[j] == first[j + 15]);
        }
        text::lemma_split_first(vault::HEADER@, tail, ';');
        text::lemma_split_none(tail, ';');
        assert(false);
    }
}

/// The bytes of a payload come back from its body, and the body is refused where it
/// has an odd number of digits or something else than digits.
pub proof fn law_payload_read(salt: Seq<u8>, mac: Seq<u8>, data: Seq<u8>, body: Seq<char>, i: int)
    requires
        0 <= i < encode_utf8(body).len(),
    ensures
        vault::payload_of(
            hexadecimal::hex_encoded(
                encode_utf8(
                    hexadecimal::hex_encoded(salt) + seq!['\n'] + hexadecimal::hex_encoded(mac) + seq!['\n']
                        + hexadecimal::hex_encoded(data),
                ),
            ),
        ) == Ok::<vault::PayloadBytes, VaultFailure>(vault::PayloadBytes { salt, mac, data }),
        encode_utf8(body).len() % 2 == 1 ==> vault::payload_of(body) == Err::<vault::PayloadBytes, VaultFailure>(
            VaultFailure::InvalidFormat("Odd number of digits"@),
        ),
        ({
            let b = encode_utf8(body)[i];
            !(0x30 <= b <= 0x39 || 0x41 <= b <= 0x46 || 0x61 <= b <= 0x66)
        }) ==> vault::payload_of(body) is Err,
{
    lemma_inner(salt, mac, data);
    vault::lemma_body_reads_back(salt, mac, data);
    let bytes = encode_utf8(body);
    lemma_first_non_digit(bytes, i);
}

/// The first byte that is no digit is not behind one that is none.
proof fn lemma_first_non_digit(b: Seq<u8>, i: int)
    requires
        0 <= i < b.len(),
    ensures
        hexadecimal::digit_value(b[i]) is None ==> hexadecimal::first_non_digit(b) <= i,
    decreases b.len(),
{
    if i > 0 && hexadecimal::digit_value(b[0]) is Some {
        lemma_first_non_digit(b.skip(1), i - 1);
    }
}

/// A payload is only deciphered where its code is that of its ciphertext under the
/// password; every other is told to have a wrong password, whatever it holds.
pub proof fn law_wrong_code_refused(payload: vault::PayloadBytes, password: Seq<char>)
    ensures
        ({
            let k = crypto::pbkdf2_sha256_bytes(encode_utf8(password), payload.salt, 10_000u32, 80usize);
            let deciphered = crypto::aes256_ctr_bytes(k.subrange(0, 32), k.subrange(64, 80), payload.data);
            &&& payload.mac != crypto::hmac_sha256_bytes(k.subrange(32, 64), payload.data) ==> vault::opened(
                payload,
                password,
            ) == Err::<Seq<char>, VaultFailure>(VaultFailure::WrongPassword)
            &&& payload.mac == crypto::hmac_sha256_bytes(k.subrange(32, 64), payload.data) ==> vault::opened(
                payload,
                password,
            ) == vault::unpadded(deciphered)
        }),
{
}

/// The last byte tells how many bytes the padding has; what stands before those is
/// the text, all of it. Bytes that are not UTF-8 are told to be that, and no bytes
/// at all to be none.
pub proof fn law_padding_taken_off(plaintext: Seq<char>, kept: Seq<u8>, junk: Seq<u8>)
    requires
        junk.len() < 16,
    ensures
        vault::unpadded((encode_utf8(plaintext) + junk).push((junk.len() + 1) as u8)) == Ok::<Seq<char>, VaultFailure>(
            plaintext,
        ),
        !valid_utf8(kept) ==> vault::unpadded((kept + junk).push((junk.len() + 1) as u8)) == Err::<
            Seq<char>,
            VaultFailure,
        >(VaultFailure::Utf8),
        vault::unpadded(seq![]) == Err::<Seq<char>, VaultFailure>(VaultFailure::InvalidFormat("empty payload"@)),
{
    let b = encode_utf8(plaintext);
    encode_utf8_valid_utf8(plaintext);
    encode_utf8_decode_utf8(plaintext);
    let n = (junk.len() + 1) as u8;
    let p = (b + junk).push(n);
    assert(p.take(p.len() - n) =~= b);
    let q = (kept + junk).push(n);
    assert(q.take(q.len() - n) =~= kept);
}

/// Without a password to try, the password is told to be wrong.
pub proof fn law_no_password_to_try(vaulttext: Seq<char>)
    ensures
        vault::decrypted_any(vaulttext, seq![]) == Err::<Seq<char>, VaultFailure>(VaultFailure::WrongPassword),
{
}

/// What is said to the user of each failure.
pub proof fn law_failures_told(m: Seq<char>)
    ensures
        vault::failure_message(VaultFailure::InvalidFormat(m)) == "invalid vault format: "@ + m,
        vault::failure_message(VaultFailure::UnsupportedCipher(m)) == "unsupported vault cipher: "@ + m,
        vault::failure_message(VaultFailure::WrongPassword) == "HMAC verification failed (wrong vault password?)"@,
        vault::failure_message(VaultFailure::Utf8) == "decrypted payload is not valid UTF-8"@,
{
}

/// The numbers of the format.
pub proof fn law_format_numbers()
    ensures
        vault::HEADER@ == "$ANSIBLE_VAULT"@,
        vault::ITERATIONS == 10_000,
        vault::SALT_LEN == 32,
        vault::BLOCK == 16,
        vault::WRAP_WIDTH == 80,
{
}

/// The header line names the vault id as it is, where there is one that is not
/// empty, in version 1.2; in version 1.1 it has none.
pub proof fn law_header_names_id(id: Seq<char>)
    requires
        id.len() > 0,
    ensures
        vault::header_line(Some(id)) == "$ANSIBLE_VAULT;1.2;AES256;"@ + id,
        vault::header_line(Some(seq![])) == "$ANSIBLE_VAULT;1.1;AES256"@,
        vault::header_line(None) == "$ANSIBLE_VAULT;1.1;AES256"@,
{
    reveal_strlit("$ANSIBLE_VAULT;1.2;AES256;");
    reveal_strlit("$ANSIBLE_VAULT;1.1;AES256");
    reveal_strlit("$ANSIBLE_VAULT");
    reveal_strlit(";1.2;AES256;");
    reveal_strlit(";1.1;AES256");
    assert("$ANSIBLE_VAULT;1.2;AES256;"@ + id =~= vault::HEADER@ + ";1.2;AES256;"@ + id);
    assert("$ANSIBLE_VAULT;1.1;AES256"@ =~= vault::HEADER@ + ";1.1;AES256"@);
}

/// The vault text of any salt, code and ciphertext is the header's line, and under
/// it the digits that hold all three, in lines of 80, the last perhaps shorter, with
/// nothing behind.
pub proof fn law_envelope_written(vault_id: Option<Seq<char>>, salt: Seq<u8>, mac: Seq<u8>, data: Seq<u8>)
    ensures
        exists|rows: Seq<Seq<char>>|
            {
                &&& vault::envelope_text(vault_id, salt, mac, data) == #[trigger] text::join_with(
                    seq![vault::header_line(vault_id)] + rows,
                    seq!['\n'],
                )
                &&& rows.len() > 0
                &&& text::concat(rows) == hexadecimal::hex_encoded(
                    encode_utf8(
                        hexadecimal::hex_encoded(salt) + seq!['\n'] + hexadecimal::hex_encoded(mac) + seq!['\n']
                            + hexadecimal::hex_encoded(data),
                    ),
                )
                &&& forall|i: int| 0 <= i < rows.len() - 1 ==> (#[trigger] rows[i]).len() == 80
                &&& 0 < rows.last().len() <= 80
            },
{
    lemma_inner(salt, mac, data);
    let digits = vault::body_digits(salt, mac, data);
    vault::lemma_inner_ascii(salt, mac, data);
    vault::lemma_hex_digits(encode_utf8(vault::inner_text(salt, mac, data)));
    vault::lemma_chunks(digits, vault::WRAP_WIDTH as nat);
    vault::law_body_lines_wrapped(digits);
    let rows = vault::chunks(digits, 80);
    assert(vault::envelope_text(vault_id, salt, mac, data) == text::join_with(
        seq![vault::header_line(vault_id)] + rows,
        seq!['\n'],
    ));
    assert(rows.last() == rows[rows.len() - 1]);
}

/// Digits may be of either case: texts that differ in nothing else hold the same
/// payload.
pub proof fn law_digits_of_either_case(s: Seq<char>, t: Seq<char>)
    requires
        s.len() == t.len(),
        forall|i: int|
            0 <= i < s.len() ==> (#[trigger] s[i] == t[i] && ('0' <= s[i] <= '9' || 'a' <= s[i] <= 'f' || 'A' <= s[i] <= 'F'))
                || ('a' <= s[i] <= 'f' && t[i] as int == s[i] as int - 32),
    ensures
        vault::payload_of(s) == vault::payload_of(t),
        vault::digits_of(s) == vault::digits_of(t),
{
    assert forall|i: int| 0 <= i < s.len() implies '\0' <= #[trigger] s[i] <= '\u{7f}' by {
    }
    assert forall|i: int| 0 <= i < t.len() implies '\0' <= #[trigger] t[i] <= '\u{7f}' by {
        assert('\0' <= s[i] <= '\u{7f}');
        assert(s[i] == t[i] || t[i] as int == s[i] as int - 32);
    }
    assert(is_ascii_chars(s));
    assert(is_ascii_chars(t));
    is_ascii_chars_encode_utf8(s);
    is_ascii_chars_encode_utf8(t);
    let a = encode_utf8(s);
    let b = encode_utf8(t);
    assert forall|i: int| 0 <= i < a.len() implies hexadecimal::digit_value(#[trigger] a[i]) == hexadecimal::digit_value(b[i])
        && hexadecimal::digit_value(a[i]) is Some by {
        assert(a[i] == s[i] as u8);
        assert(b[i] == t[i] as u8);
    }
    assert forall|i: int| 0 <= i < b.len() implies hexadecimal::digit_value(#[trigger] b[i]) is Some by {
        assert(hexadecimal::digit_value(a[i]) is Some);
    }
    lemma_all_digits(a);
    lemma_all_digits(b);
    if a.len() % 2 == 0 {
        let x = hexadecimal::hex_decoded(a)->Ok_0;
        let y = hexadecimal::hex_decoded(b)->Ok_0;
        assert forall|k: int| 0 <= k < x.len() implies x[k] == y[k] by {
            assert(hexadecimal::digit_value(a[2 * k]) == hexadecimal::digit_value(b[2 * k]));
            assert(hexadecimal::digit_value(a[2 * k + 1]) == hexadecimal::digit_value(b[2 * k + 1]));
        }
        assert(x =~= y);
    }
}

proof fn lemma_all_digits(b: Seq<u8>)
    requires
        forall|i: int| 0 <= i < b.len() ==> hexadecimal::digit_value(#[trigger] b[i]) is Some,
    ensures
        hexadecimal::first_non_digit(b) == b.len(),
    decreases b.len(),
{
    if b.len() > 0 {
        assert(hexadecimal::digit_value(b[0]) is Some);
        let rest = b.skip(1);
        assert forall|i: int| 0 <= i < rest.len() implies hexadecimal::digit_value(#[trigger] rest[i]) is Some by {
            assert(rest[i] == b[i + 1]);
        }
        lemma_all_digits(rest);
    }
}

/// What is read of a payload are its first three lines; what follows them does not
/// matter.
pub proof fn law_payload_lines(salt: Seq<u8>, mac: Seq<u8>, data: Seq<u8>, more: Seq<char>)
    ensures
        vault::inner_payload(
            hexadecimal::hex_encoded(salt) + seq!['\n'] + hexadecimal::hex_encoded(mac) + seq!['\n']
                + hexadecimal::hex_encoded(data) + seq!['\n'] + more,
        ) == Ok::<vault::PayloadBytes, VaultFailure>(vault::PayloadBytes { salt, mac, data }),
{
    let a = hexadecimal::hex_encoded(salt);
    let b = hexadecimal::hex_encoded(mac);
    let c = hexadecimal::hex_encoded(data);
    vault::lemma_hex_digits(salt);
    vault::lemma_hex_digits(mac);
    vault::lemma_hex_digits(data);
    let inner = a + seq!['\n'] + b + seq!['\n'] + c + seq!['\n'] + more;
    assert(inner =~= a.push('\n') + (b.push('\n') + (c.push('\n') + more)));
    assert forall|i: int| 0 <= i < a.len() implies a[i] != '\n' by {
        assert(vault::is_digit(a[i]));
    }
    assert forall|i: int| 0 <= i < b.len() implies b[i] != '\n' by {
        assert(vault::is_digit(b[i]));
    }
    assert forall|i: int| 0 <= i < c.len() implies c[i] != '\n' by {
        assert(vault::is_digit(c[i]));
    }
    text::lemma_split_first(a, b.push('\n') + (c.push('\n') + more), '\n');
    text::lemma_split_first(b, c.push('\n') + more, '\n');
    text::lemma_split_first(c, more, '\n');
}

/// A text decrypts as its payload does, where its cipher is AES256; what is wrong
/// with the outer layer or with the payload is told as it is.
pub proof fn law_decryption_in_layers(vaulttext: Seq<char>, password: Seq<char>)
    ensures
        ({
            let e = vault::envelope_of(vaulttext);
            let p = vault::payload_of(e->Ok_0.body);
            let r = vault::decrypted(vaulttext, password);
            &&& e is Err ==> r == Err::<Seq<char>, VaultFailure>(e->Err_0)
            &&& e is Ok && e->Ok_0.cipher != "AES256"@ ==> r == Err::<Seq<char>, VaultFailure>(
                VaultFailure::UnsupportedCipher(e->Ok_0.cipher),
            )
            &&& e is Ok && e->Ok_0.cipher == "AES256"@ && p is Err ==> r == Err::<Seq<char>, VaultFailure>(p->Err_0)
            &&& e is Ok && e->Ok_0.cipher == "AES256"@ && p is Ok ==> r == vault::opened(p->Ok_0, password)
        }),
{
}

} // verus!
