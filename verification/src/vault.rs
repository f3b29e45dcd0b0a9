//! The Ansible Vault 1.1 / 1.2 payload format.
//!
//! - header: `$ANSIBLE_VAULT;1.1;AES256`, or `$ANSIBLE_VAULT;1.2;AES256;<vault-id>`
//! - body: the hexadecimal text of `hex(salt) \n hex(mac) \n hex(ciphertext)`,
//!   in lines of 80 digits
//! - keys: PBKDF2-HMAC-SHA256 of the password and the salt, 10000 rounds, 80
//!   bytes: 32 for the cipher, 32 for the code, 16 for the counter
//! - cipher: AES-256 in counter mode over the plaintext with PKCS#7 padding
//! - code: HMAC-SHA256 over the ciphertext

use vstd::prelude::*;
use vstd::string::*;
use vstd::utf8::*;
use crate::crypto;
use crate::crypto::{aes256_ctr, hmac_sha256, hmac_sha256_verifies, pbkdf2_sha256, random_bytes};
use crate::hexadecimal;
use crate::hexadecimal::{hex_decode, hex_encode, hex_error_text};
use crate::text;
use crate::text::{chars_of, has_prefix, joined, lines, same_text, split, text_of, trim, trim_start, utf8_text};

verus! {

broadcast use vstd::string::group_string_axioms;

/// What every vault text begins with.
pub const HEADER: &'static str = "$ANSIBLE_VAULT";

/// The rounds of the key derivation.
pub const ITERATIONS: u32 = 10_000;

/// The bytes of a salt.
pub const SALT_LEN: usize = 32;

/// The block size of the cipher, to which plaintext is padded.
pub const BLOCK: usize = 16;

/// The digits in a full line of the body.
pub const WRAP_WIDTH: usize = 80;

/// Why a vault text could not be decrypted.
#[derive(Debug)]
pub enum VaultError {
    InvalidFormat(String),
    UnsupportedCipher(String),
    WrongPassword,
    Utf8,
}

/// A `VaultError` with texts for strings.
pub enum VaultFailure {
    InvalidFormat(Seq<char>),
    UnsupportedCipher(Seq<char>),
    WrongPassword,
    Utf8,
}

impl View for VaultError {
    type V = VaultFailure;

    open spec fn view(&self) -> VaultFailure {
        match *self {
            VaultError::InvalidFormat(m) => VaultFailure::InvalidFormat(m@),
            VaultError::UnsupportedCipher(c) => VaultFailure::UnsupportedCipher(c@),
            VaultError::WrongPassword => VaultFailure::WrongPassword,
            VaultError::Utf8 => VaultFailure::Utf8,
        }
    }
}

/// The outcome of a decryption, with texts for strings.
pub open spec fn outcome(r: Result<String, VaultError>) -> Result<Seq<char>, VaultFailure> {
    match r {
        Ok(s) => Ok(s@),
        Err(e) => Err(e@),
    }
}

/// What is said to the user of a failure.
pub open spec fn failure_message(f: VaultFailure) -> Seq<char> {
    match f {
        VaultFailure::InvalidFormat(m) => "invalid vault format: "@ + m,
        VaultFailure::UnsupportedCipher(c) => "unsupported vault cipher: "@ + c,
        VaultFailure::WrongPassword => "HMAC verification failed (wrong vault password?)"@,
        VaultFailure::Utf8 => "decrypted payload is not valid UTF-8"@,
    }
}

impl VaultError {
    /// What is said to the user of this error.
    pub fn message(&self) -> (r: String)
        ensures
            r@ == failure_message(self@),
    {
        match self {
            VaultError::InvalidFormat(m) => joined("invalid vault format: ", m.as_str()),
            VaultError::UnsupportedCipher(c) => joined("unsupported vault cipher: ", c.as_str()),
            VaultError::WrongPassword => "HMAC verification failed (wrong vault password?)".to_owned(),
            VaultError::Utf8 => "decrypted payload is not valid UTF-8".to_owned(),
        }
    }
}

// ---------------------------------------------------------------------------
// Recognising vault text
// ---------------------------------------------------------------------------

/// `s` begins, after white space, with the vault header.
pub open spec fn is_vault_text(s: Seq<char>) -> bool {
    text::starts_with(text::trim_start_of(s), HEADER@)
}

/// Whether `s` begins, after white space, with the vault header.
pub fn is_vault_data(s: &str) -> (r: bool)
    ensures
        r == is_vault_text(s@),
{
    let t: String = trim_start(s);
    has_prefix(t.as_str(), HEADER)
}

// ---------------------------------------------------------------------------
// Keys
// ---------------------------------------------------------------------------

/// The three keys of one password and salt.
pub struct Keys {
    /// The AES key, 32 bytes.
    pub aes_key: Vec<u8>,
    /// The HMAC key, 32 bytes.
    pub hmac_key: Vec<u8>,
    /// The counter start, 16 bytes.
    pub iv: Vec<u8>,
}

/// The key material of a password and a salt.
pub open spec fn key_material(password: Seq<char>, salt: Seq<u8>) -> Seq<u8> {
    crypto::pbkdf2_sha256_bytes(encode_utf8(password), salt, ITERATIONS, 80)
}

/// The AES key in key material.
pub open spec fn aes_key_of(material: Seq<u8>) -> Seq<u8> {
    material.subrange(0, 32)
}

/// The HMAC key in key material.
pub open spec fn hmac_key_of(material: Seq<u8>) -> Seq<u8> {
    material.subrange(32, 64)
}

/// The counter start in key material.
pub open spec fn iv_of(material: Seq<u8>) -> Seq<u8> {
    material.subrange(64, 80)
}

/// A copy of `v[from..to]`.
fn bytes_between(v: &[u8], from: usize, to: usize) -> (r: Vec<u8>)
    requires
        from <= to <= v@.len(),
    ensures
        r@ == v@.subrange(from as int, to as int),
{
    let mut r: Vec<u8> = Vec::new();
    let mut i: usize = from;
    while i < to
        invariant
            from <= i <= to <= v@.len(),
            r@ == v@.subrange(from as int, i as int),
        decreases to - i,
    {
        r.push(v[i]);
        assert(v@.subrange(from as int, i + 1) =~= v@.subrange(from as int, i as int).push(v@[i as int]));
        i += 1;
    }
    r
}

/// Cuts 80 bytes of key material into its three keys.
pub fn split_keys(material: &[u8]) -> (r: Keys)
    requires
        material@.len() == 80,
    ensures
        r.aes_key@ == aes_key_of(material@),
        r.hmac_key@ == hmac_key_of(material@),
        r.iv@ == iv_of(material@),
        r.aes_key@.len() == 32 && r.hmac_key@.len() == 32 && r.iv@.len() == 16,
        r.aes_key@ + r.hmac_key@ + r.iv@ == material@,
{
    Keys {
        aes_key: bytes_between(material, 0, 32),
        hmac_key: bytes_between(material, 32, 64),
        iv: bytes_between(material, 64, 80),
    }
}

/// The keys of a password and a salt.
pub fn derive_keys(password: &str, salt: &[u8]) -> (r: Keys)
    ensures
        key_material(password@, salt@).len() == 80,
        r.aes_key@ == aes_key_of(key_material(password@, salt@)),
        r.hmac_key@ == hmac_key_of(key_material(password@, salt@)),
        r.iv@ == iv_of(key_material(password@, salt@)),
        r.aes_key@.len() == 32 && r.hmac_key@.len() == 32 && r.iv@.len() == 16,
        r.aes_key@ + r.hmac_key@ + r.iv@ == crypto::pbkdf2_sha256_bytes(
            encode_utf8(password@),
            salt@,
            10_000u32,
            80usize,
        ),
{
    let derived: Vec<u8> = pbkdf2_sha256(password.as_bytes(), salt, ITERATIONS, 80);
    split_keys(derived.as_slice())
}

// ---------------------------------------------------------------------------
// Encryption
// ---------------------------------------------------------------------------

/// The number of padding bytes for `n` bytes of plaintext: 1 to 16.
pub open spec fn pad_len(n: nat) -> nat {
    (BLOCK - n % (BLOCK as nat)) as nat
}

/// PKCS#7 padding: each padding byte holds their number.
pub open spec fn padded(b: Seq<u8>) -> Seq<u8> {
    b + Seq::new(pad_len(b.len()), |i: int| pad_len(b.len()) as u8)
}

/// The ciphertext of a plaintext under a password and salt.
pub open spec fn ciphertext(plaintext: Seq<char>, password: Seq<char>, salt: Seq<u8>) -> Seq<u8> {
    let keys = key_material(password, salt);
    crypto::aes256_ctr_bytes(aes_key_of(keys), iv_of(keys), padded(encode_utf8(plaintext)))
}

/// The code of a ciphertext under a password and salt.
pub open spec fn mac_of(data: Seq<u8>, password: Seq<char>, salt: Seq<u8>) -> Seq<u8> {
    crypto::hmac_sha256_bytes(hmac_key_of(key_material(password, salt)), data)
}

/// The header line: version 1.2 with a vault id that is not empty, else 1.1.
pub open spec fn header_line(vault_id: Option<Seq<char>>) -> Seq<char> {
    match vault_id {
        Some(id) => if id.len() > 0 {
            HEADER@ + ";1.2;AES256;"@ + id
        } else {
            HEADER@ + ";1.1;AES256"@
        },
        None => HEADER@ + ";1.1;AES256"@,
    }
}

/// `s` cut into pieces of `width` characters; the last may be shorter.
pub open spec fn chunks(s: Seq<char>, width: nat) -> Seq<Seq<char>>
    decreases s.len(),
{
    if s.len() == 0 || width == 0 {
        seq![]
    } else if s.len() <= width {
        seq![s]
    } else {
        seq![s.take(width as int)] + chunks(s.skip(width as int), width)
    }
}

/// The text inside the body: salt, code and ciphertext, each in hexadecimal.
pub open spec fn inner_text(salt: Seq<u8>, mac: Seq<u8>, data: Seq<u8>) -> Seq<char> {
    hexadecimal::hex_encoded(salt) + seq!['\n'] + hexadecimal::hex_encoded(mac) + seq!['\n'] + hexadecimal::hex_encoded(data)
}

/// The body of a vault text, before it is cut into lines.
pub open spec fn body_digits(salt: Seq<u8>, mac: Seq<u8>, data: Seq<u8>) -> Seq<char> {
    hexadecimal::hex_encoded(encode_utf8(inner_text(salt, mac, data)))
}

/// The vault text of a salt, a code and a ciphertext: the header line and the
/// body's lines, with line feeds between them and none at the end.
pub open spec fn envelope_text(vault_id: Option<Seq<char>>, salt: Seq<u8>, mac: Seq<u8>, data: Seq<u8>) -> Seq<char> {
    text::join_with(
        seq![header_line(vault_id)] + chunks(body_digits(salt, mac, data), WRAP_WIDTH as nat),
        seq!['\n'],
    )
}

/// The vault text of a plaintext.
pub open spec fn encrypted(
    plaintext: Seq<char>,
    password: Seq<char>,
    vault_id: Option<Seq<char>>,
    salt: Seq<u8>,
) -> Seq<char> {
    let data = ciphertext(plaintext, password, salt);
    envelope_text(vault_id, salt, mac_of(data, password, salt), data)
}

/// The vault text of a salt, a code and a ciphertext. Its body must fit in one
/// allocation.
pub fn seal_envelope(vault_id: Option<&str>, salt: &[u8], mac: &[u8], data: &[u8]) -> (r: String)
    requires
        4 * (salt@.len() + mac@.len() + data@.len() + 1) <= isize::MAX,
    ensures
        r@ == envelope_text(text::opt_str_text(vault_id), salt@, mac@, data@),
{
    let mut inner: String = hex_encode(salt);
    inner.push('\n');
    let mac_digits: String = hex_encode(mac);
    inner.append(mac_digits.as_str());
    inner.push('\n');
    let data_digits: String = hex_encode(data);
    inner.append(data_digits.as_str());
    proof {
        assert(inner@ =~= inner_text(salt@, mac@, data@));
        lemma_inner_ascii(salt@, mac@, data@);
    }
    let outer: String = hex_encode(inner.as_str().as_bytes());
    let mut out: String = HEADER.to_owned();
    match vault_id {
        Some(id) => if id.is_empty() {
            out.append(";1.1;AES256");
        } else {
            out.append(";1.2;AES256;");
            out.append(id);
        },
        None => {
            out.append(";1.1;AES256");
        },
    }
    assert(out@ =~= header_line(text::opt_str_text(vault_id)));
    let digits: Vec<char> = chars_of(outer.as_str());
    let ghost header = out@;
    let ghost mut done: Seq<Seq<char>> = seq![];
    let mut start: usize = 0;
    proof {
        assert(digits@.skip(0) =~= digits@);
        assert(seq![header] + done =~= seq![header]);
        assert(done + chunks(digits@, WRAP_WIDTH as nat) =~= chunks(digits@, WRAP_WIDTH as nat));
    }
    while start < digits.len()
        invariant
            start <= digits@.len(),
            out@ == text::join_with(seq![header] + done, seq!['\n']),
            done + chunks(digits@.skip(start as int), WRAP_WIDTH as nat) == chunks(digits@, WRAP_WIDTH as nat),
        decreases digits@.len() - start,
    {
        let end: usize = if digits.len() - start <= WRAP_WIDTH {
            digits.len()
        } else {
            start + WRAP_WIDTH
        };
        let line: String = text_of(&digits, start, end);
        out.push('\n');
        out.append(line.as_str());
        proof {
            let rest = digits@.skip(start as int);
            let before = done;
            done = done.push(line@);
            assert((seq![header] + done).drop_last() =~= seq![header] + before);
            assert((seq![header] + done).last() == line@);
            assert(out@ =~= text::join_with(seq![header] + before, seq!['\n']) + seq!['\n'] + line@);
            if rest.len() <= WRAP_WIDTH {
                assert(line@ =~= rest);
                assert(digits@.skip(end as int) =~= seq![]);
                assert(done + chunks(digits@.skip(end as int), WRAP_WIDTH as nat) =~= before + seq![rest]);
            } else {
                assert(rest.take(WRAP_WIDTH as int) =~= line@);
                assert(rest.skip(WRAP_WIDTH as int) =~= digits@.skip(end as int));
                assert(done + chunks(digits@.skip(end as int), WRAP_WIDTH as nat) =~= before + (seq![line@] + chunks(
                    digits@.skip(end as int),
                    WRAP_WIDTH as nat,
                )));
            }
        }
        start = end;
    }
    proof {
        assert(digits@.skip(start as int) =~= seq![]);
        assert(done + chunks(digits@.skip(start as int), WRAP_WIDTH as nat) =~= done);
    }
    out
}

/// The inner text is ASCII, so it has as many bytes as characters.
pub proof fn lemma_inner_ascii(salt: Seq<u8>, mac: Seq<u8>, data: Seq<u8>)
    ensures
        is_ascii_chars(inner_text(salt, mac, data)),
        encode_utf8(inner_text(salt, mac, data)).len() == 2 * (salt.len() + mac.len() + data.len() + 1),
{
    let t = inner_text(salt, mac, data);
    assert forall|i: int| 0 <= i < t.len() implies '\0' <= #[trigger] t[i] <= '\u{7f}' by {
        let a = 2 * salt.len();
        let b = 2 * mac.len();
        if i < a {
            hexadecimal::lemma_hex_encoded_digit(salt, i);
        } else if a < i < a + 1 + b {
            hexadecimal::lemma_hex_encoded_digit(mac, i - a - 1);
        } else if i > a + b + 1 {
            hexadecimal::lemma_hex_encoded_digit(data, i - a - b - 2);
        }
    }
    is_ascii_chars_encode_utf8(t);
}

/// The plaintext with its PKCS#7 padding.
fn pad(plaintext: &str) -> (r: Vec<u8>)
    ensures
        r@ == padded(encode_utf8(plaintext@)),
{
    let mut data: Vec<u8> = plaintext.as_bytes_vec();
    let ghost bytes = data@;
    let n: usize = BLOCK - data.len() % BLOCK;
    let mut i: usize = 0;
    while i < n
        invariant
            n == pad_len(bytes.len()),
            1 <= n <= 16,
            i <= n,
            data@ == bytes + Seq::new(i as nat, |j: int| n as u8),
        decreases n - i,
    {
        data.push(n as u8);
        assert(data@ =~= bytes + Seq::new((i + 1) as nat, |j: int| n as u8));
        i += 1;
    }
    assert(data@ =~= padded(bytes));
    data
}

/// The vault text of `plaintext` under `password` with a given salt. With the
/// same password it decrypts to `plaintext` again, whatever the salt, unless the
/// vault id puts more than white space on lines of its own. The result must fit
/// in one allocation.
pub fn encrypt_with_salt(plaintext: &str, password: &str, vault_id: Option<&str>, salt: &[u8]) -> (r: String)
    requires
        4 * (salt@.len() + encode_utf8(plaintext@).len() + 49) <= isize::MAX,
    ensures
        r@ == encrypted(plaintext@, password@, text::opt_str_text(vault_id), salt@),
        id_keeps_body(text::opt_str_text(vault_id)) ==> decrypted(r@, password@) == Ok::<Seq<char>, VaultFailure>(
            plaintext@,
        ),
        ciphertext(plaintext@, password@, salt@).len() == BLOCK * (encode_utf8(plaintext@).len() / (BLOCK as nat) + 1),
{
    let keys: Keys = derive_keys(password, salt);
    let data: Vec<u8> = pad(plaintext);
    let sealed: Vec<u8> = aes256_ctr(keys.aes_key.as_slice(), keys.iv.as_slice(), data);
    let digest: Vec<u8> = hmac_sha256(keys.hmac_key.as_slice(), sealed.as_slice());
    proof {
        if id_keeps_body(text::opt_str_text(vault_id)) {
            law_envelope_round_trip(text::opt_str_text(vault_id), salt@, digest@, sealed@, password@);
            law_padding_round_trip(plaintext@);
        }
    }
    seal_envelope(vault_id, salt, digest.as_slice(), sealed.as_slice())
}

/// The vault text of `plaintext` under `password`, with a salt drawn at random.
/// Whatever the salt, the same password decrypts it to `plaintext` again, unless
/// the vault id puts more than white space on lines of its own. The result must
/// fit in one allocation.
pub fn encrypt(plaintext: &str, password: &str, vault_id: Option<&str>) -> (r: String)
    requires
        4 * (encode_utf8(plaintext@).len() + 81) <= isize::MAX,
    ensures
        exists|salt: Seq<u8>|
            salt.len() == SALT_LEN && r@ == #[trigger] encrypted(
                plaintext@,
                password@,
                text::opt_str_text(vault_id),
                salt,
            ) && ciphertext(plaintext@, password@, salt).len() == BLOCK * (encode_utf8(plaintext@).len() / (BLOCK as nat)
                + 1),
        id_keeps_body(text::opt_str_text(vault_id)) ==> decrypted(r@, password@) == Ok::<Seq<char>, VaultFailure>(
            plaintext@,
        ),
{
    let salt: Vec<u8> = random_bytes(SALT_LEN);
    encrypt_with_salt(plaintext, password, vault_id, salt.as_slice())
}

// ---------------------------------------------------------------------------
// Decryption
// ---------------------------------------------------------------------------

/// What the outer layer of a vault text holds.
pub struct Envelope {
    pub cipher: Seq<char>,
    pub vault_id: Option<Seq<char>>,
    pub body: Seq<char>,
}

/// The lines after the first, each without surrounding white space, joined.
pub open spec fn joined_body(lines: Seq<Seq<char>>) -> Seq<char> {
    text::concat(Seq::new((lines.len() - 1) as nat, |i: int| text::trim_of(lines[i + 1])))
}

/// The envelope of a vault text, or why there is none.
pub open spec fn envelope_of(vaulttext: Seq<char>) -> Result<Envelope, VaultFailure> {
    let lines = text::lines_of(text::trim_of(vaulttext));
    let parts = text::split_on(text::trim_of(lines[0]), ';');
    if lines.len() == 0 {
        Err(VaultFailure::InvalidFormat("empty input"@))
    } else if parts.len() < 3 || parts[0] != HEADER@ {
        Err(VaultFailure::InvalidFormat("bad header"@))
    } else if parts[1] != "1.1"@ && parts[1] != "1.2"@ {
        Err(VaultFailure::InvalidFormat("unsupported version "@ + parts[1]))
    } else {
        Ok(
            Envelope {
                cipher: parts[2],
                vault_id: if parts.len() > 3 {
                    Some(parts[3])
                } else {
                    None
                },
                body: joined_body(lines),
            },
        )
    }
}

/// The texts of a parsed envelope.
pub open spec fn envelope_outcome(
    r: Result<(String, Option<String>, String), VaultError>,
) -> Result<Envelope, VaultFailure> {
    match r {
        Ok((cipher, vault_id, body)) => Ok(
            Envelope { cipher: cipher@, vault_id: text::opt_text(vault_id), body: body@ },
        ),
        Err(e) => Err(e@),
    }
}

/// Parses the outer layer: the cipher's name, the vault id and the body's digits.
pub fn parse_envelope(vaulttext: &str) -> (r: Result<(String, Option<String>, String), VaultError>)
    ensures
        envelope_outcome(r) == envelope_of(vaulttext@),
{
    let trimmed: String = trim(vaulttext);
    let all: Vec<String> = lines(trimmed.as_str());
    let ghost ls = text::lines_of(text::trim_of(vaulttext@));
    assert(all@.len() == text::texts(all@).len());
    if all.len() == 0 {
        return Err(VaultError::InvalidFormat("empty input".to_owned()));
    }
    assert(all@[0]@ == ls[0]);
    let header: String = trim(all[0].as_str());
    let parts: Vec<String> = split(header.as_str(), ';');
    let ghost ps = text::split_on(text::trim_of(ls[0]), ';');
    assert(parts@.len() == ps.len());
    assert(forall|i: int| 0 <= i < ps.len() ==> #[trigger] parts@[i]@ == text::texts(parts@)[i]);
    if parts.len() < 3 || !same_text(parts[0].as_str(), HEADER) {
        return Err(VaultError::InvalidFormat("bad header".to_owned()));
    }
    let version: &str = parts[1].as_str();
    if !same_text(version, "1.1") && !same_text(version, "1.2") {
        return Err(VaultError::InvalidFormat(joined("unsupported version ", version)));
    }
    let cipher: String = parts[2].clone();
    let vault_id: Option<String> = if parts.len() > 3 {
        Some(parts[3].clone())
    } else {
        None
    };
    let mut body: String = String::new();
    let ghost pieces = Seq::new((ls.len() - 1) as nat, |i: int| text::trim_of(ls[i + 1]));
    let mut i: usize = 1;
    assert(pieces.take(0) =~= seq![]);
    while i < all.len()
        invariant
            1 <= i <= all@.len(),
            text::texts(all@) == ls,
            pieces == Seq::new((ls.len() - 1) as nat, |i: int| text::trim_of(ls[i + 1])),
            body@ == text::concat(pieces.take(i - 1)),
        decreases all@.len() - i,
    {
        let piece: String = trim(all[i].as_str());
        body.append(piece.as_str());
        proof {
            assert(all@[i as int]@ == ls[i as int]);
            assert(pieces.take(i as int).drop_last() =~= pieces.take(i - 1));
            assert(pieces.take(i as int).last() == piece@);
        }
        i += 1;
    }
    assert(pieces.take(pieces.len() as int) =~= pieces);
    Ok((cipher, vault_id, body))
}

/// What the body of a vault text holds.
pub struct Payload {
    pub salt: Vec<u8>,
    pub mac: Vec<u8>,
    pub data: Vec<u8>,
}

/// What the body of a vault text holds, as sequences of bytes.
pub struct PayloadBytes {
    pub salt: Seq<u8>,
    pub mac: Seq<u8>,
    pub data: Seq<u8>,
}

impl View for Payload {
    type V = PayloadBytes;

    open spec fn view(&self) -> PayloadBytes {
        PayloadBytes { salt: self.salt@, mac: self.mac@, data: self.data@ }
    }
}

/// The bytes of hexadecimal text, or the failure that says why there are none.
pub open spec fn digits_of(s: Seq<char>) -> Result<Seq<u8>, VaultFailure> {
    match hexadecimal::hex_decoded(encode_utf8(s)) {
        Ok(b) => Ok(b),
        Err(e) => Err(VaultFailure::InvalidFormat(hexadecimal::hex_error_message(e))),
    }
}

/// The `i`-th piece, or the empty text where there are fewer.
pub open spec fn piece(parts: Seq<Seq<char>>, i: int) -> Seq<char> {
    if i < parts.len() {
        parts[i]
    } else {
        seq![]
    }
}

/// The payload in the text inside a body: its first three lines.
pub open spec fn inner_payload(inner: Seq<char>) -> Result<PayloadBytes, VaultFailure> {
    let parts = text::split_on(inner, '\n');
    match digits_of(piece(parts, 0)) {
        Err(e) => Err(e),
        Ok(salt) => match digits_of(piece(parts, 1)) {
            Err(e) => Err(e),
            Ok(mac) => match digits_of(piece(parts, 2)) {
                Err(e) => Err(e),
                Ok(data) => Ok(PayloadBytes { salt, mac, data }),
            },
        },
    }
}

/// The payload in a body, or why there is none.
pub open spec fn payload_of(body: Seq<char>) -> Result<PayloadBytes, VaultFailure> {
    match digits_of(body) {
        Err(e) => Err(e),
        Ok(inner) => if valid_utf8(inner) {
            inner_payload(decode_utf8(inner))
        } else {
            Err(VaultFailure::InvalidFormat("inner not ascii"@))
        },
    }
}

/// The bytes of hexadecimal text.
fn decode_digits(s: &str) -> (r: Result<Vec<u8>, VaultError>)
    ensures
        match r {
            Ok(v) => digits_of(s@) == Ok::<Seq<u8>, VaultFailure>(v@),
            Err(e) => digits_of(s@) == Err::<Seq<u8>, VaultFailure>(e@),
        },
{
    match hex_decode(s.as_bytes()) {
        Ok(v) => Ok(v),
        Err(e) => Err(VaultError::InvalidFormat(hex_error_text(e))),
    }
}

/// The bytes of the `i`-th piece of hexadecimal text.
fn decode_piece(parts: &Vec<String>, i: usize) -> (r: Result<Vec<u8>, VaultError>)
    ensures
        match r {
            Ok(v) => digits_of(piece(text::texts(parts@), i as int)) == Ok::<Seq<u8>, VaultFailure>(v@),
            Err(e) => digits_of(piece(text::texts(parts@), i as int)) == Err::<Seq<u8>, VaultFailure>(e@),
        },
{
    if i < parts.len() {
        decode_digits(parts[i].as_str())
    } else {
        let none: String = String::new();
        decode_digits(none.as_str())
    }
}

/// Parses the body of a vault text: salt, code and ciphertext.
pub fn parse_payload(body: &str) -> (r: Result<Payload, VaultError>)
    ensures
        match r {
            Ok(p) => payload_of(body@) == Ok::<PayloadBytes, VaultFailure>(p@),
            Err(e) => payload_of(body@) == Err::<PayloadBytes, VaultFailure>(e@),
        },
{
    let bytes: Vec<u8> = match decode_digits(body) {
        Ok(v) => v,
        Err(e) => {
            return Err(e);
        },
    };
    let inner: String = match utf8_text(bytes) {
        Some(t) => t,
        None => {
            return Err(VaultError::InvalidFormat("inner not ascii".to_owned()));
        },
    };
    let parts: Vec<String> = split(inner.as_str(), '\n');
    let salt: Vec<u8> = match decode_piece(&parts, 0) {
        Ok(v) => v,
        Err(e) => {
            return Err(e);
        },
    };
    let mac: Vec<u8> = match decode_piece(&parts, 1) {
        Ok(v) => v,
        Err(e) => {
            return Err(e);
        },
    };
    let data: Vec<u8> = match decode_piece(&parts, 2) {
        Ok(v) => v,
        Err(e) => {
            return Err(e);
        },
    };
    Ok(Payload { salt, mac, data })
}

/// The text under PKCS#7 padding, or why there is none.
pub open spec fn unpadded(data: Seq<u8>) -> Result<Seq<char>, VaultFailure> {
    let pad = data.last() as int;
    let kept = data.take(data.len() - pad);
    if data.len() == 0 {
        Err(VaultFailure::InvalidFormat("empty payload"@))
    } else if pad == 0 || pad > BLOCK || pad > data.len() {
        Err(VaultFailure::WrongPassword)
    } else if valid_utf8(kept) {
        Ok(decode_utf8(kept))
    } else {
        Err(VaultFailure::Utf8)
    }
}

/// Takes the PKCS#7 padding off deciphered bytes and reads the rest as text.
pub fn strip_padding(data: Vec<u8>) -> (r: Result<String, VaultError>)
    ensures
        outcome(r) == unpadded(data@),
{
    let mut data: Vec<u8> = data;
    let n: usize = data.len();
    if n == 0 {
        return Err(VaultError::InvalidFormat("empty payload".to_owned()));
    }
    let pad: usize = data[n - 1] as usize;
    if pad == 0 || pad > BLOCK || pad > n {
        return Err(VaultError::WrongPassword);
    }
    let ghost all = data@;
    data.truncate(n - pad);
    assert(data@ =~= all.take(n - pad));
    match utf8_text(data) {
        Some(t) => Ok(t),
        None => Err(VaultError::Utf8),
    }
}

/// The text in a payload under a password: refused where the code is not that
/// of the ciphertext.
pub open spec fn opened(payload: PayloadBytes, password: Seq<char>) -> Result<Seq<char>, VaultFailure> {
    let keys = key_material(password, payload.salt);
    if payload.mac != mac_of(payload.data, password, payload.salt) {
        Err(VaultFailure::WrongPassword)
    } else {
        unpadded(crypto::aes256_ctr_bytes(aes_key_of(keys), iv_of(keys), payload.data))
    }
}

/// Checks the code of a payload and deciphers it.
pub fn open_payload(payload: Payload, password: &str) -> (r: Result<String, VaultError>)
    ensures
        outcome(r) == opened(payload@, password@),
{
    let keys: Keys = derive_keys(password, payload.salt.as_slice());
    if !hmac_sha256_verifies(keys.hmac_key.as_slice(), payload.data.as_slice(), payload.mac.as_slice()) {
        return Err(VaultError::WrongPassword);
    }
    strip_padding(aes256_ctr(keys.aes_key.as_slice(), keys.iv.as_slice(), payload.data))
}

/// The plaintext of a vault text under a password, or why there is none.
pub open spec fn decrypted(vaulttext: Seq<char>, password: Seq<char>) -> Result<Seq<char>, VaultFailure> {
    match envelope_of(vaulttext) {
        Err(e) => Err(e),
        Ok(envelope) => if envelope.cipher != "AES256"@ {
            Err(VaultFailure::UnsupportedCipher(envelope.cipher))
        } else {
            match payload_of(envelope.body) {
                Err(e) => Err(e),
                Ok(payload) => opened(payload, password),
            }
        },
    }
}

/// Decrypts a vault text, header and all, with one password.
pub fn decrypt(vaulttext: &str, password: &str) -> (r: Result<String, VaultError>)
    ensures
        outcome(r) == decrypted(vaulttext@, password@),
{
    let (cipher, _vault_id, body): (String, Option<String>, String) = match parse_envelope(vaulttext) {
        Ok(parts) => parts,
        Err(e) => {
            return Err(e);
        },
    };
    if !same_text(cipher.as_str(), "AES256") {
        return Err(VaultError::UnsupportedCipher(cipher));
    }
    match parse_payload(body.as_str()) {
        Ok(payload) => open_payload(payload, password),
        Err(e) => Err(e),
    }
}

/// The first success, else the last failure; with no attempt at all,
/// `WrongPassword`.
pub open spec fn first_success(attempts: Seq<Result<Seq<char>, VaultFailure>>) -> Result<Seq<char>, VaultFailure>
    decreases attempts.len(),
{
    if attempts.len() == 0 {
        Err(VaultFailure::WrongPassword)
    } else if attempts[0] is Ok || attempts.len() == 1 {
        attempts[0]
    } else {
        first_success(attempts.skip(1))
    }
}

/// The outcome with the first password that decrypts, else that of the last.
pub open spec fn decrypted_any(vaulttext: Seq<char>, passwords: Seq<Seq<char>>) -> Result<Seq<char>, VaultFailure> {
    first_success(Seq::new(passwords.len(), |i: int| decrypted(vaulttext, passwords[i])))
}

/// Tries several passwords in order: the first decryption that succeeds.
pub fn decrypt_any(vaulttext: &str, passwords: &[String]) -> (r: Result<String, VaultError>)
    ensures
        outcome(r) == decrypted_any(vaulttext@, text::texts(passwords@)),
{
    let ghost tries = Seq::new(passwords@.len(), |i: int| decrypted(vaulttext@, text::texts(passwords@)[i]));
    let mut last: VaultError = VaultError::WrongPassword;
    let mut i: usize = 0;
    assert(tries.skip(0) =~= tries);
    while i < passwords.len()
        invariant
            i <= passwords@.len(),
            tries == Seq::new(passwords@.len(), |i: int| decrypted(vaulttext@, text::texts(passwords@)[i])),
            i < passwords@.len() ==> first_success(tries) == first_success(tries.skip(i as int)),
            i == passwords@.len() ==> first_success(tries) == Err::<Seq<char>, VaultFailure>(last@),
        decreases passwords@.len() - i,
    {
        let ghost rest = tries.skip(i as int);
        assert(rest[0] == decrypted(vaulttext@, passwords@[i as int]@));
        assert(rest.skip(1) =~= tries.skip(i + 1));
        match decrypt(vaulttext, passwords[i].as_str()) {
            Ok(text) => {
                return Ok(text);
            },
            Err(e) => {
                last = e;
            },
        }
        i += 1;
    }
    Err(last)
}

// ---------------------------------------------------------------------------
// Reading back what was written
// ---------------------------------------------------------------------------

/// The vault id leaves the body alone: after its first line feed, if it has
/// one, comes nothing but white space.
pub open spec fn id_keeps_body(vault_id: Option<Seq<char>>) -> bool {
    match vault_id {
        Some(id) => forall|i: int, j: int| 0 <= i < j < id.len() && #[trigger] id[i] == '\n' ==> text::is_ws(#[trigger] id[j]),
        None => true,
    }
}

/// A lower-case hexadecimal digit.
pub open spec fn is_digit(c: char) -> bool {
    '0' <= c <= '9' || 'a' <= c <= 'f'
}

/// Encoded bytes are digits, of one byte each, and read back as the bytes.
pub proof fn lemma_hex_digits(b: Seq<u8>)
    ensures
        forall|i: int| 0 <= i < hexadecimal::hex_encoded(b).len() ==> is_digit(#[trigger] hexadecimal::hex_encoded(b)[i]),
        encode_utf8(hexadecimal::hex_encoded(b)) == Seq::new(2 * b.len(), |i: int| hexadecimal::hex_encoded(b)[i] as u8),
        digits_of(hexadecimal::hex_encoded(b)) == Ok::<Seq<u8>, VaultFailure>(b),
{
    let h = hexadecimal::hex_encoded(b);
    assert forall|i: int| 0 <= i < h.len() implies is_digit(#[trigger] h[i]) by {
        hexadecimal::lemma_hex_encoded_digit(b, i);
    }
    assert forall|i: int| 0 <= i < h.len() implies '\0' <= #[trigger] h[i] <= '\u{7f}' by {
        assert(is_digit(h[i]));
    }
    is_ascii_chars_encode_utf8(h);
    assert(encode_utf8(h) =~= Seq::new(2 * b.len(), |i: int| h[i] as u8));
    hexadecimal::law_hex_round_trip(b);
}

/// Pieces of a text of digits hold digits, none is empty, and together they are
/// the text again.
pub proof fn lemma_chunks(h: Seq<char>, width: nat)
    requires
        width > 0,
        forall|i: int| 0 <= i < h.len() ==> is_digit(#[trigger] h[i]),
    ensures
        forall|i: int| 0 <= i < chunks(h, width).len() ==> {
            &&& 0 < (#[trigger] chunks(h, width)[i]).len() <= width
            &&& forall|j: int| 0 <= j < chunks(h, width)[i].len() ==> is_digit(#[trigger] chunks(h, width)[i][j])
        },
        text::concat(chunks(h, width)) == h,
        h.len() > 0 ==> chunks(h, width).len() > 0,
    decreases h.len(),
{
    let all = chunks(h, width);
    if h.len() == 0 {
    } else if h.len() <= width {
        assert(all.drop_last() =~= seq![]);
        reveal_with_fuel(text::concat, 2);
        assert(text::concat(all) =~= h);
    } else {
        let first = h.take(width as int);
        let rest = h.skip(width as int);
        assert forall|i: int| 0 <= i < rest.len() implies is_digit(#[trigger] rest[i]) by {
            assert(is_digit(h[i + width]));
        }
        lemma_chunks(rest, width);
        text::lemma_concat_first(first, chunks(rest, width));
        assert(first + rest =~= h);
        assert forall|i: int| 0 <= i < all.len() implies {
            &&& 0 < (#[trigger] all[i]).len() <= width
            &&& forall|j: int| 0 <= j < all[i].len() ==> is_digit(#[trigger] all[i][j])
        } by {
            if i == 0 {
                assert forall|j: int| 0 <= j < all[i].len() implies is_digit(#[trigger] all[i][j]) by {
                    assert(is_digit(h[j]));
                }
            } else {
                assert(all[i] == chunks(rest, width)[i - 1]);
            }
        }
    }
}

/// The first line of a header: it begins with the fixed part and, trimmed, has
/// the header's fields.
proof fn lemma_header_fields(fixed: Seq<char>, u: Seq<char>, version: Seq<char>)
    requires
        version == "1.2"@,
        fixed == HEADER@ + ";1.2;AES256;"@,
        text::starts_with(u, fixed),
    ensures
        ({
            let parts = text::split_on(text::trim_of(text::strip_cr(u)), ';');
            &&& parts.len() >= 3
            &&& parts[0] == HEADER@
            &&& parts[1] == version
            &&& parts[2] == "AES256"@
        }),
{
    reveal_strlit("$ANSIBLE_VAULT");
    reveal_strlit(";1.2;AES256;");
    reveal_strlit("1.2");
    reveal_strlit("AES256");
    let n = fixed.len() as int;
    assert(fixed[n - 1] == ';');
    assert(fixed[0] == '$');
    assert forall|i: int| 0 <= i < n implies u[i] == #[trigger] fixed[i] by {
        assert(u.take(n)[i] == fixed[i]);
    }
    let v = text::strip_cr(u);
    assert(u[n - 1] == fixed[n - 1]);
    assert(u[0] == fixed[0]);
    assert(v.len() >= n);
    text::lemma_indent_len_is(v, 0);
    assert(v.skip(0) =~= v);
    let w = text::trim_end_of(v);
    text::lemma_trim_end(v);
    if w.len() < n {
        let k = w.len() as int;
        assert(v.skip(k)[n - 1 - k] == ';');
        assert(text::is_ws(v.skip(k)[n - 1 - k]));
    }
    let y = w.skip(n);
    let aes = "AES256"@;
    let tail2 = aes.push(';') + y;
    let tail1 = version.push(';') + tail2;
    assert forall|i: int| 0 <= i < n implies w[i] == #[trigger] fixed[i] by {
        assert(u[i] == fixed[i]);
    }
    assert(w =~= fixed + y);
    assert(fixed =~= HEADER@.push(';') + version.push(';') + aes.push(';'));
    assert(w =~= HEADER@.push(';') + tail1);
    text::lemma_split_first(HEADER@, tail1, ';');
    text::lemma_split_first(version, tail2, ';');
    text::lemma_split_first(aes, y, ';');
}

/// `h` reads as a header for the AES cipher, followed by blank lines at most.
pub open spec fn header_reads(h: Seq<char>) -> bool {
    let ls = text::lines_of(h.push('\n'));
    let parts = text::split_on(text::trim_of(ls[0]), ';');
    &&& h.len() > 0 && h[0] == '$'
    &&& ls.len() >= 1
    &&& forall|i: int| 1 <= i < ls.len() ==> text::trim_of(#[trigger] ls[i]) == Seq::<char>::empty()
    &&& parts.len() >= 3
    &&& parts[0] == HEADER@
    &&& parts[1] == "1.1"@ || parts[1] == "1.2"@
    &&& parts[2] == "AES256"@
}

/// Header lines read as headers.
pub proof fn lemma_header_reads(vault_id: Option<Seq<char>>)
    requires
        id_keeps_body(vault_id),
    ensures
        header_reads(header_line(vault_id)),
{
    let h = header_line(vault_id);
    let ls = text::lines_of(h.push('\n'));
    reveal_strlit("$ANSIBLE_VAULT");
    if vault_id is Some && vault_id->0.len() > 0 {
        let id = vault_id->0;
        let fixed = HEADER@ + ";1.2;AES256;"@;
        let n = fixed.len() as int;
        reveal_strlit(";1.2;AES256;");
        assert(h =~= fixed + id);
        let t = h.push('\n');
        text::lemma_find_char(t, '\n');
        let k = text::find_char(t, '\n');
        assert(t[h.len() as int] == '\n');
        assert(forall|i: int| 0 <= i < n ==> fixed[i] != '\n');
        assert(k >= n) by {
            if k < n {
                assert(t[k] == fixed[k]);
            }
        }
        assert(t.take(k).take(n) =~= fixed);
        lemma_header_fields(fixed, t.take(k), "1.2"@);
        let rest = t.skip(k + 1);
        assert forall|j: int| 0 <= j < rest.len() implies text::is_ws(#[trigger] rest[j]) by {
            if k < h.len() {
                assert(id[k - n] == t[k]);
                if k + 1 + j < h.len() {
                    assert(rest[j] == id[k + 1 + j - n]);
                }
            }
        }
        text::lemma_lines_blank(rest);
        assert forall|i: int| 1 <= i < ls.len() implies text::trim_of(#[trigger] ls[i]) == Seq::<char>::empty() by {
            assert(text::blank(text::lines_of(rest)[i - 1]));
            text::lemma_trim_blank(ls[i]);
        }
    } else {
        reveal_strlit(";1.1;AES256");
        reveal_strlit("1.1");
        reveal_strlit("AES256");
        assert(forall|i: int| 0 <= i < h.len() ==> h[i] != '\n');
        text::lemma_lines_ended(h);
        assert(h.last() == '6');
        assert(h[0] == '$');
        text::lemma_trim_unchanged(h);
        let aes = "AES256"@;
        let version = "1.1"@;
        assert(h =~= HEADER@.push(';') + (version.push(';') + aes));
        text::lemma_split_first(HEADER@, version.push(';') + aes, ';');
        text::lemma_split_first(version, aes, ';');
        text::lemma_split_none(aes, ';');
    }
}

/// A header over lines of digits reads back as the envelope that it was made of.
pub proof fn lemma_rows_read_back(h: Seq<char>, cs: Seq<Seq<char>>)
    requires
        header_reads(h),
        cs.len() > 0,
        forall|i: int| 0 <= i < cs.len() ==> {
            &&& 0 < (#[trigger] cs[i]).len()
            &&& forall|j: int| 0 <= j < cs[i].len() ==> is_digit(#[trigger] cs[i][j])
        },
    ensures
        ({
            let e = envelope_of(text::join_with(seq![h] + cs, seq!['\n']));
            &&& e is Ok
            &&& e->Ok_0.cipher == "AES256"@
            &&& e->Ok_0.body == text::concat(cs)
        }),
{
    let parts = seq![h] + cs;
    let t = text::join_with(parts, seq!['\n']);
    assert forall|i: int| 1 <= i < parts.len() implies text::is_line(#[trigger] parts[i]) by {
        let c = parts[i];
        assert(c == cs[i - 1]);
        assert(is_digit(cs[i - 1][c.len() - 1]));
        assert forall|j: int| 0 <= j < c.len() implies c[j] != '\n' by {
            assert(is_digit(cs[i - 1][j]));
        }
    }
    text::lemma_lines_join(parts);
    assert(parts.skip(1) =~= cs);
    let hl = text::lines_of(h.push('\n'));
    // The text is its own trimming.
    text::lemma_join_prefix(parts, seq!['\n']);
    assert(t.take(h.len() as int)[0] == t[0]);
    let last = parts.last();
    assert(last == cs[cs.len() - 1]);
    assert(is_digit(cs[cs.len() - 1][last.len() - 1]));
    assert(t.last() == last.last());
    text::lemma_trim_unchanged(t);
    let ls = text::lines_of(text::trim_of(t));
    assert(ls == hl + cs);
    // The body's lines join to the body.
    let trims = Seq::new((ls.len() - 1) as nat, |i: int| text::trim_of(ls[i + 1]));
    let es = trims.take(hl.len() - 1);
    assert forall|i: int| 0 <= i < cs.len() implies text::trim_of(#[trigger] cs[i]) == cs[i] by {
        assert(is_digit(cs[i][0]));
        assert(is_digit(cs[i][cs[i].len() - 1]));
        text::lemma_trim_unchanged(cs[i]);
    }
    assert forall|i: int| 0 <= i < es.len() implies (#[trigger] es[i]).len() == 0 by {
        assert(text::trim_of(hl[i + 1]) == Seq::<char>::empty());
    }
    assert(trims =~= es + cs) by {
        assert forall|i: int| 0 <= i < trims.len() implies trims[i] == (es + cs)[i] by {
            if i >= hl.len() - 1 {
                let k = i - (hl.len() - 1);
                assert(ls[i + 1] == cs[k]);
                assert(text::trim_of(cs[k]) == cs[k]);
            }
        }
    }
    text::lemma_concat_empties(es, cs);
    assert(ls[0] == hl[0]);
}

/// A header over a body reads back as the envelope that it was made of.
pub proof fn lemma_envelope_reads_back(h: Seq<char>, salt: Seq<u8>, mac: Seq<u8>, data: Seq<u8>)
    requires
        header_reads(h),
    ensures
        ({
            let e = envelope_of(
                text::join_with(
                    seq![h] + chunks(body_digits(salt, mac, data), WRAP_WIDTH as nat),
                    seq!['\n'],
                ),
            );
            &&& e is Ok
            &&& e->Ok_0.cipher == "AES256"@
            &&& e->Ok_0.body == body_digits(salt, mac, data)
        }),
{
    let body = body_digits(salt, mac, data);
    lemma_inner_ascii(salt, mac, data);
    lemma_hex_digits(encode_utf8(inner_text(salt, mac, data)));
    lemma_chunks(body, WRAP_WIDTH as nat);
    lemma_rows_read_back(h, chunks(body, WRAP_WIDTH as nat));
}

/// The body of a vault text reads back as the payload that it was made of.
pub proof fn lemma_body_reads_back(salt: Seq<u8>, mac: Seq<u8>, data: Seq<u8>)
    ensures
        payload_of(body_digits(salt, mac, data)) == Ok::<PayloadBytes, VaultFailure>(
            PayloadBytes { salt, mac, data },
        ),
{
    let inner = inner_text(salt, mac, data);
    lemma_hex_digits(encode_utf8(inner));
    encode_utf8_valid_utf8(inner);
    encode_utf8_decode_utf8(inner);
    let a = hexadecimal::hex_encoded(salt);
    let b = hexadecimal::hex_encoded(mac);
    let c = hexadecimal::hex_encoded(data);
    lemma_hex_digits(salt);
    lemma_hex_digits(mac);
    lemma_hex_digits(data);
    assert(inner =~= a.push('\n') + (b.push('\n') + c));
    assert forall|i: int| 0 <= i < a.len() implies a[i] != '\n' by {
        assert(is_digit(a[i]));
    }
    assert forall|i: int| 0 <= i < b.len() implies b[i] != '\n' by {
        assert(is_digit(b[i]));
    }
    assert forall|i: int| 0 <= i < c.len() implies c[i] != '\n' by {
        assert(is_digit(c[i]));
    }
    text::lemma_split_first(a, b.push('\n') + c, '\n');
    text::lemma_split_first(b, c, '\n');
    text::lemma_split_none(c, '\n');
    assert(text::split_on(inner, '\n') =~= seq![a, b, c]);
}

/// Padding comes off again: for every text, its padded bytes give it back.
pub proof fn law_padding_round_trip(plaintext: Seq<char>)
    ensures
        padded(encode_utf8(plaintext)).len() % (BLOCK as nat) == 0,
        unpadded(padded(encode_utf8(plaintext))) == Ok::<Seq<char>, VaultFailure>(plaintext),
{
    let b = encode_utf8(plaintext);
    let p = padded(b);
    encode_utf8_valid_utf8(plaintext);
    encode_utf8_decode_utf8(plaintext);
    assert(p.last() as int == pad_len(b.len()));
    assert(p.take(p.len() - p.last() as int) =~= b);
    assert((b.len() + (16 - b.len() % 16)) % 16 == 0) by {
        assert(b.len() + (16 - b.len() % 16) == 16 * (b.len() / 16) + 16);
    }
}

/// Sealing and opening agree: for every salt, code and ciphertext, and every
/// vault id that leaves the body alone, a vault text decrypts to what its
/// payload opens to.
pub proof fn law_envelope_round_trip(
    vault_id: Option<Seq<char>>,
    salt: Seq<u8>,
    mac: Seq<u8>,
    data: Seq<u8>,
    password: Seq<char>,
)
    requires
        id_keeps_body(vault_id),
    ensures
        decrypted(envelope_text(vault_id, salt, mac, data), password) == opened(
            PayloadBytes { salt, mac, data },
            password,
        ),
{
    lemma_header_reads(vault_id);
    lemma_envelope_reads_back(header_line(vault_id), salt, mac, data);
    lemma_body_reads_back(salt, mac, data);
}

/// The vault text of a payload that was sealed under another password is
/// refused: unless the code happens to agree, the failure is `WrongPassword`.
pub proof fn law_other_password_refused(
    vault_id: Option<Seq<char>>,
    salt: Seq<u8>,
    mac: Seq<u8>,
    data: Seq<u8>,
    password: Seq<char>,
)
    requires
        id_keeps_body(vault_id),
        mac != mac_of(data, password, salt),
    ensures
        decrypted(envelope_text(vault_id, salt, mac, data), password) == Err::<Seq<char>, VaultFailure>(
            VaultFailure::WrongPassword,
        ),
{
    law_envelope_round_trip(vault_id, salt, mac, data, password);
}

#[verifier::spinoff_prover]
#[verifier::rlimit(40)]
proof fn lemma_first_success(rs: Seq<Result<Seq<char>, VaultFailure>>)
    ensures
        first_success(rs) is Ok <==> exists|i: int| 0 <= i < rs.len() && (#[trigger] rs[i]) is Ok,
        forall|i: int|
            0 <= i < rs.len() && (#[trigger] rs[i]) is Ok && (forall|j: int| 0 <= j < i ==> (#[trigger] rs[j]) is Err)
                ==> first_success(rs) == rs[i],
        first_success(rs) is Err && rs.len() > 0 ==> first_success(rs) == rs.last(),
    decreases rs.len(),
{
    if rs.len() > 1 && rs[0] is Err {
        let rest = rs.skip(1);
        lemma_first_success(rest);
        assert(rest.last() == rs.last());
        assert(forall|i: int| 1 <= i < rs.len() ==> #[trigger] rs[i] == rest[i - 1]);
        assert(forall|i: int| 0 <= i < rest.len() ==> #[trigger] rest[i] == rs[i + 1]);
        assert forall|i: int|
            0 <= i < rs.len() && (#[trigger] rs[i]) is Ok && (forall|j: int|
                0 <= j < i ==> (#[trigger] rs[j]) is Err) implies first_success(rs) == rs[i] by {
            assert(rest[i - 1] is Ok);
        }
    }
}

/// All passwords are tried, and the first that decrypts decides: `decrypted_any`
/// succeeds exactly where some password decrypts, and then gives what the
/// earliest such password gives. Where none does, the failure is that of the
/// last password.
pub proof fn law_first_match_decides(vaulttext: Seq<char>, passwords: Seq<Seq<char>>)
    ensures
        decrypted_any(vaulttext, passwords) is Ok <==> exists|i: int|
            0 <= i < passwords.len() && decrypted(vaulttext, #[trigger] passwords[i]) is Ok,
        forall|i: int|
            0 <= i < passwords.len() && decrypted(vaulttext, #[trigger] passwords[i]) is Ok && (forall|j: int|
                0 <= j < i ==> decrypted(vaulttext, #[trigger] passwords[j]) is Err) ==> decrypted_any(
                vaulttext,
                passwords,
            ) == decrypted(vaulttext, passwords[i]),
        decrypted_any(vaulttext, passwords) is Err && passwords.len() > 0 ==> decrypted_any(vaulttext, passwords)
            == decrypted(vaulttext, passwords.last()),
{
    let rs = Seq::new(passwords.len(), |i: int| decrypted(vaulttext, passwords[i]));
    lemma_first_success(rs);
    assert(forall|i: int| 0 <= i < rs.len() ==> #[trigger] rs[i] == decrypted(vaulttext, passwords[i]));
    if exists|i: int| 0 <= i < passwords.len() && decrypted(vaulttext, #[trigger] passwords[i]) is Ok {
        let i = choose|i: int| 0 <= i < passwords.len() && decrypted(vaulttext, #[trigger] passwords[i]) is Ok;
        assert(rs[i] is Ok);
    }
    assert forall|i: int|
        0 <= i < passwords.len() && decrypted(vaulttext, #[trigger] passwords[i]) is Ok && (forall|j: int|
            0 <= j < i ==> decrypted(vaulttext, #[trigger] passwords[j]) is Err) implies decrypted_any(
        vaulttext,
        passwords,
    ) == decrypted(vaulttext, passwords[i]) by {
        assert(rs[i] is Ok);
        assert forall|j: int| 0 <= j < i implies (#[trigger] rs[j]) is Err by {
            assert(decrypted(vaulttext, passwords[j]) is Err);
        }
    }
}

/// The lines of a body are full but for the last: each has `WRAP_WIDTH` digits,
/// the last at least one and no more than that.
pub proof fn law_body_lines_wrapped(digits: Seq<char>)
    ensures
        forall|i: int|
            0 <= i < chunks(digits, WRAP_WIDTH as nat).len() ==> {
                &&& 1 <= (#[trigger] chunks(digits, WRAP_WIDTH as nat)[i]).len() <= WRAP_WIDTH
                &&& i + 1 < chunks(digits, WRAP_WIDTH as nat).len() ==> chunks(digits, WRAP_WIDTH as nat)[i].len()
                    == WRAP_WIDTH
            },
        text::concat(chunks(digits, WRAP_WIDTH as nat)) == digits,
    decreases digits.len(),
{
    let all = chunks(digits, WRAP_WIDTH as nat);
    reveal_with_fuel(text::concat, 2);
    if digits.len() == 0 {
    } else if digits.len() <= WRAP_WIDTH {
        assert(all.drop_last() =~= seq![]);
        assert(text::concat(all) =~= digits);
    } else {
        let first = digits.take(WRAP_WIDTH as int);
        let rest = digits.skip(WRAP_WIDTH as int);
        law_body_lines_wrapped(rest);
        text::lemma_concat_first(first, chunks(rest, WRAP_WIDTH as nat));
        assert(first + rest =~= digits);
        assert forall|i: int| 0 <= i < all.len() implies {
            &&& 1 <= (#[trigger] all[i]).len() <= WRAP_WIDTH
            &&& i + 1 < all.len() ==> all[i].len() == WRAP_WIDTH
        } by {
            if i > 0 {
                assert(all[i] == chunks(rest, WRAP_WIDTH as nat)[i - 1]);
            }
        }
    }
}

/// A vault text begins with its header, on a line of its own, and is told to be
/// one by it. The header names the vault id, where there is one.
pub proof fn law_vault_text_has_header(vault_id: Option<Seq<char>>, salt: Seq<u8>, mac: Seq<u8>, data: Seq<u8>)
    ensures
        text::starts_with(envelope_text(vault_id, salt, mac, data), header_line(vault_id).push('\n')),
        is_vault_text(envelope_text(vault_id, salt, mac, data)),
{
    let h = header_line(vault_id);
    let body = body_digits(salt, mac, data);
    let cs = chunks(body, WRAP_WIDTH as nat);
    lemma_inner_ascii(salt, mac, data);
    lemma_hex_digits(encode_utf8(inner_text(salt, mac, data)));
    lemma_chunks(body, WRAP_WIDTH as nat);
    text::lemma_join_first(h, cs, seq!['\n']);
    let v = envelope_text(vault_id, salt, mac, data);
    assert(v.take(h.len() as int + 1) =~= h.push('\n'));
    reveal_strlit("$ANSIBLE_VAULT");
    let n = HEADER@.len() as int;
    assert(h.take(n) =~= HEADER@);
    assert(v.take(n) =~= h.take(n));
    assert(v.take(n)[0] == '$');
    assert(v[0] == '$');
    text::lemma_indent_len_is(v, 0);
    assert(v.skip(0) =~= v);
}

} // verus!
