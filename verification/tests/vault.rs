use ansible_vault::vault::{
    decrypt, decrypt_any, derive_keys, encrypt, encrypt_with_salt, is_vault_data, open_payload, parse_envelope,
    parse_payload, seal_envelope, split_keys, strip_padding, Payload, VaultError,
};

const PLAIN: &str = "$ANSIBLE_VAULT;1.1;AES256
30303031303230333034303530363037303830393061306230633064306530663130313131323133
3134313531363137313831393161316231633164316531660a633234643361303631626661653365
61373436303562376138633163336666356462643162313264343662633331633566356532653730
3238656335393239320a316238313734666665343838343932613637303738306161356365396234
3164";

const LABELLED: &str = "$ANSIBLE_VAULT;1.2;AES256;dev
30303031303230333034303530363037303830393061306230633064306530663130313131323133
3134313531363137313831393161316231633164316531660a653638656432653366386164323233
63396137626366313237636563633062653133656533656661666162303261653266656239636535
3266386565643935610a613230623963356439343333616535393365323930323565626632346365
3433";

fn salt() -> Vec<u8> {
    (0..32).collect()
}

fn hex(s: &str) -> String {
    s.bytes().map(|b| format!("{b:02x}")).collect()
}

fn message(r: Result<String, VaultError>) -> String {
    match r {
        Ok(s) => panic!("decrypted: {s}"),
        Err(e) => e.message(),
    }
}

#[test]
fn roundtrip() {
    let pt = "super secret value";
    let enc = encrypt(pt, "hunter2", None);
    assert!(enc.starts_with("$ANSIBLE_VAULT;1.1;AES256\n"));
    assert_eq!(decrypt(&enc, "hunter2").unwrap(), pt);
}

#[test]
fn roundtrip_vault_id() {
    let pt = "another\nmultiline\nsecret";
    let enc = encrypt(pt, "pw", Some("dev"));
    assert!(enc.starts_with("$ANSIBLE_VAULT;1.2;AES256;dev\n"));
    assert_eq!(decrypt(&enc, "pw").unwrap(), pt);
}

#[test]
fn wrong_password() {
    let enc = encrypt("x", "right", None);
    assert!(matches!(decrypt(&enc, "wrong"), Err(VaultError::WrongPassword)));
}

#[test]
fn decrypt_any_tries_all() {
    let enc = encrypt("x", "second", None);
    let pws = vec!["first".to_string(), "second".to_string()];
    assert_eq!(decrypt_any(&enc, &pws).unwrap(), "x");
}

#[test]
fn known_vault_texts() {
    assert_eq!(encrypt_with_salt("secret value", "hunter2", None, &salt()), PLAIN);
    assert_eq!(encrypt_with_salt("secret value", "hunter2", Some(""), &salt()), PLAIN);
    assert_eq!(encrypt_with_salt("s\u{e9}cret\nzwei\n", "pw", Some("dev"), &salt()), LABELLED);
    assert_eq!(decrypt(PLAIN, "hunter2").unwrap(), "secret value");
    assert_eq!(decrypt(LABELLED, "pw").unwrap(), "s\u{e9}cret\nzwei\n");
}

#[test]
fn known_keys() {
    let keys = derive_keys("hunter2", &salt());
    let digits = |b: &[u8]| b.iter().map(|x| format!("{x:02x}")).collect::<String>();
    assert_eq!(digits(&keys.aes_key), "e2e3adea0651d0aac1088cdc7b11df141531eaae73bbdabff384a203a08ca30e");
    assert_eq!(digits(&keys.hmac_key), "e43aa69ecc944894083fbadb9ca3bb098b96ebd6f9c422c610095dde299facae");
    assert_eq!(digits(&keys.iv), "28788f1de97dcfabaa62ae30c7071192");
    let material: Vec<u8> = (0..80).collect();
    let keys = split_keys(&material);
    assert_eq!(keys.aes_key, &material[0..32]);
    assert_eq!(keys.hmac_key, &material[32..64]);
    assert_eq!(keys.iv, &material[64..80]);
}

#[test]
fn two_encryptions_differ() {
    let a = encrypt("x", "pw", None);
    let b = encrypt("x", "pw", None);
    assert_ne!(a, b);
    assert_eq!(decrypt(&a, "pw").unwrap(), decrypt(&b, "pw").unwrap());
}

#[test]
fn every_length_comes_back() {
    for n in [0, 1, 15, 16, 17] {
        let pt = "x".repeat(n);
        assert_eq!(decrypt(&encrypt_with_salt(&pt, "pw", None, &[7]), "pw").unwrap(), pt);
    }
}

#[test]
fn vault_id_that_breaks_the_body() {
    // A line feed at the end of an id is harmless; text after one is not.
    assert_eq!(decrypt(&encrypt_with_salt("x", "pw", Some("dev\n"), &[1]), "pw").unwrap(), "x");
    assert!(decrypt(&encrypt_with_salt("x", "pw", Some("d\nz"), &[1]), "pw").is_err());
}

#[test]
fn body_lines_are_wrapped() {
    for line in PLAIN.lines().skip(1).take(4) {
        assert_eq!(line.len(), 80);
    }
    assert_eq!(PLAIN.lines().count(), 6);
}

#[test]
fn headers_are_recognised() {
    assert!(is_vault_data("$ANSIBLE_VAULT;1.1;AES256"));
    assert!(is_vault_data(" \t$ANSIBLE_VAULT"));
    assert!(!is_vault_data("x $ANSIBLE_VAULT"));
    assert!(!is_vault_data("$ANSIBLE"));
    assert!(!is_vault_data(""));
}

#[test]
fn envelopes_are_parsed() {
    let (cipher, id, body) = parse_envelope("\n $ANSIBLE_VAULT;1.2;AES256;dev;x \r\n  00\n ff \n").unwrap();
    assert_eq!(cipher, "AES256");
    assert_eq!(id.as_deref(), Some("dev"));
    assert_eq!(body, "00ff");
    let (cipher, id, body) = parse_envelope("$ANSIBLE_VAULT;1.1;X").unwrap();
    assert_eq!((cipher.as_str(), id, body.as_str()), ("X", None, ""));
}

#[test]
fn sealed_envelopes_open_again() {
    let text = seal_envelope(Some("q"), &[1, 2], &[3], &[]);
    let (cipher, id, body) = parse_envelope(&text).unwrap();
    assert_eq!(cipher, "AES256");
    assert_eq!(id.as_deref(), Some("q"));
    assert_eq!(body, hex("0102\n03\n"));
    let payload = parse_payload(&body).unwrap();
    assert_eq!((payload.salt, payload.mac, payload.data), (vec![1, 2], vec![3], vec![]));
}

#[test]
fn bad_envelopes_are_refused() {
    let m = |s: &str| message(decrypt(s, "pw"));
    assert_eq!(m(""), "invalid vault format: empty input");
    assert_eq!(m("  \n"), "invalid vault format: empty input");
    assert_eq!(m("hello"), "invalid vault format: bad header");
    assert_eq!(m("$ANSIBLE_VAULT;1.1"), "invalid vault format: bad header");
    assert_eq!(m("x;1.1;AES256"), "invalid vault format: bad header");
    assert_eq!(m("$ANSIBLE_VAULT;1.0;AES256"), "invalid vault format: unsupported version 1.0");
    assert_eq!(m("$ANSIBLE_VAULT;1.1;AES"), "unsupported vault cipher: AES");
    assert_eq!(m("$ANSIBLE_VAULT;1.1;AES256\nabc"), "invalid vault format: Odd number of digits");
    assert_eq!(
        m("$ANSIBLE_VAULT;1.1;AES256\n0z"),
        "invalid vault format: Invalid character 'z' at position 1"
    );
    assert_eq!(m("$ANSIBLE_VAULT;1.1;AES256\nff"), "invalid vault format: inner not ascii");
}

#[test]
fn bad_payloads_are_refused() {
    let m = |inner: &str| message(decrypt(&format!("$ANSIBLE_VAULT;1.1;AES256\n{}", hex(inner)), "pw"));
    assert_eq!(m("0"), "invalid vault format: Odd number of digits");
    assert_eq!(m("00\nx0\n"), "invalid vault format: Invalid character 'x' at position 0");
    assert_eq!(m("00\n00\n0\u{e9}"), "invalid vault format: Odd number of digits");
    assert_eq!(m("00\n00\n00"), "HMAC verification failed (wrong vault password?)");
    assert_eq!(m("00"), "HMAC verification failed (wrong vault password?)");
    assert_eq!(m(""), "HMAC verification failed (wrong vault password?)");
}

#[test]
fn a_changed_body_is_refused() {
    let changed = PLAIN.replace("\n3164", "\n3165");
    assert!(matches!(decrypt(&changed, "hunter2"), Err(VaultError::WrongPassword)));
}

#[test]
fn padding_is_checked() {
    assert_eq!(strip_padding(b"ab\x02\x02".to_vec()).unwrap(), "ab");
    assert_eq!(strip_padding(vec![16; 16]).unwrap(), "");
    // Only the last byte is looked at.
    assert_eq!(strip_padding(b"ab\x01\x02".to_vec()).unwrap(), "ab");
    assert_eq!(message(strip_padding(vec![])), "invalid vault format: empty payload");
    assert!(matches!(strip_padding(vec![1, 0]), Err(VaultError::WrongPassword)));
    assert!(matches!(strip_padding(vec![17; 17]), Err(VaultError::WrongPassword)));
    assert!(matches!(strip_padding(vec![3, 3]), Err(VaultError::WrongPassword)));
    assert!(matches!(strip_padding(vec![0xff, 1]), Err(VaultError::Utf8)));
    assert_eq!(message(strip_padding(vec![0xff, 1])), "decrypted payload is not valid UTF-8");
}

#[test]
fn payloads_open_with_their_password() {
    let (_, _, body) = parse_envelope(PLAIN).unwrap();
    let payload = parse_payload(&body).unwrap();
    assert_eq!(payload.salt, salt());
    assert_eq!((payload.mac.len(), payload.data.len()), (32, 16));
    assert_eq!(open_payload(payload, "hunter2").unwrap(), "secret value");
    let other = Payload { salt: salt(), mac: vec![0; 32], data: vec![0; 16] };
    assert!(matches!(open_payload(other, "hunter2"), Err(VaultError::WrongPassword)));
}

#[test]
fn first_password_that_fits_decides() {
    let pws = |v: &[&str]| v.iter().map(|s| s.to_string()).collect::<Vec<String>>();
    assert_eq!(decrypt_any(PLAIN, &pws(&["a", "hunter2", "b"])).unwrap(), "secret value");
    assert!(matches!(decrypt_any(PLAIN, &pws(&["a", "b"])), Err(VaultError::WrongPassword)));
    assert!(matches!(decrypt_any(PLAIN, &[]), Err(VaultError::WrongPassword)));
    assert!(matches!(decrypt_any("x", &pws(&["a"])), Err(VaultError::InvalidFormat(_))));
    assert!(matches!(decrypt_any("$ANSIBLE_VAULT;1.1;Q", &pws(&["a"])), Err(VaultError::UnsupportedCipher(_))));
}
