use ansible_vault::cli::{
    decrypt_invocation, encrypt_invocation, interpret_run, password_files, read_encrypted, read_run, LITERAL_PASSWORD,
};
use ansible_vault::resolution::Resolved;

fn resolved(literals: &[&str], files: &[&str]) -> Resolved {
    Resolved {
        literals: literals.iter().map(|s| s.to_string()).collect(),
        files: files.iter().map(|s| s.to_string()).collect(),
        ..Resolved::default()
    }
}

#[test]
fn literal_passwords_are_refused() {
    let r = resolved(&["pw"], &["/f"]);
    assert_eq!(password_files(&r).unwrap_err(), LITERAL_PASSWORD);
    assert_eq!(decrypt_invocation(&r).unwrap_err(), LITERAL_PASSWORD);
    assert_eq!(encrypt_invocation(&r, None).unwrap_err(), LITERAL_PASSWORD);
    assert_eq!(
        LITERAL_PASSWORD,
        "a literal `password` cannot be used with `ansibleVaultPath`: ansible-vault \
         only reads passwords from files, and writing it to a temp file would defeat \
         the purpose of the CLI backend. Use `passwordFile` instead."
    );
}

#[test]
fn files_are_handed_over_once() {
    assert_eq!(password_files(&resolved(&[], &["/a", "/b", "/a", "/c", "/b"])).unwrap(), ["/a", "/b", "/c"]);
    assert!(password_files(&resolved(&[], &[])).unwrap().is_empty());
}

#[test]
fn decryption_uses_every_file() {
    let i = decrypt_invocation(&resolved(&[], &["/a", "/b", "/a"])).unwrap();
    assert_eq!(
        i.args,
        ["decrypt", "--output", "-", "--vault-password-file", "/a", "--vault-password-file", "/b"]
    );
    assert!(i.drop_password_variable);
    let i = decrypt_invocation(&resolved(&[], &[])).unwrap();
    assert_eq!(i.args, ["decrypt", "--output", "-"]);
    assert!(!i.drop_password_variable);
}

#[test]
fn encryption_uses_the_first_file() {
    let i = encrypt_invocation(&resolved(&[], &["/a", "/b"]), None).unwrap();
    assert_eq!(i.args, ["encrypt", "--output", "-", "--vault-password-file", "/a"]);
    assert!(i.drop_password_variable);
    let i = encrypt_invocation(&resolved(&[], &["/a", "/b"]), Some("")).unwrap();
    assert_eq!(i.args, ["encrypt", "--output", "-", "--vault-password-file", "/a"]);
}

#[test]
fn encryption_labels_the_file() {
    let i = encrypt_invocation(&resolved(&[], &["/a", "/b"]), Some("dev")).unwrap();
    assert_eq!(i.args, ["encrypt", "--output", "-", "--vault-id", "dev@/a", "--encrypt-vault-id", "dev"]);
    assert!(i.drop_password_variable);
    let i = encrypt_invocation(&resolved(&[], &[]), Some("dev")).unwrap();
    assert_eq!(i.args, ["encrypt", "--output", "-", "--encrypt-vault-id", "dev"]);
    assert!(!i.drop_password_variable);
}

#[test]
fn runs_are_interpreted() {
    assert_eq!(interpret_run(true, "", b"out\n".to_vec(), "warning").unwrap(), "out\n");
    assert_eq!(
        interpret_run(false, "exit status: 1", b"out".to_vec(), " bad \n").unwrap_err(),
        "ansible-vault failed (exit status: 1): bad"
    );
    assert_eq!(
        interpret_run(true, "", vec![0xff], "").unwrap_err(),
        "ansible-vault output is not UTF-8"
    );
    assert_eq!(read_run(false, "s", vec![], b"\xfe\n").unwrap_err(), "ansible-vault failed (s): \u{fffd}");
    assert_eq!(read_run(true, "s", b"x".to_vec(), b"").unwrap(), "x");
}

#[test]
fn encrypted_output_is_checked() {
    assert_eq!(read_encrypted("$ANSIBLE_VAULT;1.1;AES256\nab\n\n").unwrap(), "$ANSIBLE_VAULT;1.1;AES256\nab");
    assert_eq!(
        read_encrypted("Encryption successful\n").unwrap_err(),
        "ansible-vault encrypt produced unexpected output"
    );
}
