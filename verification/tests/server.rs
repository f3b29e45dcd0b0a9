use ansible_vault::documents::Documents;
use ansible_vault::password::InitOptions;
use ansible_vault::server::{
    available_action, cli_program, do_decrypt, do_encrypt, failure_notice, finish_decrypt, finish_encrypt,
    full_line_edit, hover_block, hover_enabled, hover_range, hover_text, plan_action, resolves_edits, ActionPlan,
    TextEdit, NO_PASSWORD, TITLE_DECRYPT, TITLE_ENCRYPT,
};

const DOC: &str = "a: b\nsecret: !vault |\n  $ANSIBLE_VAULT;1.1;AES256\n  00\n\nlast: value";

/// The document once an edit was made.
fn apply(document: &str, edit: &TextEdit) -> String {
    let offset = |line: u32, character: u32| -> usize {
        let start: usize = document.split_inclusive('\n').take(line as usize).map(str::len).sum();
        let row = document[start..].lines().next().unwrap_or("");
        start + row.len().min(character as usize)
    };
    let start = offset(edit.start_line, edit.start_character);
    let end = offset(edit.end_line, edit.end_character);
    format!("{}{}{}", &document[..start], edit.new_text, &document[end..])
}

fn encrypt_at(document: &str, cursor: usize, password: &str, vault_id: Option<&str>) -> String {
    let ActionPlan::Encrypt { plain, total_lines } = plan_action(Some(document), cursor) else {
        panic!("no value at {cursor}");
    };
    let vaulttext = do_encrypt(&plain.value, &vec![password.to_string()], vault_id);
    apply(document, &finish_encrypt(&plain, total_lines, vaulttext).unwrap())
}

fn decrypt_at(document: &str, cursor: usize, password: &str) -> String {
    let ActionPlan::Decrypt { block, total_lines } = plan_action(Some(document), cursor) else {
        panic!("no block at {cursor}");
    };
    let plaintext = do_decrypt(&block.vaulttext, &vec![password.to_string()]);
    apply(document, &finish_decrypt(&block, total_lines, plaintext).unwrap())
}

#[test]
fn edits_span_whole_lines() {
    let e = full_line_edit(1, 3, "x".to_string(), 5);
    assert_eq!((e.start_line, e.start_character, e.end_line, e.end_character), (1, 0, 4, 0));
    assert_eq!(e.new_text, "x\n");
    let e = full_line_edit(1, 4, "x".to_string(), 5);
    assert_eq!((e.start_line, e.start_character, e.end_line, e.end_character), (1, 0, 4, u32::MAX));
    assert_eq!(e.new_text, "x");
}

#[test]
fn edits_replace_lines() {
    for document in ["a\nb\nc", "a\nb\nc\n", "a\r\nb\r\nc\r\n", "\nb\n\n"] {
        let rows: Vec<&str> = document.lines().collect();
        for start in 0..rows.len() {
            for end in start..rows.len() {
                let edit = full_line_edit(start, end, "x\ny".to_string(), rows.len());
                let mut want: Vec<&str> = rows[..start].to_vec();
                want.extend(["x", "y"]);
                want.extend(&rows[end + 1..]);
                let got = apply(document, &edit);
                assert_eq!(got.lines().collect::<Vec<&str>>(), want, "{document:?} {start} {end}");
            }
        }
    }
}

#[test]
fn actions_are_offered() {
    assert_eq!(available_action(Some(DOC), 0), Some(TITLE_ENCRYPT));
    assert_eq!(available_action(Some(DOC), 1), Some(TITLE_DECRYPT));
    assert_eq!(available_action(Some(DOC), 3), Some(TITLE_DECRYPT));
    assert_eq!(available_action(Some(DOC), 4), None);
    assert_eq!(available_action(Some(DOC), 5), Some(TITLE_ENCRYPT));
    assert_eq!(available_action(Some(DOC), 6), None);
    assert_eq!(available_action(None, 0), None);
    assert_eq!(TITLE_ENCRYPT, "Encrypt with Ansible Vault");
    assert_eq!(TITLE_DECRYPT, "Decrypt with Ansible Vault");
}

#[test]
fn plans_hold_what_was_found() {
    assert!(matches!(plan_action(None, 0), ActionPlan::Nothing));
    assert!(matches!(plan_action(Some(DOC), 4), ActionPlan::Nothing));
    let ActionPlan::Decrypt { block, total_lines } = plan_action(Some(DOC), 2) else { panic!() };
    assert_eq!((block.start_line, block.end_line, total_lines), (1, 3, 6));
    let ActionPlan::Encrypt { plain, total_lines } = plan_action(Some(DOC), 5) else { panic!() };
    assert_eq!((plain.line, plain.value.as_str(), total_lines), (5, "value", 6));
}

#[test]
fn failures_are_passed_on() {
    let ActionPlan::Decrypt { block, total_lines } = plan_action(Some(DOC), 2) else { panic!() };
    assert_eq!(finish_decrypt(&block, total_lines, Err("no".to_string())).unwrap_err(), "no");
    let ActionPlan::Encrypt { plain, total_lines } = plan_action(Some(DOC), 5) else { panic!() };
    assert_eq!(finish_encrypt(&plain, total_lines, Err("no".to_string())).unwrap_err(), "no");
}

#[test]
fn finished_edits() {
    let ActionPlan::Decrypt { block, total_lines } = plan_action(Some(DOC), 2) else { panic!() };
    let e = finish_decrypt(&block, total_lines, Ok("p q".to_string())).unwrap();
    assert_eq!((e.start_line, e.end_line, e.new_text.as_str()), (1, 4, "secret: p q\n"));
    let ActionPlan::Encrypt { plain, total_lines } = plan_action(Some(DOC), 5) else { panic!() };
    let e = finish_encrypt(&plain, total_lines, Ok("$ANSIBLE_VAULT;x\nab".to_string())).unwrap();
    assert_eq!((e.start_line, e.end_line, e.end_character), (5, 5, u32::MAX));
    assert_eq!(e.new_text, "last: !vault |\n  $ANSIBLE_VAULT;x\n  ab");
}

#[test]
fn document_is_restored() {
    let document = "top:\n  - key: 'a: b'\n  - more: x\nend: 1\n";
    for cursor in 1..4 {
        let encrypted = encrypt_at(document, cursor, "pw", Some("dev"));
        let added = encrypted.lines().count() - document.lines().count();
        assert!(added >= 2);
        for at in [cursor, cursor + 1, cursor + added] {
            assert_eq!(decrypt_at(&encrypted, at, "pw"), document);
        }
    }
}

#[test]
fn sibling_below_is_left_alone() {
    let document = "- key: a\n  more: b\n";
    for cursor in 0..2 {
        let encrypted = encrypt_at(document, cursor, "pw", None);
        assert_eq!(decrypt_at(&encrypted, cursor, "pw"), document);
        assert_eq!(decrypt_at(&encrypted, cursor + 2, "pw"), document);
    }
    // A line of digits that goes on with the value is taken for the payload's.
    let encrypted = encrypt_at("key: a\n  bc\n", 0, "pw", None);
    let ActionPlan::Decrypt { block, .. } = plan_action(Some(&encrypted), 0) else { panic!() };
    assert!(do_decrypt(&block.vaulttext, &vec!["pw".to_string()]).is_err());
}

#[test]
fn decryption_replaces_the_block_alone() {
    let document = "a: 1\nk: !vault |\n  $ANSIBLE_VAULT;1.1;AES256\n  00\nz: 2\n";
    for plaintext in ["x", "x\ny\n", "x\n\n", "x\r\ny"] {
        let ActionPlan::Decrypt { block, total_lines } = plan_action(Some(document), 3) else { panic!() };
        let edit = finish_decrypt(&block, total_lines, Ok(plaintext.to_string())).unwrap();
        let after = apply(document, &edit);
        assert!(after.starts_with("a: 1\nk: "));
        assert!(after.ends_with("\nz: 2\n"));
    }
}

#[test]
fn passwords_are_needed() {
    let none: Vec<String> = Vec::new();
    assert_eq!(do_decrypt("x", &none).unwrap_err(), NO_PASSWORD);
    assert_eq!(do_encrypt("x", &none, None).unwrap_err(), NO_PASSWORD);
    assert_eq!(
        NO_PASSWORD,
        "no vault password found (checked initialization_options, \
         ANSIBLE_VAULT_PASSWORD_FILE, ansible.cfg)"
    );
}

#[test]
fn first_password_encrypts_and_all_decrypt() {
    let both = vec!["one".to_string(), "two".to_string()];
    let v = do_encrypt("x", &both, None).unwrap();
    assert_eq!(do_decrypt(&v, &vec!["one".to_string()]).unwrap(), "x");
    assert_eq!(
        do_decrypt(&v, &vec!["two".to_string()]).unwrap_err(),
        "HMAC verification failed (wrong vault password?)"
    );
    assert_eq!(do_decrypt(&v, &vec!["two".to_string(), "one".to_string()]).unwrap(), "x");
    assert_eq!(do_decrypt("x", &both).unwrap_err(), "invalid vault format: bad header");
}

#[test]
fn program_comes_from_the_options() {
    let mut o = InitOptions::default();
    assert_eq!(cli_program(&o), None);
    o.ansible_vault_path = Some(String::new());
    assert_eq!(cli_program(&o), None);
    o.ansible_vault_path = Some("/bin/av".to_string());
    assert_eq!(cli_program(&o).as_deref(), Some("/bin/av"));
}

#[test]
fn hovering_can_be_switched_off() {
    let mut o = InitOptions::default();
    assert!(hover_enabled(&o));
    let b = hover_block(&o, Some(DOC), 2).unwrap();
    assert_eq!(hover_range(&b), (1, 0, 3, u32::MAX));
    assert!(hover_block(&o, Some(DOC), 0).is_none());
    assert!(hover_block(&o, None, 2).is_none());
    o.hover_preview = Some(true);
    assert!(hover_block(&o, Some(DOC), 2).is_some());
    o.hover_preview = Some(false);
    assert!(!hover_enabled(&o));
    assert!(hover_block(&o, Some(DOC), 2).is_none());
}

#[test]
fn previews_are_fenced() {
    assert_eq!(
        hover_text(&Ok("a\nb".to_string())),
        "**Ansible Vault** (decrypted)\n\n```text\na\nb\n```"
    );
    assert_eq!(
        hover_text(&Ok("```".to_string())),
        "**Ansible Vault** (decrypted)\n\n`````text\n```\n`````"
    );
    assert_eq!(
        hover_text(&Ok("a `````b".to_string())),
        "**Ansible Vault** (decrypted)\n\n``````text\na `````b\n``````"
    );
    assert_eq!(hover_text(&Ok("``".to_string())), "**Ansible Vault** (decrypted)\n\n```text\n``\n```");
    assert_eq!(hover_text(&Err("no".to_string())), "**Ansible Vault**: no");
}

#[test]
fn clients_resolve_edits() {
    let v = |s: &[&str]| s.iter().map(|x| x.to_string()).collect::<Vec<String>>();
    assert!(resolves_edits(&v(&["command", "edit"])));
    assert!(!resolves_edits(&v(&["edits", "Edit"])));
    assert!(!resolves_edits(&v(&[])));
    assert_eq!(failure_notice("no"), "ansible-vault-lsp: no");
}

#[test]
fn documents_are_kept_by_uri() {
    let mut d = Documents::new();
    assert_eq!(d.get("file:///a"), None);
    d.open("file:///a", "1".to_string());
    d.open("file:///b", "2".to_string());
    d.open("file:///c", "3".to_string());
    assert_eq!(d.get("file:///b").as_deref(), Some("2"));
    d.change("file:///b", vec!["4".to_string(), "5".to_string()]);
    assert_eq!(d.get("file:///b").as_deref(), Some("5"));
    d.change("file:///b", vec![]);
    assert_eq!(d.get("file:///b").as_deref(), Some("5"));
    d.change("file:///d", vec!["6".to_string()]);
    assert_eq!(d.get("file:///d").as_deref(), Some("6"));
    d.open("file:///a", "7".to_string());
    assert_eq!(d.get("file:///a").as_deref(), Some("7"));
    d.close("file:///a");
    d.close("file:///x");
    assert_eq!(d.get("file:///a"), None);
    assert_eq!(d.get("file:///b").as_deref(), Some("5"));
    assert_eq!(d.get("file:///c").as_deref(), Some("3"));
    assert_eq!(d.get("file:///d").as_deref(), Some("6"));
}
