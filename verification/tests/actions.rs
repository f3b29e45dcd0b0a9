use ansible_vault::actions::{
    find_plain_value, find_vault_block, indent_of, needs_quoting, quote_single, render_decrypted, render_encrypted,
    unquote, VaultBlock,
};
use ansible_vault::literal::quote_double;
use ansible_vault::pattern::{split_entry, split_tag};

const DOC: &str = "\
foo: bar
db_password: !vault |
  $ANSIBLE_VAULT;1.1;AES256
  61316235353966363430386636353265336434653066343937393337343933333433626165643032
  3866
other: value
";

fn lines(s: &str) -> Vec<&str> {
    s.lines().collect()
}

fn block(indent: &str, prefix: &str) -> VaultBlock {
    VaultBlock {
        start_line: 0,
        end_line: 1,
        indent: indent.to_string(),
        prefix: prefix.to_string(),
        vaulttext: String::new(),
    }
}

#[test]
fn finds_block_from_tag_line() {
    let l = lines(DOC);
    let b = find_vault_block(&l, 1).unwrap();
    assert_eq!(b.start_line, 1);
    assert_eq!(b.end_line, 4);
    assert_eq!(b.prefix, "db_password: ");
    assert!(b.vaulttext.starts_with("$ANSIBLE_VAULT;1.1;AES256\n"));
}

#[test]
fn finds_block_from_payload_line() {
    let l = lines(DOC);
    let b = find_vault_block(&l, 3).unwrap();
    assert_eq!(b.start_line, 1);
    assert_eq!(b.end_line, 4);
}

#[test]
fn no_block_on_plain_line() {
    let l = lines(DOC);
    assert!(find_vault_block(&l, 0).is_none());
    assert!(find_vault_block(&l, 5).is_none());
}

#[test]
fn finds_plain_value() {
    let l = lines(DOC);
    let p = find_plain_value(&l, 0).unwrap();
    assert_eq!(p.prefix, "foo: ");
    assert_eq!(p.value, "bar");
    // vault tag line is not a plain value
    assert!(find_plain_value(&l, 1).is_none());
}

#[test]
fn quoted_value_unwrapped() {
    let doc = "password: \"s3cr3t: with colon\"\n";
    let l = lines(doc);
    let p = find_plain_value(&l, 0).unwrap();
    assert_eq!(p.value, "s3cr3t: with colon");
}

#[test]
fn render_roundtrip_layout() {
    let l = lines(DOC);
    let p = find_plain_value(&l, 0).unwrap();
    let rendered = render_encrypted(&p, "$ANSIBLE_VAULT;1.1;AES256\nabcdef");
    assert_eq!(rendered, "foo: !vault |\n  $ANSIBLE_VAULT;1.1;AES256\n  abcdef");

    let rl: Vec<&str> = rendered.lines().collect();
    let b = find_vault_block(&rl, 2).unwrap();
    let dec = render_decrypted(&b, "bar");
    assert_eq!(dec, "foo: bar");
}

#[test]
fn decrypted_value_quoted_when_needed() {
    let l = lines(DOC);
    let b = find_vault_block(&l, 2).unwrap();
    assert_eq!(render_decrypted(&b, "a: b"), "db_password: 'a: b'");
    assert_eq!(
        render_decrypted(&b, "line1\nline2\n"),
        "db_password: |\n  line1\n  line2"
    );
}

#[test]
fn list_item_vault() {
    let doc = "\
secrets:
  - !vault |
      $ANSIBLE_VAULT;1.1;AES256
      abcdef
";
    let l = lines(doc);
    let b = find_vault_block(&l, 2).unwrap();
    assert_eq!(b.prefix, "- ");
    assert_eq!(b.start_line, 1);
    assert_eq!(b.end_line, 3);
}

#[test]
fn tag_lines_split() {
    let parts = |s: &str| split_tag(s).map(|(a, b)| format!("{a}|{b}"));
    assert_eq!(parts("  key: !vault |").unwrap(), "  |key: ");
    assert_eq!(parts("!vault|").unwrap(), "|");
    assert_eq!(parts("k: !vault |-2  ").unwrap(), "|k: ");
    assert_eq!(parts("k: !vault \t|+").unwrap(), "|k: ");
    assert_eq!(parts("k: !vault |\u{0663}").unwrap(), "|k: ");
    assert_eq!(parts("a: !vault b: !vault |").unwrap(), "|a: !vault b: ");
    assert!(parts("k: !vault").is_none());
    assert!(parts("k: !vault | x").is_none());
    assert!(parts("k: !vault |--").is_none());
    assert!(parts("k: \n!vault |").is_none());
    assert!(parts("").is_none());
}

#[test]
fn entries_split() {
    let parts = |s: &str| split_entry(s).map(|(a, b, c)| format!("{a}|{b}|{c}"));
    assert_eq!(parts("foo: bar").unwrap(), "|foo: |bar");
    assert_eq!(parts("  - - k:   v w  ").unwrap(), "  |- - k:   |v w");
    assert_eq!(parts("- k: v").unwrap(), "|- k: |v");
    assert_eq!(parts("foo:   ").unwrap(), "|foo:  | ");
    assert_eq!(parts("url: http://x").unwrap(), "|url: |http://x");
    assert!(parts("# note: x").is_none());
    assert!(parts("foo:bar").is_none());
    assert!(parts("a:b: c").is_none());
    assert!(parts("foo: ").is_none());
    assert!(parts("plain").is_none());
    assert!(parts("").is_none());
}

#[test]
fn entry_needs_a_key() {
    // One character is enough, and it may be a colon.
    assert_eq!(split_entry("k: v").unwrap().1, "k: ");
    assert_eq!(split_entry(":: v").unwrap().1, ":: ");
    assert!(split_entry(": v").is_none());
}

#[test]
fn indent_counts_bytes() {
    assert_eq!(indent_of("  x"), 2);
    assert_eq!(indent_of("x"), 0);
    assert_eq!(indent_of("\u{a0}x"), 2);
    assert_eq!(indent_of("   "), 3);
}

#[test]
fn block_ends_at_shallow_or_blank_line() {
    let doc = "a: !vault |\n  $ANSIBLE_VAULT;1.1;AES256\n  ab\n\n  cd\n";
    let l = lines(doc);
    let b = find_vault_block(&l, 0).unwrap();
    assert_eq!(b.end_line, 2);
    assert_eq!(b.vaulttext, "$ANSIBLE_VAULT;1.1;AES256\nab");
    assert!(find_vault_block(&l, 3).is_none());
    assert!(find_vault_block(&l, 4).is_none());
    assert!(find_vault_block(&l, 5).is_none());
}

#[test]
fn block_needs_a_header() {
    let l = lines("a: !vault |\n  abcdef\n");
    assert!(find_vault_block(&l, 0).is_none());
    let l = lines("a: !vault |\n$ANSIBLE_VAULT;1.1;AES256\n");
    assert!(find_vault_block(&l, 0).is_none());
    assert!(find_vault_block(&[], 0).is_none());
}

#[test]
fn block_found_from_each_of_its_lines() {
    let l = lines(DOC);
    for cursor in 1..5 {
        let b = find_vault_block(&l, cursor).unwrap();
        assert_eq!((b.start_line, b.end_line), (1, 4));
    }
}

#[test]
fn block_ends_at_a_line_without_digits() {
    let l = lines("a: !vault |\n  $ANSIBLE_VAULT;1.1;AES256\n  ab\n  zz\n  cd\n");
    for cursor in 0..3 {
        let b = find_vault_block(&l, cursor).unwrap();
        assert_eq!((b.start_line, b.end_line), (0, 2));
        assert_eq!(b.vaulttext, "$ANSIBLE_VAULT;1.1;AES256\nab");
    }
    assert!(find_vault_block(&l, 3).is_none());
    assert!(find_vault_block(&l, 4).is_none());
}

#[test]
fn second_header_ends_the_block() {
    let l = lines("a: !vault |\n  $ANSIBLE_VAULT;1.1;AES256\n  ab\n  $ANSIBLE_VAULT;1.1;AES256\n");
    assert_eq!(find_vault_block(&l, 0).unwrap().end_line, 2);
    assert!(find_vault_block(&l, 3).is_none());
}

#[test]
fn sibling_key_is_no_payload() {
    let l = ["- foo: !vault |", "    $ANSIBLE_VAULT;1.1;AES256", "    abcdef", "  bar: x"];
    let b = find_vault_block(&l, 0).unwrap();
    assert_eq!((b.start_line, b.end_line), (0, 2));
    assert_eq!(b.vaulttext, "$ANSIBLE_VAULT;1.1;AES256\nabcdef");
    assert!(find_vault_block(&l, 3).is_none());
}

#[test]
fn other_nodes_are_not_plain() {
    for value in ["!tag x", "&a x", "*a", "|", ">", "# note", "{a: b}", "[a]", "$ANSIBLE_VAULT;1.1;AES256"] {
        let line = format!("key: {value}");
        assert!(find_plain_value(&[line.as_str()], 0).is_none(), "{value}");
    }
    assert!(find_plain_value(&["key: v"], 1).is_none());
}

#[test]
fn plain_value_keeps_indent_and_one_space() {
    let p = find_plain_value(&["x", "    - key:    'v'  "], 1).unwrap();
    assert_eq!(p.line, 1);
    assert_eq!(p.indent, "    ");
    assert_eq!(p.prefix, "- key: ");
    assert_eq!(p.value, "v");
}

#[test]
fn plain_value_may_be_empty() {
    let p = find_plain_value(&["foo:   "], 0).unwrap();
    assert_eq!((p.prefix.as_str(), p.value.as_str()), ("foo: ", ""));
}

#[test]
fn quotes_come_off_in_pairs() {
    assert_eq!(unquote("\"a\""), "a");
    assert_eq!(unquote("'a'"), "a");
    assert_eq!(unquote("'a\""), "'a\"");
    assert_eq!(unquote("'"), "'");
    assert_eq!(unquote("''"), "");
    assert_eq!(unquote("a"), "a");
}

#[test]
fn quoting_is_needed() {
    for v in ["", " a", "a ", "-a", "@a", "a: b", "a:", "a #b", "'a", "%", "\u{85}a", "a:\tb", "a\t#b", "a\rb", "a\u{7}b"] {
        assert!(needs_quoting(v), "{v}");
    }
    for v in ["a", "a:b", "a#b", "1.5", "true", "a-b", "a\tb", "\u{e4} \u{1f512}"] {
        assert!(!needs_quoting(v), "{v}");
    }
    assert_eq!(quote_single("it's"), "'it''s'");
    assert_eq!(quote_single(""), "''");
    assert_eq!(quote_single("''"), "''''''");
}

#[test]
fn several_lines_become_a_literal_scalar() {
    let b = block("  ", "k: ");
    assert_eq!(render_decrypted(&b, "a\n\nb"), "  k: |-\n    a\n\n    b");
    assert_eq!(render_decrypted(&b, "a\n"), "  k: a");
    assert_eq!(render_decrypted(&b, ""), "  k: ''");
    assert_eq!(render_decrypted(&b, " a\nb"), "  k: |2-\n     a\n    b");
    assert_eq!(render_decrypted(&b, "a\n\n"), "  k: |+\n    a\n\n  # end of value");
    assert_eq!(render_decrypted(&b, "\n\n"), "  k: |2+\n\n\n  # end of value");
}

#[test]
fn lines_stand_deeper_than_the_key() {
    assert_eq!(render_decrypted(&block("", "- foo: "), "a\nb"), "- foo: |-\n    a\n    b");
    assert_eq!(render_decrypted(&block("", "- - foo: "), "a\nb"), "- - foo: |-\n      a\n      b");
    assert_eq!(render_decrypted(&block("", "-   foo: "), "a\nb"), "-   foo: |-\n      a\n      b");
    assert_eq!(render_decrypted(&block(" ", "- "), "a\nb"), " - |-\n   a\n   b");
    assert_eq!(render_decrypted(&block("", "- "), "a\nb"), "- |-\n  a\n  b");
    assert_eq!(render_decrypted(&block("", "- - "), " a\nb"), "- - |2-\n     a\n    b");
    assert_eq!(render_decrypted(&block("", "-foo: "), "a\nb"), "-foo: |-\n  a\n  b");
    let p = find_plain_value(&["- foo: bar"], 0).unwrap();
    assert_eq!(
        render_encrypted(&p, "$ANSIBLE_VAULT;1.1;AES256\nabcdef"),
        "- foo: !vault |\n    $ANSIBLE_VAULT;1.1;AES256\n    abcdef"
    );
}

#[test]
fn text_that_no_literal_scalar_holds_is_double_quoted() {
    let b = block("", "k: ");
    assert_eq!(render_decrypted(&b, "a\r\n\"b\\\u{85}\n"), "k: \"a\\r\\n\\\"b\\\\\\u0085\\n\"");
    assert_eq!(render_decrypted(&b, "a\n\u{feff}\u{1}"), "k: \"a\\n\\ufeff\\u0001\"");
    // Without a key on the line the indentation cannot be written out.
    assert_eq!(render_decrypted(&block("  ", ""), " a\nb"), "  \" a\\nb\"");
    assert_eq!(render_decrypted(&block("  ", ""), "a\nb"), "  |-\n    a\n    b");
    assert_eq!(quote_double(""), "\"\"");
    assert_eq!(quote_double("\u{1f512}\t"), "\"\u{1f512}\t\"");
}

/// The value that YAML gives a literal block scalar, from its header and the rows
/// under it. `parent` is the column of its key or dash.
fn literal_value(header: &str, rows: &[&str], parent: usize) -> String {
    assert!(header.starts_with('|'));
    let spaces = |l: &str| l.len() - l.trim_start_matches(' ').len();
    let blank = |l: &str| spaces(l) == l.len();
    let n = match header.chars().nth(1).and_then(|c| c.to_digit(10)) {
        Some(d) => parent + d as usize,
        None => rows.iter().find(|l| !blank(l)).map_or(0, |l| spaces(l)),
    };
    assert!(n > parent);
    let mut content: Vec<&str> = rows
        .iter()
        .take_while(|l| blank(l) || spaces(l) >= n)
        .map(|l| if l.len() <= n { "" } else { &l[n..] })
        .collect();
    if !header.ends_with('+') {
        while content.last().is_some_and(|l| l.is_empty()) {
            content.pop();
        }
    }
    let mut out = content.join("\n");
    if !header.ends_with('-') && !content.is_empty() {
        out.push('\n');
    }
    out
}

#[test]
fn literal_scalar_keeps_the_plaintext() {
    for (indent, prefix, column) in
        [("", "k: ", 0), ("    ", "- k: ", 6), ("", "- ", 0), ("  ", "- - ", 4), ("", "-  k: ", 3)]
    {
        for plaintext in [
            "a\nb", "a\nb\n", "a\n  b\n\nc", "\na\n b\n", "a\nb\n\n", "a\n\n\n", "  a\nb", " \n a\n\n", "\n\n", "a\n  ",
        ] {
            let text = render_decrypted(&block(indent, prefix), plaintext);
            assert!(!text.ends_with('\n'));
            // What follows in a document changes nothing.
            for below in ["", "\n", "\n\nnext: 1"] {
                let document = format!("{text}{below}");
                let rows: Vec<&str> = document.split('\n').collect();
                let header = rows[0].strip_prefix(indent).unwrap().strip_prefix(prefix).unwrap();
                assert_eq!(literal_value(header, &rows[1..], column), plaintext, "{document}");
            }
        }
    }
}

/// The text of a YAML scalar on one line, where it is one.
fn scalar_value(s: &str) -> Option<String> {
    if let Some(inner) = s.strip_prefix('\'') {
        let inner = inner.strip_suffix('\'')?;
        let single = inner.replace("''", "");
        return (!single.contains('\'')).then_some(inner.replace("''", "'"));
    }
    if let Some(inner) = s.strip_prefix('"') {
        let mut out = String::new();
        let mut rest = inner.strip_suffix('"')?.chars();
        while let Some(c) = rest.next() {
            match c {
                '"' => return None,
                '\\' => match rest.next()? {
                    'n' => out.push('\n'),
                    'r' => out.push('\r'),
                    'u' => {
                        let digits: String = rest.by_ref().take(4).collect();
                        out.push(char::from_u32(u32::from_str_radix(&digits, 16).ok()?)?);
                    }
                    other => out.push(other),
                },
                other => out.push(other),
            }
        }
        return Some(out);
    }
    let broken = [": ", ":\t", " #", "\t#"].iter().any(|p| s.contains(p)) || s.ends_with(':') || s.trim() != s;
    (!broken && !s.is_empty()).then(|| s.to_string())
}

#[test]
fn one_line_scalar_keeps_the_plaintext() {
    let b = block("  ", "k: ");
    for plaintext in [
        "", "a", " a ", "it's: 'x' # y", "a:\tb", "a\t#b", "a\rb", "x\u{0}\u{85}\u{2028}\"\\", "- a", "\"", "a:", "\u{1f512}",
    ] {
        let text = render_decrypted(&b, plaintext);
        let scalar = text.strip_prefix("  k: ").unwrap();
        assert!(!text.contains('\n'));
        assert_eq!(scalar_value(scalar).as_deref(), Some(plaintext), "{text}");
        // One line feed at the end is dropped.
        assert_eq!(render_decrypted(&b, &format!("{plaintext}\n")), text);
    }
    assert_eq!(render_decrypted(&b, "a\rb"), "  k: \"a\\rb\"");
    assert_eq!(render_decrypted(&b, "a:\tb"), "  k: 'a:\tb'");
}

#[test]
fn encrypted_value_is_a_block_of_its_key() {
    let vaulttext = "$ANSIBLE_VAULT;1.1;AES256\n00ff\nab";
    for (line, column) in [("k: v", 0), ("  - k: v", 4), ("- - k: v", 4), ("-  k: v", 3)] {
        let p = find_plain_value(&[line], 0).unwrap();
        let text = render_encrypted(&p, vaulttext) + "\n\nnext: 1";
        let rows: Vec<&str> = text.split('\n').collect();
        assert!(rows[0].ends_with("k: !vault |"));
        assert_eq!(literal_value("|", &rows[1..], column), format!("{vaulttext}\n"));
    }
}

#[test]
fn quoted_scalar_keeps_the_plaintext() {
    for v in ["it's", "'''", "- a", ""] {
        let q = quote_single(v);
        assert_eq!(q[1..q.len() - 1].replace("''", "'"), v);
    }
}

#[test]
fn encrypting_and_decrypting_restores_the_line() {
    for line in ["foo: bar", "  - k: 'a: b'", "x: \u{e4}", "k: 'it'  "] {
        let p = find_plain_value(&[line], 0).unwrap();
        let rendered = render_encrypted(&p, "$ANSIBLE_VAULT;1.1;AES256\n00ff");
        let rows: Vec<&str> = rendered.lines().collect();
        let b = find_vault_block(&rows, 1).unwrap();
        assert_eq!((b.start_line, b.end_line), (0, 2));
        assert_eq!(b.vaulttext, "$ANSIBLE_VAULT;1.1;AES256\n00ff");
        let restored = render_decrypted(&b, &p.value);
        if line == "k: 'it'  " {
            assert_eq!(restored, "k: it");
        } else {
            assert_eq!(restored, line.trim_end());
        }
    }
}
