//! Where passwords come from, told over settings and outputs that are put together
//! from their parts: the configurations that are looked at, the files that they
//! name, the passwords that files and programs give, and how a program is run.

use vstd::prelude::*;
use vstd::string::*;
use vstd::utf8::*;
use crate::cli;
use crate::cli::InvocationText;
use crate::config;
use crate::document_laws;
use crate::password;
use crate::password::LocationText;
use crate::text;

verus! {

broadcast use vstd::string::group_string_axioms;

// ---------------------------------------------------------------------------
// Configurations
// ---------------------------------------------------------------------------

/// `~/` before a path stands for the home directory, where there is one. Every
/// other path is taken as it is.
pub proof fn law_home_directory(rest: Seq<char>, path: Seq<char>)
    ensures
        password::tilde_expanded(seq!['~', '/'] + rest, true) == LocationText::InHome(rest),
        password::tilde_expanded(path, false) == LocationText::Given(path),
        path.len() < 2 || path[0] != '~' || path[1] != '/' ==> password::tilde_expanded(path, true) == LocationText::Given(
            path,
        ),
{
    reveal_strlit("~/");
    let whole = seq!['~', '/'] + rest;
    assert(whole.take(2) =~= "~/"@);
    assert(whole.skip(2) =~= rest);
    if path.len() >= 2 && path.take(2) == "~/"@ {
        assert(path.take(2)[0] == path[0]);
        assert(path.take(2)[1] == path[1]);
    }
}

/// The configuration of every directory from the document's upwards is looked at,
/// the nearest first: after the one that the environment names, and before those
/// of the home directory and of the system. There are no others.
pub proof fn law_configurations_in_order(env_config: Option<Seq<char>>, ancestors: nat, home: bool)
    ensures
        ({
            let all = password::config_locations(env_config, ancestors, home);
            let first: int = if env_config is Some && env_config->0.len() > 0 {
                1
            } else {
                0
            };
            &&& all.len() == first + ancestors + (if home {
                2int
            } else {
                1
            })
            &&& first == 1 ==> all[0] == (if home && env_config->0.len() >= 2 && env_config->0[0] == '~' && env_config->0[1]
                == '/' {
                LocationText::InHome(env_config->0.skip(2))
            } else {
                LocationText::Given(env_config->0)
            })
            &&& forall|i: int|
                0 <= i < ancestors ==> #[trigger] all[first + i] == (LocationText::InAncestor {
                    up: i,
                    name: "ansible.cfg"@,
                })
            &&& home ==> all[first + ancestors] == LocationText::InHome(".ansible.cfg"@)
            &&& all.last() == LocationText::Given("/etc/ansible/ansible.cfg"@)
        }),
{
    if env_config is Some {
        let path = env_config->0;
        law_home_directory(path.skip(2), path);
        if path.len() >= 2 && path[0] == '~' && path[1] == '/' {
            assert(seq!['~', '/'] + path.skip(2) =~= path);
        }
    }
}

/// A directory higher up adds its configuration and changes nothing before it.
pub proof fn law_higher_directory_added(env_config: Option<Seq<char>>, ancestors: nat, home: bool)
    ensures
        ({
            let fewer = password::config_locations(env_config, ancestors, home);
            let more = password::config_locations(env_config, ancestors + 1, home);
            let at = fewer.len() - (if home {
                2int
            } else {
                1
            });
            more == fewer.insert(at, LocationText::InAncestor { up: ancestors as int, name: "ansible.cfg"@ })
        }),
{
    let fewer = password::config_locations(env_config, ancestors, home);
    let more = password::config_locations(env_config, ancestors + 1, home);
    let at = fewer.len() - (if home {
        2int
    } else {
        1
    });
    assert(more =~= fewer.insert(at, LocationText::InAncestor { up: ancestors as int, name: "ansible.cfg"@ }));
}

/// `line` sets `key` to `value`, with white space around each.
pub open spec fn sets(
    line: Seq<char>,
    before: Seq<char>,
    key: Seq<char>,
    left: Seq<char>,
    right: Seq<char>,
    value: Seq<char>,
    after: Seq<char>,
) -> bool {
    &&& line == before + key + left + seq!['='] + right + value + after
    &&& text::blank(before) && text::blank(left) && text::blank(right) && text::blank(after)
    &&& key.len() > 0 && !text::is_ws(key[0]) && !text::is_ws(key.last()) && !key.contains('=')
    &&& value.len() > 0 ==> !text::is_ws(value[0]) && !text::is_ws(value.last())
}

/// How a line that sets a key is taken apart.
proof fn lemma_setting(
    line: Seq<char>,
    before: Seq<char>,
    key: Seq<char>,
    left: Seq<char>,
    right: Seq<char>,
    value: Seq<char>,
    after: Seq<char>,
)
    requires
        sets(line, before, key, left, right, value, after),
    ensures
        ({
            let t = text::trim_of(line);
            let i = text::find_char(t, '=');
            &&& 0 < i < t.len()
            &&& t[0] == key[0]
            &&& text::trim_of(t.take(i)) == key
            &&& text::trim_of(t.skip(i + 1)) == value
        }),
{
    let core = key + left + seq!['='] + right + value + after;
    // What trimming leaves of it: all but what is white space at the end.
    let kept = if value.len() > 0 {
        key + left + seq!['='] + right + value
    } else {
        key + left + seq!['=']
    };
    let end = if value.len() > 0 {
        after
    } else {
        right + after
    };
    assert(text::blank(end)) by {
        assert forall|i: int| 0 <= i < end.len() implies text::is_ws(#[trigger] end[i]) by {
            if value.len() > 0 {
                assert(text::is_ws(after[i]));
            } else if i < right.len() {
                assert(text::is_ws(right[i]));
            } else {
                assert(text::is_ws(after[i - right.len()]));
            }
        }
    }
    assert(value.len() == 0 ==> value =~= seq![]);
    assert(line =~= before + kept + end);
    assert(kept[0] == key[0]);
    assert(!text::is_ws(kept.last()));
    document_laws::law_trimmed(before, kept, end);
    let n = (key + left).len() as int;
    assert forall|i: int| 0 <= i < n implies kept[i] != '=' by {
        if i < key.len() {
            assert(key.contains(key[i]));
        } else {
            assert(text::is_ws(left[i - key.len()]));
        }
    }
    assert(kept[n] == '=');
    text::lemma_find_char_is(kept, '=', n);
    assert(kept.take(n) =~= seq![] + key + left);
    assert(text::blank(Seq::<char>::empty()));
    document_laws::law_trimmed(seq![], key, left);
    if value.len() > 0 {
        assert(kept.skip(n + 1) =~= right + value + seq![]);
        document_laws::law_trimmed(right, value, seq![]);
    } else {
        assert(kept.skip(n + 1) =~= seq![]);
        text::lemma_trim_blank(Seq::<char>::empty());
    }
}

/// Inside `[defaults]`, a line that sets `vault_password_file` names its value,
/// after all files that were named before.
pub proof fn law_password_file_named(
    lines: Seq<Seq<char>>,
    line: Seq<char>,
    before: Seq<char>,
    left: Seq<char>,
    right: Seq<char>,
    value: Seq<char>,
    after: Seq<char>,
)
    requires
        config::in_defaults(lines),
        sets(line, before, "vault_password_file"@, left, right, value, after),
    ensures
        config::config_files(lines.push(line)) == config::config_files(lines).push(value),
        config::in_defaults(lines.push(line)),
{
    reveal_strlit("vault_password_file");
    lemma_setting(line, before, "vault_password_file"@, left, right, value, after);
    assert(lines.push(line).drop_last() =~= lines);
    assert(config::config_files(lines) + seq![value] =~= config::config_files(lines).push(value));
}

/// Inside `[defaults]`, a line that sets `vault_identity_list` names the files of
/// all its entries, which commas part.
pub proof fn law_identity_list_named(
    lines: Seq<Seq<char>>,
    line: Seq<char>,
    before: Seq<char>,
    left: Seq<char>,
    right: Seq<char>,
    entries: Seq<Seq<char>>,
    after: Seq<char>,
)
    requires
        config::in_defaults(lines),
        entries.len() > 0,
        forall|i: int| 0 <= i < entries.len() ==> !(#[trigger] entries[i]).contains(','),
        sets(line, before, "vault_identity_list"@, left, right, text::join_with(entries, seq![',']), after),
    ensures
        config::config_files(lines.push(line)) == config::config_files(lines) + config::identity_files(entries),
        config::in_defaults(lines.push(line)),
{
    reveal_strlit("vault_password_file");
    reveal_strlit("vault_identity_list");
    let value = text::join_with(entries, seq![',']);
    assert("vault_identity_list"@[6] != "vault_password_file"@[6]);
    lemma_setting(line, before, "vault_identity_list"@, left, right, value, after);
    assert(lines.push(line).drop_last() =~= lines);
    lemma_split_joined(entries, ',');
}

/// Texts that are joined by a character that none of them holds come apart again.
pub proof fn lemma_split_joined(parts: Seq<Seq<char>>, sep: char)
    requires
        parts.len() > 0,
        forall|i: int| 0 <= i < parts.len() ==> !(#[trigger] parts[i]).contains(sep),
    ensures
        text::split_on(text::join_with(parts, seq![sep]), sep) == parts,
    decreases parts.len(),
{
    let first = parts[0];
    assert forall|i: int| 0 <= i < first.len() implies first[i] != sep by {
        assert(first.contains(first[i]));
    }
    if parts.len() == 1 {
        reveal_with_fuel(text::join_with, 2);
        text::lemma_split_none(first, sep);
        assert(text::join_with(parts, seq![sep]) =~= first);
        assert(parts =~= seq![first]);
    } else {
        let rest = parts.skip(1);
        assert forall|i: int| 0 <= i < rest.len() implies !(#[trigger] rest[i]).contains(sep) by {
            assert(rest[i] == parts[i + 1]);
        }
        lemma_split_joined(rest, sep);
        assert(parts =~= seq![first] + rest);
        text::lemma_join_first(first, rest, seq![sep]);
        let tail = text::join_with(rest, seq![sep]);
        assert(text::join_with(parts, seq![sep]) =~= first.push(sep) + tail);
        text::lemma_split_first(first, tail, sep);
    }
}

/// Each entry of an identity list names the file behind the first `@`, or all of it
/// where there is none. An entry that is blank names nothing.
pub proof fn law_identity_names_file(
    entries: Seq<Seq<char>>,
    before: Seq<char>,
    label: Seq<char>,
    gap: Seq<char>,
    file: Seq<char>,
    after: Seq<char>,
)
    requires
        text::blank(before) && text::blank(gap) && text::blank(after),
        !label.contains('@'),
        label.len() > 0 ==> !text::is_ws(label[0]),
        file.len() > 0 && !text::is_ws(file[0]) && !text::is_ws(file.last()),
    ensures
        config::identity_files(entries.push(before + label + seq!['@'] + gap + file + after)) == config::identity_files(
            entries,
        ).push(file),
        !file.contains('@') ==> config::identity_files(entries.push(before + file + after)) == config::identity_files(
            entries,
        ).push(file),
        config::identity_files(entries.push(before)) == config::identity_files(entries),
{
    let entry = label + seq!['@'] + gap + file;
    let whole = before + label + seq!['@'] + gap + file + after;
    assert(whole =~= before + entry + after);
    assert(entry.last() == file.last());
    assert(!text::is_ws(entry[0]));
    document_laws::law_trimmed(before, entry, after);
    assert forall|i: int| 0 <= i < label.len() implies entry[i] != '@' by {
        assert(label.contains(label[i]));
    }
    text::lemma_find_char_is(entry, '@', label.len() as int);
    assert(entry.skip(label.len() as int + 1) =~= gap + file + seq![]);
    assert(text::blank(Seq::<char>::empty()));
    document_laws::law_trimmed(gap, file, seq![]);
    assert(entries.push(whole).drop_last() =~= entries);
    document_laws::law_trimmed(before, file, after);
    text::lemma_trim_unchanged(file);
    if !file.contains('@') {
        assert forall|i: int| 0 <= i < file.len() implies file[i] != '@' by {
            assert(file.contains(file[i]));
        }
        text::lemma_find_char_is(file, '@', file.len() as int);
    }
    assert(entries.push(before + file + after).drop_last() =~= entries);
    text::lemma_trim_blank(before);
    assert(entries.push(before).drop_last() =~= entries);
}

/// A list without entries, and a configuration without lines, name nothing, and
/// the section `[defaults]` is only entered by its header.
pub proof fn law_nothing_named_first()
    ensures
        config::identity_files(seq![]) == Seq::<Seq<char>>::empty(),
        config::config_files(seq![]) == Seq::<Seq<char>>::empty(),
        !config::in_defaults(seq![]),
{
}

/// A section header opens the section `[defaults]`, in whatever case it is written,
/// or leaves it. It names no file.
pub proof fn law_section_header(lines: Seq<Seq<char>>, before: Seq<char>, header: Seq<char>, after: Seq<char>)
    requires
        text::blank(before) && text::blank(after),
        header.len() > 0 && header[0] == '[' && !text::is_ws(header.last()),
    ensures
        config::in_defaults(lines.push(before + header + after)) <==> (header.len() == 10 && forall|i: int|
            0 <= i < 10 ==> (#[trigger] header[i] == "[defaults]"@[i] || header[i] == "[DEFAULTS]"@[i])),
        config::config_files(lines.push(before + header + after)) == config::config_files(lines),
{
    reveal_strlit("[defaults]");
    reveal_strlit("[DEFAULTS]");
    let line = before + header + after;
    document_laws::law_trimmed(before, header, after);
    assert(lines.push(line).drop_last() =~= lines);
    assert(config::config_files(lines) + seq![] =~= config::config_files(lines));
    let d = "[defaults]"@;
    let u = "[DEFAULTS]"@;
    assert(d.len() == 10 && u.len() == 10);
    if header.len() == 10 {
        assert forall|i: int| 0 <= i < 10 implies (config::ascii_lower(#[trigger] header[i]) == config::ascii_lower(d[i]))
            == (header[i] == d[i] || header[i] == u[i]) by {
            lemma_lower(d[i], u[i], header[i]);
        }
    }
}

/// The characters that are the same as `l` but for case.
proof fn lemma_lower(l: char, u: char, c: char)
    requires
        ('a' <= l <= 'z' && u as int == l as int - 32) || (l == u && !('a' <= l <= 'z') && !('A' <= l <= 'Z')),
    ensures
        (config::ascii_lower(c) == config::ascii_lower(l)) == (c == l || c == u),
{
}

/// A line that is no section header does not change the section.
pub proof fn law_section_kept(lines: Seq<Seq<char>>, before: Seq<char>, s: Seq<char>, after: Seq<char>)
    requires
        text::blank(before) && text::blank(after),
        s.len() > 0 ==> s[0] != '[' && !text::is_ws(s[0]) && !text::is_ws(s.last()),
    ensures
        config::in_defaults(lines.push(before + s + after)) == config::in_defaults(lines),
{
    let line = before + s + after;
    document_laws::law_trimmed(before, s, after);
    assert(lines.push(line).drop_last() =~= lines);
}

/// Outside `[defaults]` no line names a file; inside, a comment, a blank line, a
/// line that sets nothing and one that sets another key name none.
pub proof fn law_other_lines_name_nothing(
    lines: Seq<Seq<char>>,
    line: Seq<char>,
    before: Seq<char>,
    s: Seq<char>,
    after: Seq<char>,
    key: Seq<char>,
    left: Seq<char>,
    right: Seq<char>,
    value: Seq<char>,
)
    requires
        text::blank(before) && text::blank(after),
        s.len() > 0 ==> !text::is_ws(s[0]) && !text::is_ws(s.last()),
    ensures
        !config::in_defaults(lines) ==> config::config_files(lines.push(line)) == config::config_files(lines),
        s.len() == 0 || s[0] == '#' || s[0] == ';' || !s.contains('=') ==> config::config_files(
            lines.push(before + s + after),
        ) == config::config_files(lines),
        sets(line, before, key, left, right, value, after) && key != "vault_password_file"@ && key
            != "vault_identity_list"@ ==> config::config_files(lines.push(line)) == config::config_files(lines),
{
    let none = Seq::<Seq<char>>::empty();
    assert(config::config_files(lines) + none =~= config::config_files(lines));
    assert(lines.push(line).drop_last() =~= lines);
    let other = before + s + after;
    assert(lines.push(other).drop_last() =~= lines);
    document_laws::law_trimmed(before, s, after);
    if !s.contains('=') {
        assert forall|i: int| 0 <= i < s.len() implies s[i] != '=' by {
            assert(s.contains(s[i]));
        }
        text::lemma_find_char_is(s, '=', s.len() as int);
    }
    if sets(line, before, key, left, right, value, after) {
        lemma_setting(line, before, key, left, right, value, after);
    }
}

// ---------------------------------------------------------------------------
// Password files
// ---------------------------------------------------------------------------

/// A password file gives all that stands before the carriage returns and line
/// feeds at its end, and nothing where it holds no more than those.
pub proof fn law_password_before_line_ends(p: Seq<char>, ends: Seq<char>)
    requires
        forall|i: int| 0 <= i < ends.len() ==> #[trigger] ends[i] == '\r' || ends[i] == '\n',
        p.len() > 0 ==> p.last() != '\r' && p.last() != '\n',
    ensures
        password::without_line_ends(p + ends) == p,
        password::if_not_empty(password::without_line_ends(p + ends)) == (if p.len() > 0 {
            Some(p)
        } else {
            None
        }),
    decreases ends.len(),
{
    let whole = p + ends;
    if ends.len() > 0 {
        assert(whole.last() == ends[ends.len() - 1]);
        assert(whole.drop_last() =~= p + ends.drop_last());
        law_password_before_line_ends(p, ends.drop_last());
    } else {
        assert(whole =~= p);
    }
}

// ---------------------------------------------------------------------------
// Running `ansible-vault`
// ---------------------------------------------------------------------------

/// A run that succeeded gives all that it printed, whatever that is and whatever it
/// said besides, where that is UTF-8; it fails otherwise. A run that failed tells
/// its status and all that it said, without the white space around that.
pub proof fn law_run_gives_whole_output(
    t: Seq<char>,
    status: Seq<char>,
    stdout: Seq<u8>,
    before: Seq<char>,
    said: Seq<char>,
    after: Seq<char>,
)
    requires
        text::blank(before) && text::blank(after),
        said.len() > 0 ==> !text::is_ws(said[0]) && !text::is_ws(said.last()),
    ensures
        cli::run_outcome(true, status, encode_utf8(t), before + said + after) == Ok::<Seq<char>, Seq<char>>(t),
        !valid_utf8(stdout) ==> cli::run_outcome(true, status, stdout, before + said + after) == Err::<
            Seq<char>,
            Seq<char>,
        >("ansible-vault output is not UTF-8"@),
        cli::run_outcome(false, status, stdout, before + said + after) == Err::<Seq<char>, Seq<char>>(
            "ansible-vault failed ("@ + status + "): "@ + said,
        ),
{
    encode_utf8_valid_utf8(t);
    encode_utf8_decode_utf8(t);
    document_laws::law_trimmed(before, said, after);
}

/// Files that are all different are all handed over, in their order.
proof fn lemma_distinct_files(files: Seq<Seq<char>>)
    requires
        files.no_duplicates(),
    ensures
        cli::firsts(files) == files,
    decreases files.len(),
{
    if files.len() > 0 {
        let front = files.drop_last();
        lemma_distinct_files(front);
        if front.contains(files.last()) {
            let i = choose|i: int| 0 <= i < front.len() && front[i] == files.last();
            assert(files[i] == files[files.len() - 1]);
        }
        assert(front.push(files.last()) =~= files);
    }
}

/// The arguments for password files are a switch and the file, one pair per file.
proof fn lemma_file_args(files: Seq<Seq<char>>, i: int)
    requires
        0 <= i < files.len(),
    ensures
        cli::file_args(files).len() == 2 * files.len(),
        cli::file_args(files)[2 * i] == "--vault-password-file"@,
        cli::file_args(files)[2 * i + 1] == files[i],
    decreases files.len(),
{
    let front = files.drop_last();
    let before = cli::file_args(front);
    assert(cli::file_args(files) == before + seq!["--vault-password-file"@, files.last()]);
    lemma_file_args_len(front);
    if i < files.len() - 1 {
        lemma_file_args(front, i);
    }
}

proof fn lemma_file_args_len(files: Seq<Seq<char>>)
    ensures
        cli::file_args(files).len() == 2 * files.len(),
    decreases files.len(),
{
    if files.len() > 0 {
        lemma_file_args_len(files.drop_last());
    }
}

/// Decryption hands every file over, each behind `--vault-password-file`, in the
/// order in which they were found, and nothing else.
pub proof fn law_decryption_arguments(files: Seq<Seq<char>>, i: int)
    requires
        files.no_duplicates(),
    ensures
        cli::decryption(seq![], files) is Ok,
        ({
            let args = cli::decryption(seq![], files)->Ok_0.args;
            &&& args.len() == 3 + 2 * files.len()
            &&& args[0] == "decrypt"@ && args[1] == "--output"@ && args[2] == "-"@
            &&& 0 <= i < files.len() ==> args[3 + 2 * i] == "--vault-password-file"@ && args[4 + 2 * i] == files[i]
        }),
{
    lemma_distinct_files(files);
    lemma_file_args_len(files);
    let args = cli::decryption(seq![], files)->Ok_0.args;
    let rest = cli::file_args(files);
    assert(args == seq!["decrypt"@, "--output"@, "-"@] + rest);
    if 0 <= i < files.len() {
        lemma_file_args(files, i);
        assert(args[3 + 2 * i] == rest[2 * i]);
        assert(args[4 + 2 * i] == rest[2 * i + 1]);
    }
}

/// A file that was found again is not handed over again.
pub proof fn law_repeated_file_once(files: Seq<Seq<char>>, i: int)
    requires
        0 <= i < files.len(),
    ensures
        cli::decryption(seq![], files.push(files[i])) == cli::decryption(seq![], files),
{
    let more = files.push(files[i]);
    assert(more.drop_last() =~= files);
    assert(files.contains(files[i]));
}

/// Encryption hands the first file over and no other: behind
/// `--vault-password-file`, or, under a label, behind `--vault-id` with the label
/// before it. The label chooses the identity to encrypt with. Without a file,
/// nothing but the label is handed over.
pub proof fn law_encryption_arguments(file: Seq<char>, more: Seq<Seq<char>>, id: Seq<char>)
    requires
        id.len() > 0,
    ensures
        ({
            let files = seq![file] + more;
            let head = seq!["encrypt"@, "--output"@, "-"@];
            let plain = head + seq!["--vault-password-file"@, file];
            let labelled = head + seq!["--vault-id"@, id + seq!['@'] + file, "--encrypt-vault-id"@, id];
            &&& cli::encryption(seq![], files, None) == Ok::<InvocationText, Seq<char>>(
                InvocationText { args: plain, drop_password_variable: true },
            )
            &&& cli::encryption(seq![], files, Some(seq![])) == cli::encryption(seq![], files, None)
            &&& cli::encryption(seq![], files, Some(id)) == Ok::<InvocationText, Seq<char>>(
                InvocationText { args: labelled, drop_password_variable: true },
            )
            &&& cli::encryption(seq![], seq![], None) == Ok::<InvocationText, Seq<char>>(
                InvocationText { args: head, drop_password_variable: false },
            )
            &&& cli::encryption(seq![], seq![], Some(id)) == Ok::<InvocationText, Seq<char>>(
                InvocationText { args: head + seq!["--encrypt-vault-id"@, id], drop_password_variable: false },
            )
        }),
{
    reveal_strlit("@");
    let files = seq![file] + more;
    let none = Seq::<Seq<char>>::empty();
    let head = seq!["encrypt"@, "--output"@, "-"@];
    cli::lemma_firsts(files);
    let first = cli::firsts(files).take(1);
    assert(first =~= seq![file]);
    assert(first.drop_last() =~= none);
    assert(cli::file_args(none) =~= none);
    assert(cli::file_args(first) =~= seq!["--vault-password-file"@, file]);
    assert(cli::identity_args(id, first) =~= seq!["--vault-id"@, id + seq!['@'] + file, "--encrypt-vault-id"@, id]) by {
        assert(id + "@"@ + file =~= id + seq!['@'] + file);
    }
    assert(cli::firsts(none) =~= none);
    assert(head + none =~= head);
    assert(cli::identity_args(id, none) =~= seq!["--encrypt-vault-id"@, id]);
}

/// A password that was given as it is is refused, for either operation.
pub proof fn law_given_password_refused(
    literals: Seq<Seq<char>>,
    files: Seq<Seq<char>>,
    vault_id: Option<Seq<char>>,
)
    ensures
        cli::decryption(literals, files) is Err <==> literals.len() > 0,
        cli::encryption(literals, files, vault_id) is Err <==> literals.len() > 0,
        literals.len() > 0 ==> cli::decryption(literals, files)->Err_0 == cli::LITERAL_PASSWORD@,
        literals.len() > 0 ==> cli::encryption(literals, files, vault_id)->Err_0 == cli::LITERAL_PASSWORD@,
{
}

/// What an encryption printed is taken whole, but for the white space at its end,
/// where it begins with the vault header after white space, and refused otherwise.
pub proof fn law_encryption_output_taken(before: Seq<char>, s: Seq<char>, after: Seq<char>)
    requires
        text::blank(before) && text::blank(after),
        s.len() > 0 && !text::is_ws(s[0]) && !text::is_ws(s.last()),
    ensures
        "$ANSIBLE_VAULT"@.is_prefix_of(s) ==> cli::encryption_outcome(before + s + after) == Ok::<Seq<char>, Seq<char>>(
            before + s,
        ),
        !"$ANSIBLE_VAULT"@.is_prefix_of(s) ==> cli::encryption_outcome(before + s + after) == Err::<Seq<char>, Seq<char>>(
            "ansible-vault encrypt produced unexpected output"@,
        ),
        cli::encryption_outcome(before) is Err,
{
    reveal_strlit("$ANSIBLE_VAULT");
    document_laws::law_trimmed(before, s, after);
    assert(text::blank(Seq::<char>::empty()));
    document_laws::law_trimmed(before, s, seq![]);
    assert(before + s + seq![] =~= before + s);
    assert(s + seq![] =~= s);
    if s.len() >= 14 {
        assert(s.take(14) =~= s.subrange(0, 14));
    }
    document_laws::law_trimmed(before, seq![], seq![]);
    assert(before + seq![] + seq![] =~= before);
    text::lemma_indent_len_is(Seq::<char>::empty(), 0);
}

} // verus!
