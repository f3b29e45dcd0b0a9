//! The password files that an `ansible.cfg` names: `vault_password_file` and
//! `vault_identity_list` in its `[defaults]` section.

use vstd::prelude::*;
use crate::text;
use crate::text::{chars_of, index_of, lines, same_text, split, text_of, trim};

verus! {

broadcast use vstd::string::group_string_axioms;

/// `c` in lower case, where it is an ASCII letter.
pub open spec fn ascii_lower(c: char) -> char {
    if 'A' <= c <= 'Z' {
        (c as u32 + 32) as char
    } else {
        c
    }
}

/// The same text, but for the case of ASCII letters.
pub open spec fn same_ignoring_case(a: Seq<char>, b: Seq<char>) -> bool {
    a.len() == b.len() && forall|i: int| 0 <= i < a.len() ==> ascii_lower(#[trigger] a[i]) == ascii_lower(b[i])
}

/// The lines end inside the `[defaults]` section: the last section header is
/// that one.
pub open spec fn in_defaults(lines: Seq<Seq<char>>) -> bool
    decreases lines.len(),
{
    if lines.len() == 0 {
        false
    } else {
        let t = text::trim_of(lines.last());
        if t.len() > 0 && t[0] == '[' {
            same_ignoring_case(t, "[defaults]"@)
        } else {
            in_defaults(lines.drop_last())
        }
    }
}

/// The file of one identity, which may have a label and `@` before it.
pub open spec fn identity_file(entry: Seq<char>) -> Seq<char> {
    let i = text::find_char(entry, '@');
    if i < entry.len() {
        text::trim_of(entry.skip(i + 1))
    } else {
        text::trim_of(entry)
    }
}

/// The files of a list of identities. Blank entries name none.
pub open spec fn identity_files(entries: Seq<Seq<char>>) -> Seq<Seq<char>>
    decreases entries.len(),
{
    if entries.len() == 0 {
        seq![]
    } else {
        let rest = identity_files(entries.drop_last());
        let entry = text::trim_of(entries.last());
        if entry.len() == 0 {
            rest
        } else {
            rest.push(identity_file(entry))
        }
    }
}

/// The password files that a line inside `[defaults]` names.
pub open spec fn setting_files(line: Seq<char>) -> Seq<Seq<char>> {
    let t = text::trim_of(line);
    let i = text::find_char(t, '=');
    if t.len() == 0 || t[0] == '#' || t[0] == ';' || t[0] == '[' || i >= t.len() {
        seq![]
    } else {
        let key = text::trim_of(t.take(i));
        let value = text::trim_of(t.skip(i + 1));
        if key == "vault_password_file"@ {
            seq![value]
        } else if key == "vault_identity_list"@ {
            identity_files(text::split_on(value, ','))
        } else {
            seq![]
        }
    }
}

/// The password files that the lines of an `ansible.cfg` name, in order.
pub open spec fn config_files(lines: Seq<Seq<char>>) -> Seq<Seq<char>>
    decreases lines.len(),
{
    if lines.len() == 0 {
        seq![]
    } else if in_defaults(lines.drop_last()) {
        config_files(lines.drop_last()) + setting_files(lines.last())
    } else {
        config_files(lines.drop_last())
    }
}

/// `c` in lower case, where it is an ASCII letter.
fn lower(c: char) -> (r: char)
    ensures
        r == ascii_lower(c),
{
    if 'A' <= c && c <= 'Z' {
        let u: u8 = c as u8;
        (u + 32) as char
    } else {
        c
    }
}

/// Whether two texts are the same, but for the case of ASCII letters.
fn equal_ignoring_case(a: &str, b: &str) -> (r: bool)
    ensures
        r == same_ignoring_case(a@, b@),
{
    let v: Vec<char> = chars_of(a);
    let w: Vec<char> = chars_of(b);
    if v.len() != w.len() {
        return false;
    }
    let mut i: usize = 0;
    while i < v.len()
        invariant
            i <= v@.len() == w@.len(),
            v@ == a@,
            w@ == b@,
            forall|j: int| 0 <= j < i ==> ascii_lower(#[trigger] a@[j]) == ascii_lower(b@[j]),
        decreases v@.len() - i,
    {
        if lower(v[i]) != lower(w[i]) {
            assert(ascii_lower(a@[i as int]) != ascii_lower(b@[i as int]));
            return false;
        }
        i += 1;
    }
    true
}

/// The file of one identity.
fn file_of_identity(entry: &str) -> (r: String)
    ensures
        r@ == identity_file(entry@),
{
    let v: Vec<char> = chars_of(entry);
    let i: usize = index_of(&v, 0, '@');
    assert(v@.skip(0) =~= v@);
    if i < v.len() {
        let file: String = text_of(&v, i + 1, v.len());
        assert(file@ =~= entry@.skip(i + 1));
        trim(file.as_str())
    } else {
        trim(entry)
    }
}

/// Adds the files of a list of identities.
fn add_identities(files: &mut Vec<String>, value: &str)
    ensures
        text::texts(final(files)@) == text::texts(old(files)@) + identity_files(text::split_on(value@, ',')),
{
    let entries: Vec<String> = split(value, ',');
    let ghost all = text::texts(entries@);
    let ghost before = text::texts(files@);
    let mut i: usize = 0;
    assert(all.take(0) =~= seq![]);
    assert(before + identity_files(all.take(0)) =~= before);
    while i < entries.len()
        invariant
            i <= entries@.len(),
            all == text::texts(entries@),
            text::texts(files@) == before + identity_files(all.take(i as int)),
        decreases entries@.len() - i,
    {
        let entry: String = trim(entries[i].as_str());
        let ghost had = text::texts(files@);
        proof {
            assert(all.take(i + 1).drop_last() =~= all.take(i as int));
            assert(all.take(i + 1).last() == entries@[i as int]@);
        }
        if !entry.as_str().is_empty() {
            files.push(file_of_identity(entry.as_str()));
            assert(text::texts(files@) =~= had.push(identity_file(entry@)));
            assert(text::texts(files@) =~= before + identity_files(all.take(i + 1)));
        }
        i += 1;
    }
    assert(all.take(all.len() as int) =~= all);
}

/// Adds the files that a line inside `[defaults]` names.
fn add_setting(files: &mut Vec<String>, line: &str)
    ensures
        text::texts(final(files)@) == text::texts(old(files)@) + setting_files(line@),
{
    let t: String = trim(line);
    let v: Vec<char> = chars_of(t.as_str());
    let ghost before = text::texts(files@);
    if v.len() == 0 || v[0] == '#' || v[0] == ';' || v[0] == '[' {
        assert(before + setting_files(line@) =~= before);
        return;
    }
    let i: usize = index_of(&v, 0, '=');
    assert(v@.skip(0) =~= v@);
    if i == v.len() {
        assert(before + setting_files(line@) =~= before);
        return;
    }
    let key: String = text_of(&v, 0, i);
    let value: String = text_of(&v, i + 1, v.len());
    assert(key@ =~= t@.take(i as int));
    assert(value@ =~= t@.skip(i + 1));
    let key: String = trim(key.as_str());
    let value: String = trim(value.as_str());
    if same_text(key.as_str(), "vault_password_file") {
        let ghost file = value@;
        files.push(value);
        assert(text::texts(files@) =~= before + seq![file]);
    } else if same_text(key.as_str(), "vault_identity_list") {
        add_identities(files, value.as_str());
    } else {
        assert(before + setting_files(line@) =~= before);
    }
}

/// The password files that an `ansible.cfg` with this content names, or `None`
/// where it names none. Paths are as they stand there.
pub fn parse_ansible_cfg(content: &str) -> (r: Option<Vec<String>>)
    ensures
        match r {
            Some(files) => text::texts(files@) == config_files(text::lines_of(content@)) && files@.len() > 0,
            None => config_files(text::lines_of(content@)).len() == 0,
        },
{
    let all: Vec<String> = lines(content);
    let ghost ls = text::texts(all@);
    let mut files: Vec<String> = Vec::new();
    let mut defaults: bool = false;
    let mut i: usize = 0;
    assert(ls.take(0) =~= seq![]);
    assert(text::texts(files@) =~= seq![]);
    while i < all.len()
        invariant
            i <= all@.len(),
            ls == text::texts(all@),
            defaults == in_defaults(ls.take(i as int)),
            text::texts(files@) == config_files(ls.take(i as int)),
        decreases all@.len() - i,
    {
        let line: &str = all[i].as_str();
        proof {
            assert(ls.take(i + 1).drop_last() =~= ls.take(i as int));
            assert(ls.take(i + 1).last() == line@);
        }
        if defaults {
            add_setting(&mut files, line);
        }
        let t: String = trim(line);
        let v: Vec<char> = chars_of(t.as_str());
        if v.len() > 0 && v[0] == '[' {
            defaults = equal_ignoring_case(t.as_str(), "[defaults]");
        }
        i += 1;
    }
    assert(ls.take(ls.len() as int) =~= ls);
    assert(text::texts(files@).len() == files@.len());
    if files.len() == 0 {
        None
    } else {
        Some(files)
    }
}

} // verus!
