//! The other backend: an `ansible-vault` program does the work, for people who
//! would rather not trust this library's cryptography.
//!
//! Password files that were found are handed over by path, and nothing is ever
//! written to disk. A password that was given as it is cannot be used, since
//! `ansible-vault` reads passwords from files alone. Where nothing was found,
//! `ansible-vault` looks for a password itself.

use vstd::prelude::*;
use vstd::utf8::*;
use crate::resolution::Resolved;
use crate::text;
use crate::text::{joined, same_text, trim, trim_end, utf8_lossy, utf8_text};
use crate::vault;
use crate::vault::is_vault_data;

verus! {

broadcast use vstd::string::group_string_axioms;

/// The failure for a password that was given as it is.
pub const LITERAL_PASSWORD: &'static str = "a literal `password` cannot be used with `ansibleVaultPath`: ansible-vault only reads passwords from files, and writing it to a temp file would defeat the purpose of the CLI backend. Use `passwordFile` instead.";

/// How to run `ansible-vault`.
#[derive(Debug)]
pub struct Invocation {
    pub args: Vec<String>,
    /// The variable `ANSIBLE_VAULT_PASSWORD_FILE` is not handed on: the program
    /// would take it for a second identity.
    pub drop_password_variable: bool,
}

/// An `Invocation` with texts for strings.
#[verifier::ext_equal]
pub struct InvocationText {
    pub args: Seq<Seq<char>>,
    pub drop_password_variable: bool,
}

impl View for Invocation {
    type V = InvocationText;

    open spec fn view(&self) -> InvocationText {
        InvocationText { args: text::texts(self.args@), drop_password_variable: self.drop_password_variable }
    }
}

/// The texts of a result that holds several.
pub open spec fn result_texts(r: Result<Vec<String>, String>) -> Result<Seq<Seq<char>>, Seq<char>> {
    match r {
        Ok(v) => Ok(text::texts(v@)),
        Err(e) => Err(e@),
    }
}

/// The view of an invocation, or the failure.
pub open spec fn result_invocation(r: Result<Invocation, String>) -> Result<InvocationText, Seq<char>> {
    match r {
        Ok(i) => Ok(i@),
        Err(e) => Err(e@),
    }
}

/// `s` without the elements that occur before, in the order of `s`.
pub open spec fn firsts(s: Seq<Seq<char>>) -> Seq<Seq<char>>
    decreases s.len(),
{
    if s.len() == 0 {
        seq![]
    } else if s.drop_last().contains(s.last()) {
        firsts(s.drop_last())
    } else {
        firsts(s.drop_last()).push(s.last())
    }
}

/// The files to hand over.
pub open spec fn files_for(literals: Seq<Seq<char>>, files: Seq<Seq<char>>) -> Result<Seq<Seq<char>>, Seq<char>> {
    if literals.len() > 0 {
        Err(LITERAL_PASSWORD@)
    } else {
        Ok(firsts(files))
    }
}

/// The arguments that name password files.
pub open spec fn file_args(files: Seq<Seq<char>>) -> Seq<Seq<char>>
    decreases files.len(),
{
    if files.len() == 0 {
        seq![]
    } else {
        file_args(files.drop_last()) + seq!["--vault-password-file"@, files.last()]
    }
}

/// How to decrypt: with every file.
pub open spec fn decryption(literals: Seq<Seq<char>>, files: Seq<Seq<char>>) -> Result<InvocationText, Seq<char>> {
    match files_for(literals, files) {
        Err(e) => Err(e),
        Ok(fs) => Ok(
            InvocationText {
                args: seq!["decrypt"@, "--output"@, "-"@] + file_args(fs),
                drop_password_variable: fs.len() > 0,
            },
        ),
    }
}

/// The arguments that choose an identity by its label.
pub open spec fn identity_args(id: Seq<char>, files: Seq<Seq<char>>) -> Seq<Seq<char>> {
    (if files.len() > 0 {
        seq!["--vault-id"@, id + "@"@ + files[0]]
    } else {
        seq![]
    }) + seq!["--encrypt-vault-id"@, id]
}

/// How to encrypt: with the first file alone, under its label where there is one.
pub open spec fn encryption(
    literals: Seq<Seq<char>>,
    files: Seq<Seq<char>>,
    vault_id: Option<Seq<char>>,
) -> Result<InvocationText, Seq<char>> {
    match files_for(literals, files) {
        Err(e) => Err(e),
        Ok(fs) => {
            let labelled = vault_id is Some && vault_id->0.len() > 0;
            let first = if fs.len() > 0 {
                fs.take(1)
            } else {
                fs
            };
            Ok(
                InvocationText {
                    args: seq!["encrypt"@, "--output"@, "-"@] + (if labelled {
                        identity_args(vault_id->0, first)
                    } else {
                        file_args(first)
                    }),
                    drop_password_variable: fs.len() > 0,
                },
            )
        },
    }
}

/// What a run of `ansible-vault` comes to.
pub open spec fn run_outcome(
    success: bool,
    status: Seq<char>,
    stdout: Seq<u8>,
    stderr: Seq<char>,
) -> Result<Seq<char>, Seq<char>> {
    if !success {
        Err("ansible-vault failed ("@ + status + "): "@ + text::trim_of(stderr))
    } else if valid_utf8(stdout) {
        Ok(decode_utf8(stdout))
    } else {
        Err("ansible-vault output is not UTF-8"@)
    }
}

/// The vault text in what an encryption printed.
pub open spec fn encryption_outcome(output: Seq<char>) -> Result<Seq<char>, Seq<char>> {
    if vault::is_vault_text(text::trim_end_of(output)) {
        Ok(text::trim_end_of(output))
    } else {
        Err("ansible-vault encrypt produced unexpected output"@)
    }
}

/// Whether `v` holds the text `s`.
fn holds(v: &Vec<String>, s: &str) -> (r: bool)
    ensures
        r == text::texts(v@).contains(s@),
{
    let mut i: usize = 0;
    while i < v.len()
        invariant
            i <= v@.len(),
            forall|j: int| 0 <= j < i ==> text::texts(v@)[j] != s@,
        decreases v@.len() - i,
    {
        if same_text(v[i].as_str(), s) {
            assert(text::texts(v@)[i as int] == s@);
            return true;
        }
        i += 1;
    }
    false
}

/// The same elements occur with and without those that occur before.
pub proof fn lemma_firsts(s: Seq<Seq<char>>)
    ensures
        forall|x: Seq<char>| firsts(s).contains(x) == s.contains(x),
        s.len() > 0 ==> firsts(s).len() > 0 && firsts(s)[0] == s[0],
    decreases s.len(),
{
    if s.len() > 0 {
        let t = s.drop_last();
        lemma_firsts(t);
        assert forall|x: Seq<char>| firsts(s).contains(x) == s.contains(x) by {
            if s.contains(x) && x != s.last() {
                let i = choose|i: int| 0 <= i < s.len() && s[i] == x;
                assert(t[i] == x);
            }
            if t.contains(x) {
                let i = choose|i: int| 0 <= i < t.len() && t[i] == x;
                assert(s[i] == x);
                if !t.contains(s.last()) {
                    let k = choose|k: int| 0 <= k < firsts(t).len() && firsts(t)[k] == x;
                    assert(firsts(s)[k] == x);
                }
            }
            assert(s[s.len() - 1] == s.last());
            if !t.contains(s.last()) {
                assert(firsts(s)[firsts(s).len() - 1] == s.last());
                if firsts(s).contains(x) && x != s.last() {
                    let k = choose|k: int| 0 <= k < firsts(s).len() && firsts(s)[k] == x;
                    assert(firsts(t)[k] == x);
                }
            }
        }
    }
}

/// The files to hand over, each once, in the order in which they were found.
pub fn password_files(resolved: &Resolved) -> (r: Result<Vec<String>, String>)
    ensures
        result_texts(r) == files_for(resolved@.literals, resolved@.files),
{
    assert(resolved@.literals.len() == resolved.literals@.len());
    if resolved.literals.len() > 0 {
        return Err(LITERAL_PASSWORD.to_owned());
    }
    let mut files: Vec<String> = Vec::new();
    let ghost all = resolved@.files;
    let mut i: usize = 0;
    assert(all.take(0) =~= seq![]);
    assert(text::texts(files@) =~= seq![]);
    while i < resolved.files.len()
        invariant
            i <= resolved.files@.len(),
            all == text::texts(resolved.files@),
            text::texts(files@) == firsts(all.take(i as int)),
        decreases resolved.files@.len() - i,
    {
        let file: &str = resolved.files[i].as_str();
        proof {
            lemma_firsts(all.take(i as int));
            assert(all.take(i + 1).drop_last() =~= all.take(i as int));
            assert(all.take(i + 1).last() == file@);
        }
        let ghost had = text::texts(files@);
        if !holds(&files, file) {
            files.push(file.to_owned());
            assert(text::texts(files@) =~= had.push(file@));
        }
        i += 1;
    }
    assert(all.take(all.len() as int) =~= all);
    Ok(files)
}

/// Adds the arguments that name the first `count` of the password files.
fn add_file_args(args: &mut Vec<String>, files: &Vec<String>, count: usize)
    requires
        count <= files@.len(),
    ensures
        text::texts(final(args)@) == text::texts(old(args)@) + file_args(text::texts(files@).take(count as int)),
{
    let ghost before = text::texts(args@);
    let ghost all = text::texts(files@);
    let mut i: usize = 0;
    assert(all.take(0) =~= seq![]);
    assert(before + file_args(all.take(0)) =~= before);
    while i < count
        invariant
            i <= count <= files@.len(),
            all == text::texts(files@),
            text::texts(args@) == before + file_args(all.take(i as int)),
        decreases count - i,
    {
        let ghost had = text::texts(args@);
        args.push("--vault-password-file".to_owned());
        args.push(files[i].as_str().to_owned());
        proof {
            assert(all.take(i + 1).drop_last() =~= all.take(i as int));
            assert(all.take(i + 1).last() == files@[i as int]@);
            assert(text::texts(args@) =~= had + seq!["--vault-password-file"@, files@[i as int]@]);
            assert(text::texts(args@) =~= before + file_args(all.take(i + 1)));
        }
        i += 1;
    }
}

/// How to run `ansible-vault` to decrypt. The vault text is its input.
pub fn decrypt_invocation(resolved: &Resolved) -> (r: Result<Invocation, String>)
    ensures
        result_invocation(r) == decryption(resolved@.literals, resolved@.files),
{
    let files: Vec<String> = match password_files(resolved) {
        Ok(files) => files,
        Err(e) => {
            return Err(e);
        },
    };
    let mut args: Vec<String> = Vec::new();
    args.push("decrypt".to_owned());
    args.push("--output".to_owned());
    args.push("-".to_owned());
    assert(text::texts(args@) =~= seq!["decrypt"@, "--output"@, "-"@]);
    assert(text::texts(files@).take(files@.len() as int) =~= text::texts(files@));
    add_file_args(&mut args, &files, files.len());
    let drop_password_variable: bool = files.len() > 0;
    Ok(Invocation { args, drop_password_variable })
}

/// How to run `ansible-vault` to encrypt. The plaintext is its input.
pub fn encrypt_invocation(resolved: &Resolved, vault_id: Option<&str>) -> (r: Result<Invocation, String>)
    ensures
        result_invocation(r) == encryption(resolved@.literals, resolved@.files, text::opt_str_text(vault_id)),
{
    let files: Vec<String> = match password_files(resolved) {
        Ok(files) => files,
        Err(e) => {
            return Err(e);
        },
    };
    let ghost fs = text::texts(files@);
    let mut args: Vec<String> = Vec::new();
    args.push("encrypt".to_owned());
    args.push("--output".to_owned());
    args.push("-".to_owned());
    let ghost head = seq!["encrypt"@, "--output"@, "-"@];
    assert(text::texts(args@) =~= head);
    let id: &str = match vault_id {
        Some(id) => id,
        None => "",
    };
    proof {
        reveal_strlit("");
    }
    if id.is_empty() {
        if files.len() > 0 {
            add_file_args(&mut args, &files, 1);
        } else {
            assert(head + file_args(fs) =~= head);
        }
    } else {
        let ghost first = if fs.len() > 0 {
            fs.take(1)
        } else {
            fs
        };
        if files.len() > 0 {
            let label: String = joined(id, "@");
            let label: String = joined(label.as_str(), files[0].as_str());
            args.push("--vault-id".to_owned());
            args.push(label);
            assert(first[0] == files@[0]@);
        }
        args.push("--encrypt-vault-id".to_owned());
        args.push(id.to_owned());
        assert(text::texts(args@) =~= head + identity_args(id@, first));
    }
    let drop_password_variable: bool = files.len() > 0;
    Ok(Invocation { args, drop_password_variable })
}

/// What a run of `ansible-vault` comes to, from how it ended and the text of what
/// it said. `status` is its exit status, for people to read.
pub fn interpret_run(success: bool, status: &str, stdout: Vec<u8>, stderr: &str) -> (r: Result<String, String>)
    ensures
        text::result_text(r) == run_outcome(success, status@, stdout@, stderr@),
        success && valid_utf8(stdout@) ==> r is Ok && encode_utf8(r->Ok_0@) == stdout@,
        success && !valid_utf8(stdout@) ==> r is Err,
        !success ==> r is Err,
{
    proof {
        if valid_utf8(stdout@) {
            decode_utf8_encode_utf8(stdout@);
        }
    }
    if !success {
        let e: String = joined("ansible-vault failed (", status);
        let e: String = joined(e.as_str(), "): ");
        let said: String = trim(stderr);
        return Err(joined(e.as_str(), said.as_str()));
    }
    match utf8_text(stdout) {
        Some(output) => Ok(output),
        None => Err("ansible-vault output is not UTF-8".to_owned()),
    }
}

/// What a run of `ansible-vault` comes to. What it said need not be UTF-8.
pub fn read_run(success: bool, status: &str, stdout: Vec<u8>, stderr: &[u8]) -> (r: Result<String, String>)
    ensures
        text::result_text(r) == run_outcome(success, status@, stdout@, text::utf8_lossy_text(stderr@)),
        valid_utf8(stderr@) ==> text::result_text(r) == run_outcome(success, status@, stdout@, decode_utf8(stderr@)),
        success && valid_utf8(stdout@) ==> r is Ok && encode_utf8(r->Ok_0@) == stdout@,
        success && !valid_utf8(stdout@) ==> r is Err,
        !success ==> r is Err,
{
    let said: String = utf8_lossy(stderr);
    interpret_run(success, status, stdout, said.as_str())
}

/// The vault text in what an encryption printed.
pub fn read_encrypted(output: &str) -> (r: Result<String, String>)
    ensures
        text::result_text(r) == encryption_outcome(output@),
{
    let vaulttext: String = trim_end(output);
    if is_vault_data(vaulttext.as_str()) {
        Ok(vaulttext)
    } else {
        Err("ansible-vault encrypt produced unexpected output".to_owned())
    }
}

// ---------------------------------------------------------------------------
// Laws
// ---------------------------------------------------------------------------

/// The variable `ANSIBLE_VAULT_PASSWORD_FILE` is kept from the program exactly
/// where it is handed a password file: where nothing was found, it looks itself.
pub proof fn law_variable_dropped_with_files(
    literals: Seq<Seq<char>>,
    files: Seq<Seq<char>>,
    vault_id: Option<Seq<char>>,
)
    requires
        literals.len() == 0,
    ensures
        decryption(literals, files)->Ok_0.drop_password_variable == (files.len() > 0),
        encryption(literals, files, vault_id)->Ok_0.drop_password_variable == (files.len() > 0),
{
    lemma_firsts(files);
    reveal_with_fuel(firsts, 2);
}

/// Encryption uses the file that was found first, whichever others there are.
pub proof fn law_first_file_encrypts(files: Seq<Seq<char>>, more: Seq<Seq<char>>, vault_id: Option<Seq<char>>)
    requires
        files.len() > 0,
    ensures
        encryption(seq![], files + more, vault_id) == encryption(seq![], files.take(1), vault_id),
{
    let all = files + more;
    let one = files.take(1);
    lemma_firsts(all);
    lemma_firsts(one);
    reveal_with_fuel(firsts, 2);
    assert(!one.drop_last().contains(one.last()));
    assert(firsts(one) =~= one);
    assert(firsts(all).take(1) =~= one.take(1));
}

/// Each file is handed over once, and none is left out.
pub proof fn law_files_once(files: Seq<Seq<char>>)
    ensures
        firsts(files).no_duplicates(),
        forall|f: Seq<char>| firsts(files).contains(f) == files.contains(f),
    decreases files.len(),
{
    lemma_firsts(files);
    if files.len() > 0 {
        law_files_once(files.drop_last());
    }
}

} // verus!
