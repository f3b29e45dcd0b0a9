//! What the language server answers: the action that is offered at a cursor, the
//! edit that it makes, and the preview of a block's plaintext.

use vstd::prelude::*;
use vstd::utf8::*;
use crate::actions;
use crate::actions::{
    find_plain_value, find_vault_block, render_decrypted, render_encrypted, BlockText, PlainText, PlainValue, VaultBlock,
};
use crate::password::InitOptions;
use crate::text;
use crate::text::{chars_of, joined, lines, same_text};
use crate::vault;
use crate::vault::{decrypt_any, encrypt};

verus! {

broadcast use vstd::string::group_string_axioms;

/// The title of the action that encrypts.
pub const TITLE_ENCRYPT: &'static str = "Encrypt with Ansible Vault";

/// The title of the action that decrypts.
pub const TITLE_DECRYPT: &'static str = "Decrypt with Ansible Vault";

/// The failure where no password was found.
pub const NO_PASSWORD: &'static str = "no vault password found (checked initialization_options, ANSIBLE_VAULT_PASSWORD_FILE, ansible.cfg)";

// ---------------------------------------------------------------------------
// Edits
// ---------------------------------------------------------------------------

/// A replacement of the text between two positions.
#[derive(Debug)]
pub struct TextEdit {
    pub start_line: u32,
    pub start_character: u32,
    pub end_line: u32,
    pub end_character: u32,
    pub new_text: String,
}

/// A `TextEdit` with a text for the string.
pub struct EditText {
    pub start_line: u32,
    pub start_character: u32,
    pub end_line: u32,
    pub end_character: u32,
    pub new_text: Seq<char>,
}

impl View for TextEdit {
    type V = EditText;

    open spec fn view(&self) -> EditText {
        EditText {
            start_line: self.start_line,
            start_character: self.start_character,
            end_line: self.end_line,
            end_character: self.end_character,
            new_text: self.new_text@,
        }
    }
}

/// The edit's last line has a successor that can be counted.
pub open spec fn edit_fits(end_line: usize, total_lines: usize) -> bool {
    end_line < usize::MAX && (end_line + 1 < total_lines ==> (end_line as u32) < u32::MAX)
}

/// The edit that replaces the lines from `start_line` to `end_line` of a document
/// of `total_lines`. It reaches to the beginning of the following line, where
/// there is one, and to the end of the document otherwise.
pub open spec fn line_edit(start_line: usize, end_line: usize, new_text: Seq<char>, total_lines: usize) -> EditText {
    if end_line + 1 < total_lines {
        EditText {
            start_line: start_line as u32,
            start_character: 0,
            end_line: (end_line as u32 + 1) as u32,
            end_character: 0,
            new_text: new_text.push('\n'),
        }
    } else {
        EditText {
            start_line: start_line as u32,
            start_character: 0,
            end_line: end_line as u32,
            end_character: u32::MAX,
            new_text,
        }
    }
}

/// The edit that replaces the lines from `start_line` to `end_line`.
pub fn full_line_edit(start_line: usize, end_line: usize, new_text: String, total_lines: usize) -> (r: TextEdit)
    requires
        edit_fits(end_line, total_lines),
    ensures
        r@ == line_edit(start_line, end_line, new_text@, total_lines),
        r.start_line == start_line as u32 && r.start_character == 0,
        end_line + 1 < total_lines ==> r.end_line == end_line as u32 + 1 && r.end_character == 0 && r.new_text@
            == new_text@.push('\n'),
        end_line + 1 >= total_lines ==> r.end_line == end_line as u32 && r.end_character == u32::MAX && r.new_text@
            == new_text@,
{
    let start: u32 = #[verifier::truncate] (start_line as u32);
    let end: u32 = #[verifier::truncate] (end_line as u32);
    if end_line + 1 < total_lines {
        let mut new_text: String = new_text;
        new_text.push('\n');
        TextEdit { start_line: start, start_character: 0, end_line: end + 1, end_character: 0, new_text }
    } else {
        TextEdit { start_line: start, start_character: 0, end_line: end, end_character: u32::MAX, new_text }
    }
}

// ---------------------------------------------------------------------------
// Actions
// ---------------------------------------------------------------------------

/// What can be done at a cursor.
#[derive(Debug)]
pub enum ActionPlan {
    /// Nothing.
    Nothing,
    /// Decrypt a block, in a document of `total_lines`.
    Decrypt { block: VaultBlock, total_lines: usize },
    /// Encrypt a value, in a document of `total_lines`.
    Encrypt { plain: PlainValue, total_lines: usize },
}

/// An `ActionPlan` with texts for strings.
pub enum PlanText {
    Nothing,
    Decrypt { block: BlockText, total_lines: int },
    Encrypt { plain: PlainText, total_lines: int },
}

impl View for ActionPlan {
    type V = PlanText;

    open spec fn view(&self) -> PlanText {
        match self {
            ActionPlan::Nothing => PlanText::Nothing,
            ActionPlan::Decrypt { block, total_lines } => PlanText::Decrypt {
                block: block@,
                total_lines: *total_lines as int,
            },
            ActionPlan::Encrypt { plain, total_lines } => PlanText::Encrypt {
                plain: plain@,
                total_lines: *total_lines as int,
            },
        }
    }
}

/// What can be done at a cursor: a block is decrypted, and a plain value that is
/// not in one is encrypted.
pub open spec fn plan_of(document: Option<Seq<char>>, cursor: int) -> PlanText {
    match document {
        None => PlanText::Nothing,
        Some(t) => {
            let ls = text::lines_of(t);
            match actions::block_at(ls, cursor) {
                Some(block) => PlanText::Decrypt { block, total_lines: ls.len() as int },
                None => match actions::plain_at(ls, cursor) {
                    Some(plain) => PlanText::Encrypt { plain, total_lines: ls.len() as int },
                    None => PlanText::Nothing,
                },
            }
        },
    }
}

/// The title of what can be done.
pub open spec fn title_of(plan: PlanText) -> Option<Seq<char>> {
    match plan {
        PlanText::Nothing => None,
        PlanText::Decrypt { .. } => Some(TITLE_DECRYPT@),
        PlanText::Encrypt { .. } => Some(TITLE_ENCRYPT@),
    }
}

/// The slices of strings.
fn slices(v: &Vec<String>) -> (r: Vec<&str>)
    ensures
        text::str_texts(r@) == text::texts(v@),
{
    let mut r: Vec<&str> = Vec::new();
    let mut i: usize = 0;
    while i < v.len()
        invariant
            i <= v@.len(),
            r@.len() == i,
            forall|j: int| 0 <= j < i ==> (#[trigger] r@[j])@ == v@[j]@,
        decreases v@.len() - i,
    {
        r.push(v[i].as_str());
        i += 1;
    }
    assert(text::str_texts(r@) =~= text::texts(v@));
    r
}

/// What can be done at a cursor in a document, if the document is open.
pub fn plan_action(document: Option<&str>, cursor: usize) -> (r: ActionPlan)
    ensures
        r@ == plan_of(text::opt_str_text(document), cursor as int),
{
    let document: &str = match document {
        Some(t) => t,
        None => {
            return ActionPlan::Nothing;
        },
    };
    let owned: Vec<String> = lines(document);
    let all: Vec<&str> = slices(&owned);
    let total_lines: usize = all.len();
    assert(text::str_texts(all@).len() == total_lines);
    match find_vault_block(all.as_slice(), cursor) {
        Some(block) => ActionPlan::Decrypt { block, total_lines },
        None => match find_plain_value(all.as_slice(), cursor) {
            Some(plain) => ActionPlan::Encrypt { plain, total_lines },
            None => ActionPlan::Nothing,
        },
    }
}

/// The title of the action that is offered at a cursor, found without decrypting
/// anything.
pub fn available_action(document: Option<&str>, cursor: usize) -> (r: Option<&'static str>)
    ensures
        text::opt_str_text(r) == title_of(plan_of(text::opt_str_text(document), cursor as int)),
{
    match plan_action(document, cursor) {
        ActionPlan::Nothing => None,
        ActionPlan::Decrypt { .. } => Some(TITLE_DECRYPT),
        ActionPlan::Encrypt { .. } => Some(TITLE_ENCRYPT),
    }
}

/// The edit of an action, or why it failed.
pub open spec fn edit_outcome(r: Result<TextEdit, String>) -> Result<EditText, Seq<char>> {
    match r {
        Ok(e) => Ok(e@),
        Err(e) => Err(e@),
    }
}

/// The edit that puts a plaintext in place of its block, from what decrypting it
/// came to.
pub fn finish_decrypt(block: &VaultBlock, total_lines: usize, plaintext: Result<String, String>) -> (r: Result<
    TextEdit,
    String,
>)
    requires
        edit_fits(block.end_line, total_lines),
    ensures
        edit_outcome(r) == (match text::result_text(plaintext) {
            Ok(p) => Ok(
                line_edit(
                    block.start_line,
                    block.end_line,
                    actions::decrypted_text(block.indent@, block.prefix@, p),
                    total_lines,
                ),
            ),
            Err(e) => Err(e),
        }),
{
    match plaintext {
        Ok(p) => {
            let new_text: String = render_decrypted(block, p.as_str());
            Ok(full_line_edit(block.start_line, block.end_line, new_text, total_lines))
        },
        Err(e) => Err(e),
    }
}

/// The edit that puts a vault text in place of a plain value, from what encrypting
/// it came to.
pub fn finish_encrypt(plain: &PlainValue, total_lines: usize, vaulttext: Result<String, String>) -> (r: Result<
    TextEdit,
    String,
>)
    requires
        edit_fits(plain.line, total_lines),
    ensures
        edit_outcome(r) == (match text::result_text(vaulttext) {
            Ok(v) => Ok(
                line_edit(plain.line, plain.line, actions::encrypted_text(plain.indent@, plain.prefix@, v), total_lines),
            ),
            Err(e) => Err(e),
        }),
{
    match vaulttext {
        Ok(v) => {
            let new_text: String = render_encrypted(plain, v.as_str());
            Ok(full_line_edit(plain.line, plain.line, new_text, total_lines))
        },
        Err(e) => Err(e),
    }
}

/// The `ansible-vault` program to run, where the options name one.
pub fn cli_program(options: &InitOptions) -> (r: Option<String>)
    ensures
        text::opt_text(r) == (match text::opt_text(options.ansible_vault_path) {
            Some(p) => if p.len() > 0 {
                Some(p)
            } else {
                None
            },
            None => None,
        }),
{
    match &options.ansible_vault_path {
        Some(p) => if p.as_str().is_empty() {
            None
        } else {
            Some(p.as_str().to_owned())
        },
        None => None,
    }
}

/// Decrypts with each of the passwords in turn.
pub fn do_decrypt(vaulttext: &str, passwords: &Vec<String>) -> (r: Result<String, String>)
    ensures
        text::result_text(r) == (if passwords@.len() == 0 {
            Err(NO_PASSWORD@)
        } else {
            match vault::decrypted_any(vaulttext@, text::texts(passwords@)) {
                Ok(p) => Ok(p),
                Err(f) => Err(vault::failure_message(f)),
            }
        }),
        forall|i: int|
            0 <= i < passwords@.len() && vault::decrypted(vaulttext@, (#[trigger] passwords@[i])@) is Ok && (forall|j: int|
                0 <= j < i ==> vault::decrypted(vaulttext@, (#[trigger] passwords@[j])@) is Err) ==> text::result_text(r)
                == Ok::<Seq<char>, Seq<char>>(vault::decrypted(vaulttext@, passwords@[i]@)->Ok_0),
        (forall|i: int| 0 <= i < passwords@.len() ==> vault::decrypted(vaulttext@, (#[trigger] passwords@[i])@) is Err)
            ==> r is Err,
{
    if passwords.len() == 0 {
        return Err(NO_PASSWORD.to_owned());
    }
    proof {
        let ps = text::texts(passwords@);
        vault::law_first_match_decides(vaulttext@, ps);
        assert forall|i: int| 0 <= i < passwords@.len() implies (#[trigger] passwords@[i])@ == ps[i] by {
        }
        assert forall|i: int|
            0 <= i < passwords@.len() && vault::decrypted(vaulttext@, (#[trigger] passwords@[i])@) is Ok && (forall|j: int|
                0 <= j < i ==> vault::decrypted(vaulttext@, (#[trigger] passwords@[j])@) is Err) implies vault::decrypted_any(
            vaulttext@,
            ps,
        ) == vault::decrypted(vaulttext@, passwords@[i]@) by {
            assert(vault::decrypted(vaulttext@, ps[i]) is Ok);
            assert forall|j: int| 0 <= j < i implies vault::decrypted(vaulttext@, #[trigger] ps[j]) is Err by {
                assert(vault::decrypted(vaulttext@, passwords@[j]@) is Err);
            }
        }
    }
    match decrypt_any(vaulttext, passwords.as_slice()) {
        Ok(p) => Ok(p),
        Err(e) => Err(e.message()),
    }
}

/// Encrypts with the first of the passwords. The vault text must fit in one
/// allocation.
pub fn do_encrypt(plaintext: &str, passwords: &Vec<String>, vault_id: Option<&str>) -> (r: Result<String, String>)
    requires
        4 * (encode_utf8(plaintext@).len() + 81) <= isize::MAX,
    ensures
        match r {
            Ok(v) => passwords@.len() > 0 && encrypts(v@, plaintext@, passwords@[0]@, text::opt_str_text(vault_id)),
            Err(e) => passwords@.len() == 0 && e@ == NO_PASSWORD@,
        },
        r is Ok && vault::id_keeps_body(text::opt_str_text(vault_id)) ==> vault::decrypted(r->Ok_0@, passwords@[0]@)
            == Ok::<Seq<char>, vault::VaultFailure>(plaintext@),
{
    if passwords.len() == 0 {
        return Err(NO_PASSWORD.to_owned());
    }
    Ok(encrypt(plaintext, passwords[0].as_str(), vault_id))
}

/// `v` is a vault text of the plaintext under the password, for some salt, and
/// decrypts to it, unless the vault id breaks the body.
pub open spec fn encrypts(
    v: Seq<char>,
    plaintext: Seq<char>,
    password: Seq<char>,
    vault_id: Option<Seq<char>>,
) -> bool {
    &&& exists|salt: Seq<u8>| salt.len() == vault::SALT_LEN && v == #[trigger] vault::encrypted(plaintext, password, vault_id, salt)
    &&& vault::id_keeps_body(vault_id) ==> vault::decrypted(v, password) == Ok::<Seq<char>, vault::VaultFailure>(plaintext)
}

// ---------------------------------------------------------------------------
// Hovering
// ---------------------------------------------------------------------------

/// Whether hovering over a block shows its plaintext.
pub fn hover_enabled(options: &InitOptions) -> (r: bool)
    ensures
        r == (options.hover_preview != Some(false)),
{
    match options.hover_preview {
        Some(b) => b,
        None => true,
    }
}

/// The block to preview at a line, if there is one.
pub fn hover_block(options: &InitOptions, document: Option<&str>, line: usize) -> (r: Option<VaultBlock>)
    ensures
        actions::block_view(r) == (if options.hover_preview == Some(false) || document is None {
            None
        } else {
            actions::block_at(text::lines_of(document->0@), line as int)
        }),
{
    if !hover_enabled(options) {
        return None;
    }
    match document {
        Some(t) => {
            let owned: Vec<String> = lines(t);
            let all: Vec<&str> = slices(&owned);
            find_vault_block(all.as_slice(), line)
        },
        None => None,
    }
}

/// The number of backquotes that a text ends in.
pub open spec fn last_run(s: Seq<char>) -> nat
    decreases s.len(),
{
    if s.len() > 0 && s.last() == '`' {
        1 + last_run(s.drop_last())
    } else {
        0
    }
}

/// The greatest number of backquotes in a row.
pub open spec fn longest_run(s: Seq<char>) -> nat
    decreases s.len(),
{
    if s.len() == 0 {
        0
    } else if last_run(s) > longest_run(s.drop_last()) {
        last_run(s)
    } else {
        longest_run(s.drop_last())
    }
}

/// `n` backquotes.
pub open spec fn backquotes(n: nat) -> Seq<char> {
    Seq::new(n, |i: int| '`')
}

/// The fence around a plaintext: three backquotes, and a longer one where the
/// plaintext itself has a fence, longer than every such fence.
pub open spec fn fence_of(plaintext: Seq<char>) -> Seq<char> {
    let run = longest_run(plaintext);
    if run < 3 {
        backquotes(3)
    } else if run < 5 {
        backquotes(5)
    } else {
        backquotes(run + 1)
    }
}

/// The greatest number of backquotes in a row.
fn count_backquotes(s: &str) -> (r: usize)
    ensures
        r == longest_run(s@),
{
    let v: Vec<char> = chars_of(s);
    let mut longest: usize = 0;
    let mut last: usize = 0;
    let mut i: usize = 0;
    assert(s@.take(0) =~= seq![]);
    while i < v.len()
        invariant
            i <= v@.len(),
            v@ == s@,
            last <= i,
            last == last_run(s@.take(i as int)),
            longest == longest_run(s@.take(i as int)),
        decreases v@.len() - i,
    {
        assert(s@.take(i + 1).drop_last() =~= s@.take(i as int));
        assert(s@.take(i + 1).last() == v@[i as int]);
        if v[i] == '`' {
            last += 1;
        } else {
            last = 0;
        }
        if last > longest {
            longest = last;
        }
        i += 1;
    }
    assert(s@.take(i as int) =~= s@);
    longest
}

/// The fence around a plaintext.
fn fence(plaintext: &str) -> (r: String)
    ensures
        r@ == fence_of(plaintext@),
{
    let run: usize = count_backquotes(plaintext);
    let least: usize = if run < 3 {
        2
    } else if run < 5 {
        4
    } else {
        run
    };
    let mut r: String = String::new();
    r.push('`');
    let mut i: usize = 0;
    assert(r@ =~= backquotes(1));
    while i < least
        invariant
            i <= least,
            r@ == backquotes((i + 1) as nat),
        decreases least - i,
    {
        r.push('`');
        assert(r@ =~= backquotes((i + 2) as nat));
        i += 1;
    }
    r
}

/// The preview of a block, from what decrypting it came to.
pub open spec fn hover_of(plaintext: Result<Seq<char>, Seq<char>>) -> Seq<char> {
    match plaintext {
        Ok(p) => "**Ansible Vault** (decrypted)\n\n"@ + fence_of(p) + "text\n"@ + p + "\n"@ + fence_of(p),
        Err(e) => "**Ansible Vault**: "@ + e,
    }
}

/// The preview of a block in Markdown, from what decrypting it came to.
pub fn hover_text(plaintext: &Result<String, String>) -> (r: String)
    ensures
        r@ == hover_of(text::result_text(*plaintext)),
{
    match plaintext {
        Ok(p) => {
            let fence: String = fence(p.as_str());
            let mut r: String = joined("**Ansible Vault** (decrypted)\n\n", fence.as_str());
            r.append("text\n");
            r.append(p.as_str());
            r.append("\n");
            r.append(fence.as_str());
            r
        },
        Err(e) => joined("**Ansible Vault**: ", e.as_str()),
    }
}

/// Where the block of a preview stands: its first line and column, and its last
/// line and the end of that line.
pub fn hover_range(block: &VaultBlock) -> (r: (u32, u32, u32, u32))
    ensures
        r == (block.start_line as u32, 0u32, block.end_line as u32, u32::MAX),
{
    let start: u32 = #[verifier::truncate] (block.start_line as u32);
    let end: u32 = #[verifier::truncate] (block.end_line as u32);
    (start, 0, end, u32::MAX)
}

// ---------------------------------------------------------------------------
// Clients
// ---------------------------------------------------------------------------

/// Whether a client that can resolve these properties of an action later can
/// resolve its edit.
pub fn resolves_edits(properties: &Vec<String>) -> (r: bool)
    ensures
        r == text::texts(properties@).contains("edit"@),
{
    let mut i: usize = 0;
    while i < properties.len()
        invariant
            i <= properties@.len(),
            forall|j: int| 0 <= j < i ==> text::texts(properties@)[j] != "edit"@,
        decreases properties@.len() - i,
    {
        if same_text(properties[i].as_str(), "edit") {
            assert(text::texts(properties@)[i as int] == "edit"@);
            return true;
        }
        i += 1;
    }
    false
}

/// The message that tells people of a failure.
pub fn failure_notice(e: &str) -> (r: String)
    ensures
        r@ == "ansible-vault-lsp: "@ + e@,
{
    joined("ansible-vault-lsp: ", e)
}

// ---------------------------------------------------------------------------
// Laws
// ---------------------------------------------------------------------------

/// Backquotes in a row are no more than the longest run.
proof fn lemma_longest_run(s: Seq<char>, n: nat, i: int)
    requires
        text::occurs_at(s, backquotes(n), i),
    ensures
        n <= longest_run(s),
    decreases s.len(),
{
    if n > 0 {
        if i + n == s.len() {
            lemma_last_run(s, n);
        } else {
            assert(s.drop_last().subrange(i, i + n) =~= s.subrange(i, i + n));
            lemma_longest_run(s.drop_last(), n, i);
        }
    }
}

proof fn lemma_last_run(s: Seq<char>, n: nat)
    requires
        n <= s.len(),
        s.subrange(s.len() - n, s.len() as int) == backquotes(n),
    ensures
        n <= last_run(s),
    decreases n,
{
    if n > 0 {
        let t = s.subrange(s.len() - n, s.len() as int);
        assert(t[n - 1] == '`');
        let front = s.drop_last();
        assert(front.subrange(front.len() - (n - 1), front.len() as int) =~= t.take(n - 1));
        assert(t.take(n - 1) =~= backquotes((n - 1) as nat));
        lemma_last_run(front, (n - 1) as nat);
    }
}

/// The fence around a plaintext does not occur in it, so the plaintext cannot
/// close it; it is longer than every run of three backquotes or more.
pub proof fn law_fence_not_in_plaintext(plaintext: Seq<char>)
    ensures
        !text::contains_text(plaintext, fence_of(plaintext)),
        longest_run(plaintext) >= 3 ==> fence_of(plaintext).len() > longest_run(plaintext),
        fence_of(plaintext).len() >= 3,
{
    let n = fence_of(plaintext).len();
    assert(fence_of(plaintext) =~= backquotes(n));
    if text::contains_text(plaintext, fence_of(plaintext)) {
        let i = choose|i: int| text::occurs_at(plaintext, fence_of(plaintext), i);
        lemma_longest_run(plaintext, n, i);
    }
}

/// The longest run of backquotes is one that occurs.
proof fn lemma_run_occurs(s: Seq<char>)
    ensures
        text::contains_text(s, backquotes(longest_run(s))),
        last_run(s) <= s.len(),
        s.subrange(s.len() - last_run(s), s.len() as int) == backquotes(last_run(s)),
    decreases s.len(),
{
    if s.len() == 0 {
        assert(s.subrange(0, 0) =~= backquotes(0));
        assert(text::occurs_at(s, backquotes(0), 0));
    } else {
        let front = s.drop_last();
        lemma_run_occurs(front);
        let n = last_run(s);
        if s.last() == '`' {
            let t = front.subrange(front.len() - (n - 1), front.len() as int);
            assert(s.subrange(s.len() - n, s.len() as int) =~= t.push('`'));
            assert(backquotes((n - 1) as nat).push('`') =~= backquotes(n));
        } else {
            assert(s.subrange(s.len() - n, s.len() as int) =~= backquotes(0));
        }
        if n > longest_run(front) {
            assert(text::occurs_at(s, backquotes(n), s.len() - n));
        } else {
            let m = longest_run(front);
            let i = choose|i: int| text::occurs_at(front, backquotes(m), i);
            assert(s.subrange(i, i + m) =~= front.subrange(i, i + m));
            assert(text::occurs_at(s, backquotes(m), i));
        }
    }
}

/// Fewer backquotes occur where more do.
proof fn lemma_fewer_occur(s: Seq<char>, m: nat, n: nat)
    requires
        m <= n,
        text::contains_text(s, backquotes(n)),
    ensures
        text::contains_text(s, backquotes(m)),
{
    let i = choose|i: int| text::occurs_at(s, backquotes(n), i);
    assert(s.subrange(i, i + m) =~= s.subrange(i, i + n).take(m as int));
    assert(backquotes(n).take(m as int) =~= backquotes(m));
    assert(text::occurs_at(s, backquotes(m), i));
}

/// The fence has three backquotes where no three stand in a row in the plaintext, and
/// five where no five do; where more do, it has one more than stand in a row.
pub proof fn law_fence_length(p: Seq<char>, n: nat)
    requires
        text::contains_text(p, backquotes(n)),
        !text::contains_text(p, backquotes(n + 1)),
    ensures
        fence_of(p) == (if n < 3 {
            backquotes(3)
        } else if n < 5 {
            backquotes(5)
        } else {
            backquotes(n + 1)
        }),
{
    lemma_run_occurs(p);
    let i = choose|i: int| text::occurs_at(p, backquotes(n), i);
    lemma_longest_run(p, n, i);
    if longest_run(p) > n {
        lemma_fewer_occur(p, n + 1, longest_run(p));
    }
}

/// Where a line belongs to a vault block, decryption of that block is offered; where
/// it does not and has a plain value, encryption of that value is; elsewhere, and in
/// a document that is not open, nothing is.
pub proof fn law_action_offered(document: Seq<char>, cursor: int)
    ensures
        ({
            let lines = text::lines_of(document);
            let plan = plan_of(Some(document), cursor);
            let block = actions::block_at(lines, cursor);
            let plain = actions::plain_at(lines, cursor);
            &&& block is Some ==> plan == (PlanText::Decrypt { block: block->0, total_lines: lines.len() as int })
                && title_of(plan) == Some("Decrypt with Ansible Vault"@)
            &&& block is None && plain is Some ==> plan == (PlanText::Encrypt {
                plain: plain->0,
                total_lines: lines.len() as int,
            }) && title_of(plan) == Some("Encrypt with Ansible Vault"@)
            &&& block is None && plain is None ==> title_of(plan) is None
        }),
        title_of(plan_of(None, cursor)) is None,
{
}

/// A preview shows the whole plaintext between two fences of the same length, three
/// backquotes or more, that do not occur in it. A failure is told in full.
pub proof fn law_hover_shows_plaintext(p: Seq<char>, e: Seq<char>)
    ensures
        exists|n: nat|
            n >= 3 && !text::contains_text(p, backquotes(n)) && hover_of(Ok(p))
                == "**Ansible Vault** (decrypted)\n\n"@ + #[trigger] backquotes(n) + "text\n"@ + p + "\n"@ + backquotes(n),
        hover_of(Err(e)) == "**Ansible Vault**: "@ + e,
        forall|n: nat, i: int| 0 <= i < n ==> #[trigger] backquotes(n)[i] == '`',
        forall|n: nat| #[trigger] backquotes(n).len() == n,
{
    law_fence_not_in_plaintext(p);
    let n = fence_of(p).len();
    assert(fence_of(p) =~= backquotes(n));
}

} // verus!
