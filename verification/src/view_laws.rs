//! The views that contracts speak of hold what the values hold: every text whole,
//! every element in its place.

use vstd::prelude::*;
use vstd::string::*;
use crate::actions;
use crate::actions::{BlockText, PlainText, PlainValue, VaultBlock};
use crate::cli;
use crate::cli::{Invocation, InvocationText};
use crate::installer;
use crate::installer::{Asset, AssetText, Install, InstallText, Release, ReleaseText, Search, SearchText};
use crate::password;
use crate::password::{Location, LocationText};
use crate::resolution;
use crate::resolution::{Ask, AskText, Found, FoundText, Resolved, Step, StepText};
use crate::server;
use crate::server::{ActionPlan, EditText, PlanText, TextEdit};
use crate::text;
use crate::vault;
use crate::vault::{Payload, VaultError, VaultFailure};

verus! {

/// Strings are viewed as their texts.
pub proof fn law_texts_viewed(v: Seq<String>, w: Seq<&str>, s: String, t: &str, i: int)
    ensures
        text::texts(v).len() == v.len(),
        0 <= i < v.len() ==> text::texts(v)[i] == v[i]@,
        text::str_texts(w).len() == w.len(),
        0 <= i < w.len() ==> text::str_texts(w)[i] == w[i]@,
        text::opt_text(Some(s)) == Some(s@),
        text::opt_text(None) is None,
        text::opt_str_text(Some(t)) == Some(t@),
        text::opt_str_text(None) is None,
        text::result_text(Ok(s)) == Ok::<Seq<char>, Seq<char>>(s@),
        text::result_text(Err(s)) == Err::<Seq<char>, Seq<char>>(s@),
{
}

/// Vault errors and payloads are viewed as what they hold.
pub proof fn law_vault_viewed(s: String, e: VaultError, p: Payload, id: Option<String>, body: String)
    ensures
        vault::outcome(Ok(s)) == Ok::<Seq<char>, VaultFailure>(s@),
        vault::outcome(Err(e)) == Err::<Seq<char>, VaultFailure>(e@),
        VaultError::InvalidFormat(s)@ == VaultFailure::InvalidFormat(s@),
        VaultError::UnsupportedCipher(s)@ == VaultFailure::UnsupportedCipher(s@),
        VaultError::WrongPassword@ == VaultFailure::WrongPassword,
        VaultError::Utf8@ == VaultFailure::Utf8,
        p@.salt == p.salt@ && p@.mac == p.mac@ && p@.data == p.data@,
        vault::envelope_outcome(Ok((s, id, body))) is Ok,
        (vault::envelope_outcome(Ok((s, id, body)))->Ok_0).cipher == s@,
        (vault::envelope_outcome(Ok((s, id, body)))->Ok_0).vault_id is Some <==> id is Some,
        id is Some ==> (vault::envelope_outcome(Ok((s, id, body)))->Ok_0).vault_id == Some(id->0@),
        (vault::envelope_outcome(Ok((s, id, body)))->Ok_0).body == body@,
        vault::envelope_outcome(Err(e)) == Err::<vault::Envelope, VaultFailure>(e@),
{
}

/// Blocks and plain values are viewed as what they hold.
pub proof fn law_document_parts_viewed(b: VaultBlock, p: PlainValue)
    ensures
        b@ == (BlockText {
            start_line: b.start_line as int,
            end_line: b.end_line as int,
            indent: b.indent@,
            prefix: b.prefix@,
            vaulttext: b.vaulttext@,
        }),
        actions::block_view(Some(b)) == Some(b@),
        actions::block_view(None) is None,
        p@ == (PlainText { line: p.line as int, indent: p.indent@, prefix: p.prefix@, value: p.value@ }),
        actions::plain_view(Some(p)) == Some(p@),
        actions::plain_view(None) is None,
{
}

/// Edits and plans are viewed as what they hold.
pub proof fn law_edits_viewed(e: TextEdit, s: String, b: VaultBlock, p: PlainValue, n: usize)
    ensures
        e@ == (EditText {
            start_line: e.start_line,
            start_character: e.start_character,
            end_line: e.end_line,
            end_character: e.end_character,
            new_text: e.new_text@,
        }),
        server::edit_outcome(Ok(e)) == Ok::<EditText, Seq<char>>(e@),
        server::edit_outcome(Err(s)) == Err::<EditText, Seq<char>>(s@),
        ActionPlan::Nothing@ == PlanText::Nothing,
        (ActionPlan::Decrypt { block: b, total_lines: n })@ == (PlanText::Decrypt { block: b@, total_lines: n as int }),
        (ActionPlan::Encrypt { plain: p, total_lines: n })@ == (PlanText::Encrypt { plain: p@, total_lines: n as int }),
{
}

/// Invocations are viewed as what they hold.
pub proof fn law_invocations_viewed(v: Invocation, files: Vec<String>, s: String, i: int)
    ensures
        v@.drop_password_variable == v.drop_password_variable,
        v@.args.len() == v.args@.len(),
        0 <= i < v.args@.len() ==> v@.args[i] == v.args@[i]@,
        cli::result_invocation(Ok(v)) == Ok::<InvocationText, Seq<char>>(v@),
        cli::result_invocation(Err(s)) == Err::<InvocationText, Seq<char>>(s@),
        cli::result_texts(Ok(files)) is Ok,
        (cli::result_texts(Ok(files))->Ok_0).len() == files@.len(),
        0 <= i < files@.len() ==> (cli::result_texts(Ok(files))->Ok_0)[i] == files@[i]@,
        cli::result_texts(Err(s)) == Err::<Seq<Seq<char>>, Seq<char>>(s@),
{
}

/// Locations are viewed as what they hold.
pub proof fn law_locations_viewed(v: Seq<Location>, s: String, up: usize, i: int)
    ensures
        password::location_texts(v).len() == v.len(),
        0 <= i < v.len() ==> password::location_texts(v)[i] == v[i]@,
        Location::Given(s)@ == LocationText::Given(s@),
        Location::InHome(s)@ == LocationText::InHome(s@),
        (Location::InAncestor { up, name: s })@ == (LocationText::InAncestor { up: up as int, name: s@ }),
        Location::BesideConfig(s)@ == LocationText::BesideConfig(s@),
{
}

/// Questions and answers of a resolution are viewed as what they hold.
pub proof fn law_resolution_viewed(r: Resolved, asks: Seq<Ask>, ask: Ask, found: Found, n: usize, i: int)
    ensures
        r@.passwords.len() == r.passwords@.len(),
        0 <= i < r.passwords@.len() ==> r@.passwords[i] == r.passwords@[i]@,
        r@.sources.len() == r.sources@.len(),
        0 <= i < r.sources@.len() ==> r@.sources[i] == r.sources@[i]@,
        r@.literals.len() == r.literals@.len(),
        0 <= i < r.literals@.len() ==> r@.literals[i] == r.literals@[i]@,
        r@.files.len() == r.files@.len(),
        0 <= i < r.files@.len() ==> r@.files[i] == r.files@[i]@,
        resolution::ask_texts(asks).len() == asks.len(),
        0 <= i < asks.len() ==> resolution::ask_texts(asks)[i] == asks[i]@,
        ask@ == (AskText { origin: ask.origin, file: ask.file@ }),
        found@ == (FoundText { password: found.password@, path: found.path@ }),
        resolution::found_text(Some(found)) == Some(found@),
        resolution::found_text(None) is None,
        Step::ReadPassword(ask)@ == StepText::ReadPassword(ask@),
        Step::ReadConfig(n)@ == StepText::ReadConfig(n as int),
        Step::Done@ == StepText::Done,
{
}

/// Releases, installs and the states of a search are viewed as what they hold.
pub proof fn law_search_viewed(a: Asset, r: Release, v: Install, s: String, download: bool, i: int)
    ensures
        a@ == (AssetText { name: a.name@, download_url: a.download_url@ }),
        r@.version == r.version@,
        r@.assets.len() == r.assets@.len(),
        0 <= i < r.assets@.len() ==> r@.assets[i] == r.assets@[i]@,
        v@ == (InstallText {
            download_url: v.download_url@,
            zip: v.zip,
            version_dir: v.version_dir@,
            binary_path: v.binary_path@,
        }),
        installer::install_result(Ok(v)) == Ok::<InstallText, Seq<char>>(v@),
        installer::install_result(Err(s)) == Err::<InstallText, Seq<char>>(s@),
        installer::release_text(Ok(r)) == Ok::<ReleaseText, Seq<char>>(r@),
        installer::release_text(Err(s)) == Err::<ReleaseText, Seq<char>>(s@),
        installer::done_text(Ok(())) == Ok::<(), Seq<char>>(()),
        installer::done_text(Err(s)) == Err::<(), Seq<char>>(s@),
        Search::Settings@ == SearchText::Settings,
        Search::OnPath@ == SearchText::OnPath,
        Search::Cached(s)@ == SearchText::Cached(s@),
        Search::LatestRelease@ == SearchText::LatestRelease,
        Search::Installed(v)@ == SearchText::Installed(v@),
        Search::Download(v)@ == SearchText::Download(v@),
        Search::MakeExecutable(v)@ == SearchText::MakeExecutable(v@),
        Search::Cleanup(v)@ == SearchText::Cleanup(v@),
        (Search::Found { path: s, download })@ == (SearchText::Found { path: s@, download }),
        Search::Failed(s)@ == SearchText::Failed(s@),
{
}

} // verus!
