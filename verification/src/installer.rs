//! Where the editor's extension gets the server program: from the settings, from
//! the search path, from an earlier download, or from the latest release.
//!
//! Looking and downloading happen elsewhere. A `Search` says what to do next and
//! takes what came of it.

use vstd::prelude::*;
use crate::text;
use crate::text::{has_prefix, joined, same_text};

verus! {

broadcast use vstd::string::group_string_axioms;

/// The name of the server program.
pub const SERVER_NAME: &'static str = "ansible-vault-lsp";

/// The repository whose releases hold the server program.
pub const GITHUB_REPO: &'static str = "dimao/ansible-vault-zed";

// ---------------------------------------------------------------------------
// Releases
// ---------------------------------------------------------------------------

/// An operating system.
#[derive(Debug, Clone, Copy, PartialEq, Eq, Structural)]
pub enum Os {
    Mac,
    Linux,
    Windows,
}

/// A processor architecture.
#[derive(Debug, Clone, Copy, PartialEq, Eq, Structural)]
pub enum Architecture {
    Aarch64,
    X86,
    X8664,
}

/// A file of a release.
#[derive(Debug)]
pub struct Asset {
    pub name: String,
    pub download_url: String,
}

/// A release.
#[derive(Debug)]
pub struct Release {
    pub version: String,
    pub assets: Vec<Asset>,
}

/// An `Asset` with texts for strings.
pub struct AssetText {
    pub name: Seq<char>,
    pub download_url: Seq<char>,
}

/// A `Release` with texts for strings.
pub struct ReleaseText {
    pub version: Seq<char>,
    pub assets: Seq<AssetText>,
}

impl View for Asset {
    type V = AssetText;

    open spec fn view(&self) -> AssetText {
        AssetText { name: self.name@, download_url: self.download_url@ }
    }
}

impl View for Release {
    type V = ReleaseText;

    open spec fn view(&self) -> ReleaseText {
        ReleaseText { version: self.version@, assets: Seq::new(self.assets@.len(), |i: int| self.assets@[i]@) }
    }
}

/// What to download and where it goes.
#[derive(Debug)]
pub struct Install {
    pub download_url: String,
    /// The archive is a ZIP file, not a compressed tar file.
    pub zip: bool,
    /// The directory for the archive's content.
    pub version_dir: String,
    /// The server program in that directory.
    pub binary_path: String,
}

/// An `Install` with texts for strings.
pub struct InstallText {
    pub download_url: Seq<char>,
    pub zip: bool,
    pub version_dir: Seq<char>,
    pub binary_path: Seq<char>,
}

impl View for Install {
    type V = InstallText;

    open spec fn view(&self) -> InstallText {
        InstallText {
            download_url: self.download_url@,
            zip: self.zip,
            version_dir: self.version_dir@,
            binary_path: self.binary_path@,
        }
    }
}

/// The target of the programs for a platform, where there are any.
pub open spec fn target_of(os: Os, arch: Architecture) -> Option<Seq<char>> {
    match (os, arch) {
        (Os::Mac, Architecture::Aarch64) => Some("aarch64-apple-darwin"@),
        (Os::Mac, Architecture::X8664) => Some("x86_64-apple-darwin"@),
        (Os::Linux, Architecture::Aarch64) => Some("aarch64-unknown-linux-musl"@),
        (Os::Linux, Architecture::X8664) => Some("x86_64-unknown-linux-musl"@),
        (Os::Windows, Architecture::X8664) => Some("x86_64-pc-windows-msvc"@),
        _ => None,
    }
}

/// The name of an operating system in messages.
pub open spec fn os_name(os: Os) -> Seq<char> {
    match os {
        Os::Mac => "Os::Mac"@,
        Os::Linux => "Os::Linux"@,
        Os::Windows => "Os::Windows"@,
    }
}

/// The name of an architecture in messages.
pub open spec fn architecture_name(arch: Architecture) -> Seq<char> {
    match arch {
        Architecture::Aarch64 => "Architecture::Aarch64"@,
        Architecture::X86 => "Architecture::X86"@,
        Architecture::X8664 => "Architecture::X8664"@,
    }
}

/// The name of the release's file for a target.
pub open spec fn asset_name(os: Os, version: Seq<char>, target: Seq<char>) -> Seq<char> {
    SERVER_NAME@ + "-"@ + version + "-"@ + target + "."@ + (if os == Os::Windows {
        "zip"@
    } else {
        "tar.gz"@
    })
}

/// The directory for a version.
pub open spec fn version_dir_of(version: Seq<char>) -> Seq<char> {
    SERVER_NAME@ + "-"@ + version
}

/// The server program of a version.
pub open spec fn binary_path_of(os: Os, version: Seq<char>) -> Seq<char> {
    version_dir_of(version) + "/"@ + SERVER_NAME@ + (if os == Os::Windows {
        ".exe"@
    } else {
        ""@
    })
}

/// The first file with a name, or the number of files where there is none.
pub open spec fn asset_index(assets: Seq<AssetText>, name: Seq<char>) -> int
    decreases assets.len(),
{
    if assets.len() == 0 || assets[0].name == name {
        0
    } else {
        1 + asset_index(assets.skip(1), name)
    }
}

/// What to download from a release for a platform.
pub open spec fn install_of(os: Os, arch: Architecture, release: ReleaseText) -> Result<InstallText, Seq<char>> {
    match target_of(os, arch) {
        None => Err("unsupported platform: "@ + os_name(os) + " "@ + architecture_name(arch)),
        Some(target) => {
            let name = asset_name(os, release.version, target);
            let i = asset_index(release.assets, name);
            if i >= release.assets.len() {
                Err("release "@ + release.version + " has no asset "@ + name)
            } else {
                Ok(
                    InstallText {
                        download_url: release.assets[i].download_url,
                        zip: os == Os::Windows,
                        version_dir: version_dir_of(release.version),
                        binary_path: binary_path_of(os, release.version),
                    },
                )
            }
        },
    }
}

/// The view of an install, or the failure.
pub open spec fn install_result(r: Result<Install, String>) -> Result<InstallText, Seq<char>> {
    match r {
        Ok(i) => Ok(i@),
        Err(e) => Err(e@),
    }
}

proof fn lemma_asset_index_is(assets: Seq<AssetText>, name: Seq<char>, n: int)
    requires
        0 <= n <= assets.len(),
        forall|i: int| 0 <= i < n ==> (#[trigger] assets[i]).name != name,
        n < assets.len() ==> assets[n].name == name,
    ensures
        asset_index(assets, name) == n,
    decreases assets.len(),
{
    if n > 0 {
        assert(assets[0].name != name);
        assert forall|i: int| 0 <= i < n - 1 implies (#[trigger] assets.skip(1)[i]).name != name by {
            assert(assets[i + 1].name != name);
        }
        lemma_asset_index_is(assets.skip(1), name, n - 1);
    }
}

/// The target of the programs for a platform.
fn target(os: Os, arch: Architecture) -> (r: Option<&'static str>)
    ensures
        text::opt_str_text(r) == target_of(os, arch),
{
    match (os, arch) {
        (Os::Mac, Architecture::Aarch64) => Some("aarch64-apple-darwin"),
        (Os::Mac, Architecture::X8664) => Some("x86_64-apple-darwin"),
        (Os::Linux, Architecture::Aarch64) => Some("aarch64-unknown-linux-musl"),
        (Os::Linux, Architecture::X8664) => Some("x86_64-unknown-linux-musl"),
        (Os::Windows, Architecture::X8664) => Some("x86_64-pc-windows-msvc"),
        _ => None,
    }
}

/// The message for a platform without programs.
fn unsupported(os: Os, arch: Architecture) -> (r: String)
    ensures
        r@ == "unsupported platform: "@ + os_name(os) + " "@ + architecture_name(arch),
{
    let mut r: String = "unsupported platform: ".to_owned();
    r.append(
        match os {
            Os::Mac => "Os::Mac",
            Os::Linux => "Os::Linux",
            Os::Windows => "Os::Windows",
        },
    );
    r.append(" ");
    r.append(
        match arch {
            Architecture::Aarch64 => "Architecture::Aarch64",
            Architecture::X86 => "Architecture::X86",
            Architecture::X8664 => "Architecture::X8664",
        },
    );
    r
}

/// What to download from a release for a platform.
pub fn plan_install(os: Os, arch: Architecture, release: &Release) -> (r: Result<Install, String>)
    ensures
        install_result(r) == install_of(os, arch, release@),
{
    let target: &str = match target(os, arch) {
        Some(t) => t,
        None => {
            return Err(unsupported(os, arch));
        },
    };
    let windows: bool = matches!(os, Os::Windows);
    let version: &str = release.version.as_str();
    let version_dir: String = joined(SERVER_NAME, "-");
    let version_dir: String = joined(version_dir.as_str(), version);
    let mut name: String = joined(version_dir.as_str(), "-");
    name.append(target);
    name.append(".");
    if windows {
        name.append("zip");
    } else {
        name.append("tar.gz");
    }
    assert(name@ == asset_name(os, release@.version, target@));
    let mut i: usize = 0;
    while i < release.assets.len() && !same_text(release.assets[i].name.as_str(), name.as_str())
        invariant
            i <= release.assets@.len(),
            forall|j: int| 0 <= j < i ==> (#[trigger] release@.assets[j]).name != name@,
        decreases release.assets@.len() - i,
    {
        assert(release@.assets[i as int].name != name@);
        i += 1;
    }
    proof {
        if i < release.assets@.len() {
            assert(release@.assets[i as int].name == name@);
        }
        lemma_asset_index_is(release@.assets, name@, i as int);
    }
    if i == release.assets.len() {
        let mut e: String = joined("release ", version);
        e.append(" has no asset ");
        e.append(name.as_str());
        return Err(e);
    }
    let mut binary_path: String = joined(version_dir.as_str(), "/");
    binary_path.append(SERVER_NAME);
    if windows {
        binary_path.append(".exe");
    } else {
        proof {
            reveal_strlit("");
            assert(binary_path@ =~= binary_path_of(os, version@));
        }
    }
    Ok(
        Install {
            download_url: release.assets[i].download_url.as_str().to_owned(),
            zip: windows,
            version_dir,
            binary_path,
        },
    )
}

/// A directory entry is an earlier download, to be removed once `version_dir` is
/// there.
pub open spec fn stale(name: Seq<char>, version_dir: Seq<char>) -> bool {
    text::starts_with(name, SERVER_NAME@) && name != version_dir
}

/// Whether a directory entry is an earlier download.
pub fn is_stale(name: &str, version_dir: &str) -> (r: bool)
    ensures
        r == stale(name@, version_dir@),
{
    has_prefix(name, SERVER_NAME) && !same_text(name, version_dir)
}

// ---------------------------------------------------------------------------
// The search
// ---------------------------------------------------------------------------

/// What to do next.
#[derive(Debug)]
pub enum Search {
    /// Ask the settings for a path.
    Settings,
    /// Look for the program on the search path.
    OnPath,
    /// Look whether an earlier download is still there.
    Cached(String),
    /// Ask for the platform and the latest release.
    LatestRelease,
    /// Look whether the release is there already.
    Installed(Install),
    /// Download the release.
    Download(Install),
    /// Make the program executable.
    MakeExecutable(Install),
    /// Remove earlier downloads.
    Cleanup(Install),
    /// Nothing: the program is there. A download is remembered for the next time.
    Found { path: String, download: bool },
    /// Nothing: there is no program.
    Failed(String),
}

/// A `Search` with texts for strings.
pub enum SearchText {
    Settings,
    OnPath,
    Cached(Seq<char>),
    LatestRelease,
    Installed(InstallText),
    Download(InstallText),
    MakeExecutable(InstallText),
    Cleanup(InstallText),
    Found { path: Seq<char>, download: bool },
    Failed(Seq<char>),
}

impl View for Search {
    type V = SearchText;

    open spec fn view(&self) -> SearchText {
        match self {
            Search::Settings => SearchText::Settings,
            Search::OnPath => SearchText::OnPath,
            Search::Cached(p) => SearchText::Cached(p@),
            Search::LatestRelease => SearchText::LatestRelease,
            Search::Installed(i) => SearchText::Installed(i@),
            Search::Download(i) => SearchText::Download(i@),
            Search::MakeExecutable(i) => SearchText::MakeExecutable(i@),
            Search::Cleanup(i) => SearchText::Cleanup(i@),
            Search::Found { path, download } => SearchText::Found { path: path@, download: *download },
            Search::Failed(e) => SearchText::Failed(e@),
        }
    }
}

/// What there is on a machine, and what comes of each thing done there.
pub struct Machine {
    /// The path in the settings.
    pub settings: Option<Seq<char>>,
    /// The program on the search path.
    pub on_path: Option<Seq<char>>,
    /// The earlier download that is remembered.
    pub cached: Option<Seq<char>>,
    pub is_file: spec_fn(Seq<char>) -> bool,
    pub os: Os,
    pub arch: Architecture,
    pub release: Result<ReleaseText, Seq<char>>,
    pub download: spec_fn(InstallText) -> Result<(), Seq<char>>,
    pub make_executable: spec_fn(InstallText) -> Result<(), Seq<char>>,
}

/// The search after the settings and the search path gave nothing.
pub open spec fn after_path(cached: Option<Seq<char>>) -> SearchText {
    match cached {
        Some(p) => SearchText::Cached(p),
        None => SearchText::LatestRelease,
    }
}

/// The search after a path was asked for.
pub open spec fn path_answered(path: Option<Seq<char>>, otherwise: SearchText) -> SearchText {
    match path {
        Some(p) => SearchText::Found { path: p, download: false },
        None => otherwise,
    }
}

/// The search after the release was asked for.
pub open spec fn release_answered(
    os: Os,
    arch: Architecture,
    release: Result<ReleaseText, Seq<char>>,
) -> SearchText {
    match release {
        Err(e) => SearchText::Failed(e),
        Ok(r) => match install_of(os, arch, r) {
            Ok(i) => SearchText::Installed(i),
            Err(e) => SearchText::Failed(e),
        },
    }
}

/// The search after something was done, which may have failed.
pub open spec fn done_answered(done: Result<(), Seq<char>>, next: SearchText) -> SearchText {
    match done {
        Ok(_) => next,
        Err(e) => SearchText::Failed(e),
    }
}

/// The search once the program of an install is there.
pub open spec fn downloaded(i: InstallText) -> SearchText {
    SearchText::Found { path: i.binary_path, download: true }
}

/// The next state of a search on a machine. A search that ended stays as it is.
pub open spec fn next_search(s: SearchText, m: Machine) -> SearchText {
    match s {
        SearchText::Settings => path_answered(m.settings, SearchText::OnPath),
        SearchText::OnPath => path_answered(m.on_path, after_path(m.cached)),
        SearchText::Cached(p) => if (m.is_file)(p) {
            SearchText::Found { path: p, download: false }
        } else {
            SearchText::LatestRelease
        },
        SearchText::LatestRelease => release_answered(m.os, m.arch, m.release),
        SearchText::Installed(i) => if (m.is_file)(i.binary_path) {
            downloaded(i)
        } else {
            SearchText::Download(i)
        },
        SearchText::Download(i) => done_answered((m.download)(i), SearchText::MakeExecutable(i)),
        SearchText::MakeExecutable(i) => done_answered((m.make_executable)(i), SearchText::Cleanup(i)),
        SearchText::Cleanup(i) => downloaded(i),
        SearchText::Found { .. } => s,
        SearchText::Failed(_) => s,
    }
}

/// The text of a result without a value.
pub open spec fn done_text(r: Result<(), String>) -> Result<(), Seq<char>> {
    match r {
        Ok(_) => Ok(()),
        Err(e) => Err(e@),
    }
}

/// The view of a release, or the failure.
pub open spec fn release_text(r: Result<Release, String>) -> Result<ReleaseText, Seq<char>> {
    match r {
        Ok(r) => Ok(r@),
        Err(e) => Err(e@),
    }
}

impl Search {
    /// A search begins with the settings.
    pub fn start() -> (r: Self)
        ensures
            r@ == SearchText::Settings,
    {
        Search::Settings
    }

    /// Takes the path that the settings or the search path gave, where that was
    /// asked for. `cached` is the download that is remembered.
    pub fn path_given(self, path: Option<String>, cached: Option<&str>) -> (r: Self)
        ensures
            r@ == (match self@ {
                SearchText::Settings => path_answered(text::opt_text(path), SearchText::OnPath),
                SearchText::OnPath => path_answered(text::opt_text(path), after_path(text::opt_str_text(cached))),
                _ => self@,
            }),
            self@ is Settings ==> forall|m: Machine|
                m.settings == text::opt_text(path) ==> r@ == #[trigger] next_search(self@, m),
            self@ is OnPath ==> forall|m: Machine|
                m.on_path == text::opt_text(path) && m.cached == text::opt_str_text(cached) ==> r@ == #[trigger] next_search(
                    self@,
                    m,
                ),
    {
        match self {
            Search::Settings => match path {
                Some(path) => Search::Found { path, download: false },
                None => Search::OnPath,
            },
            Search::OnPath => match path {
                Some(path) => Search::Found { path, download: false },
                None => match cached {
                    Some(p) => Search::Cached(p.to_owned()),
                    None => Search::LatestRelease,
                },
            },
            other => other,
        }
    }

    /// Takes whether the program that was looked for is there.
    pub fn file_checked(self, is_file: bool) -> (r: Self)
        ensures
            r@ == (match self@ {
                SearchText::Cached(p) => if is_file {
                    SearchText::Found { path: p, download: false }
                } else {
                    SearchText::LatestRelease
                },
                SearchText::Installed(i) => if is_file {
                    downloaded(i)
                } else {
                    SearchText::Download(i)
                },
                _ => self@,
            }),
            self@ is Cached ==> forall|m: Machine|
                (m.is_file)(self@->Cached_0) == is_file ==> r@ == #[trigger] next_search(self@, m),
            self@ is Installed ==> forall|m: Machine|
                (m.is_file)((self@->Installed_0).binary_path) == is_file ==> r@ == #[trigger] next_search(self@, m),
    {
        match self {
            Search::Cached(path) => if is_file {
                Search::Found { path, download: false }
            } else {
                Search::LatestRelease
            },
            Search::Installed(i) => if is_file {
                Search::Found { path: i.binary_path, download: true }
            } else {
                Search::Download(i)
            },
            other => other,
        }
    }

    /// Takes the platform and the latest release.
    pub fn release_given(self, os: Os, arch: Architecture, release: Result<Release, String>) -> (r: Self)
        ensures
            r@ == (match self@ {
                SearchText::LatestRelease => release_answered(os, arch, release_text(release)),
                _ => self@,
            }),
            self@ is LatestRelease ==> forall|m: Machine|
                m.os == os && m.arch == arch && m.release == release_text(release) ==> r@ == #[trigger] next_search(
                    self@,
                    m,
                ),
    {
        match self {
            Search::LatestRelease => match release {
                Err(e) => Search::Failed(e),
                Ok(r) => match plan_install(os, arch, &r) {
                    Ok(i) => Search::Installed(i),
                    Err(e) => Search::Failed(e),
                },
            },
            other => other,
        }
    }

    /// Takes what came of a download, of making the program executable, or of the
    /// removal of earlier downloads. That one cannot fail.
    pub fn done(self, done: Result<(), String>) -> (r: Self)
        ensures
            r@ == (match self@ {
                SearchText::Download(i) => done_answered(done_text(done), SearchText::MakeExecutable(i)),
                SearchText::MakeExecutable(i) => done_answered(done_text(done), SearchText::Cleanup(i)),
                SearchText::Cleanup(i) => downloaded(i),
                _ => self@,
            }),
            self@ is Download ==> forall|m: Machine|
                (m.download)(self@->Download_0) == done_text(done) ==> r@ == #[trigger] next_search(self@, m),
            self@ is MakeExecutable ==> forall|m: Machine|
                (m.make_executable)(self@->MakeExecutable_0) == done_text(done) ==> r@ == #[trigger] next_search(self@, m),
            self@ is Cleanup ==> forall|m: Machine| r@ == #[trigger] next_search(self@, m),
    {
        match self {
            Search::Download(i) => match done {
                Ok(_) => Search::MakeExecutable(i),
                Err(e) => Search::Failed(e),
            },
            Search::MakeExecutable(i) => match done {
                Ok(_) => Search::Cleanup(i),
                Err(e) => Search::Failed(e),
            },
            Search::Cleanup(i) => Search::Found { path: i.binary_path, download: true },
            other => other,
        }
    }
}

// ---------------------------------------------------------------------------
// Laws
// ---------------------------------------------------------------------------

/// The search after `n` steps.
pub open spec fn search_after(s: SearchText, m: Machine, n: nat) -> SearchText
    decreases n,
{
    if n == 0 {
        s
    } else {
        search_after(next_search(s, m), m, (n - 1) as nat)
    }
}

/// The install that a machine needs.
pub open spec fn install_for(m: Machine) -> Result<InstallText, Seq<char>> {
    match m.release {
        Err(e) => Err(e),
        Ok(r) => install_of(m.os, m.arch, r),
    }
}

/// Where the server program comes from: the settings first, the search path next,
/// then an earlier download that is still there, and the latest release last.
pub open spec fn program_of(m: Machine) -> SearchText {
    if m.settings is Some {
        SearchText::Found { path: m.settings->0, download: false }
    } else if m.on_path is Some {
        SearchText::Found { path: m.on_path->0, download: false }
    } else if m.cached is Some && (m.is_file)(m.cached->0) {
        SearchText::Found { path: m.cached->0, download: false }
    } else {
        match install_for(m) {
            Err(e) => SearchText::Failed(e),
            Ok(i) => if (m.is_file)(i.binary_path) {
                downloaded(i)
            } else if (m.download)(i) is Err {
                SearchText::Failed((m.download)(i)->Err_0)
            } else if (m.make_executable)(i) is Err {
                SearchText::Failed((m.make_executable)(i)->Err_0)
            } else {
                downloaded(i)
            },
        }
    }
}

/// A search ends with the program that the machine should use, after eight steps
/// at most.
pub proof fn law_search_ends(m: Machine)
    ensures
        search_after(SearchText::Settings, m, 8) == program_of(m),
        next_search(program_of(m), m) == program_of(m),
{
    reveal_with_fuel(search_after, 9);
}

/// Once a version is there, the directories of other versions are removed, and
/// its own is kept.
pub proof fn law_other_versions_stale(version: Seq<char>, other: Seq<char>)
    ensures
        stale(version_dir_of(other), version_dir_of(version)) == (other != version),
{
    let d = version_dir_of(other);
    assert(d.take(SERVER_NAME@.len() as int) =~= SERVER_NAME@);
    if other != version && d == version_dir_of(version) {
        let n = (SERVER_NAME@ + "-"@).len() as int;
        assert(d.skip(n) =~= other);
        assert(d.skip(n) =~= version);
    }
}

/// A path in the settings is used whatever else there is; without one, the program
/// on the search path; without that, an earlier download that is still there.
/// Neither is remembered as a download.
pub proof fn law_nearest_program_used(m: Machine, p: Seq<char>)
    ensures
        ({
            let used = SearchText::Found { path: p, download: false };
            &&& m.settings == Some(p) ==> search_after(SearchText::Settings, m, 8) == used
            &&& m.settings is None && m.on_path == Some(p) ==> search_after(SearchText::Settings, m, 8) == used
            &&& m.settings is None && m.on_path is None && m.cached == Some(p) && (m.is_file)(p) ==> search_after(
                SearchText::Settings,
                m,
                8,
            ) == used
        }),
{
    law_search_ends(m);
}

/// With none of these, the latest release is used. It fails where the release, the
/// download or making the program executable does, with the message of that. A
/// release that is there already is not downloaded again.
pub proof fn law_release_used(m: Machine, i: InstallText, e: Seq<char>)
    requires
        m.settings is None,
        m.on_path is None,
        m.cached is Some ==> !(m.is_file)(m.cached->0),
    ensures
        ({
            let end = search_after(SearchText::Settings, m, 8);
            let used = SearchText::Found { path: i.binary_path, download: true };
            let planned = m.release is Ok && install_of(m.os, m.arch, m.release->Ok_0) == Ok::<InstallText, Seq<char>>(i);
            let there = (m.is_file)(i.binary_path);
            &&& m.release == Err::<ReleaseText, Seq<char>>(e) ==> end == SearchText::Failed(e)
            &&& m.release is Ok && install_of(m.os, m.arch, m.release->Ok_0) == Err::<InstallText, Seq<char>>(e) ==> end
                == SearchText::Failed(e)
            &&& planned && there ==> end == used
            &&& planned && !there && (m.download)(i) == Err::<(), Seq<char>>(e) ==> end == SearchText::Failed(e)
            &&& planned && !there && (m.download)(i) is Ok && (m.make_executable)(i) == Err::<(), Seq<char>>(e) ==> end
                == SearchText::Failed(e)
            &&& planned && !there && (m.download)(i) is Ok && (m.make_executable)(i) is Ok ==> end == used
        }),
{
    law_search_ends(m);
}

/// The platforms that there are programs for, and their targets; and the names of all
/// platforms in messages.
pub proof fn law_targets(os: Os, arch: Architecture)
    ensures
        target_of(Os::Mac, Architecture::Aarch64) == Some("aarch64-apple-darwin"@),
        target_of(Os::Mac, Architecture::X8664) == Some("x86_64-apple-darwin"@),
        target_of(Os::Linux, Architecture::Aarch64) == Some("aarch64-unknown-linux-musl"@),
        target_of(Os::Linux, Architecture::X8664) == Some("x86_64-unknown-linux-musl"@),
        target_of(Os::Windows, Architecture::X8664) == Some("x86_64-pc-windows-msvc"@),
        target_of(os, arch) is None <==> arch == Architecture::X86 || (os == Os::Windows && arch == Architecture::Aarch64),
        os_name(Os::Mac) == "Os::Mac"@ && os_name(Os::Linux) == "Os::Linux"@ && os_name(Os::Windows) == "Os::Windows"@,
        architecture_name(Architecture::Aarch64) == "Architecture::Aarch64"@,
        architecture_name(Architecture::X86) == "Architecture::X86"@,
        architecture_name(Architecture::X8664) == "Architecture::X8664"@,
{
}

/// The file of a release for a platform is the first with the server's name, the
/// version and the target in its name. It is unpacked into a directory with the
/// server's name and the version, where the program has the server's name. Where
/// there is no such file, or no target, there is nothing to install.
pub proof fn law_install_from_release(os: Os, arch: Architecture, release: ReleaseText, target: Seq<char>, n: int)
    requires
        target_of(os, arch) == Some(target),
        0 <= n <= release.assets.len(),
        ({
            let stem = "ansible-vault-lsp-"@ + release.version;
            let name = stem + seq!['-'] + target + (if os == Os::Windows {
                ".zip"@
            } else {
                ".tar.gz"@
            });
            &&& forall|i: int| 0 <= i < n ==> (#[trigger] release.assets[i]).name != name
            &&& n < release.assets.len() ==> release.assets[n].name == name
        }),
    ensures
        ({
            let stem = "ansible-vault-lsp-"@ + release.version;
            let r = install_of(os, arch, release);
            &&& n == release.assets.len() ==> r == Err::<InstallText, Seq<char>>(
                "release "@ + release.version + " has no asset "@ + (stem + seq!['-'] + target + (if os == Os::Windows {
                    ".zip"@
                } else {
                    ".tar.gz"@
                })),
            )
            &&& n < release.assets.len() ==> r == Ok::<InstallText, Seq<char>>(
                InstallText {
                    download_url: release.assets[n].download_url,
                    zip: os == Os::Windows,
                    version_dir: stem,
                    binary_path: stem + (if os == Os::Windows {
                        "/ansible-vault-lsp.exe"@
                    } else {
                        "/ansible-vault-lsp"@
                    }),
                },
            )
        }),
        forall|o: Os, a: Architecture|
            target_of(o, a) is None ==> #[trigger] install_of(o, a, release) == Err::<InstallText, Seq<char>>(
                "unsupported platform: "@ + os_name(o) + " "@ + architecture_name(a),
            ),
{
    reveal_strlit("ansible-vault-lsp-");
    reveal_strlit("ansible-vault-lsp");
    reveal_strlit("/ansible-vault-lsp");
    reveal_strlit("/ansible-vault-lsp.exe");
    reveal_strlit("-");
    reveal_strlit("/");
    reveal_strlit(".");
    reveal_strlit("");
    reveal_strlit("zip");
    reveal_strlit("tar.gz");
    reveal_strlit(".zip");
    reveal_strlit(".tar.gz");
    reveal_strlit(".exe");
    let stem = "ansible-vault-lsp-"@ + release.version;
    let name = stem + seq!['-'] + target + (if os == Os::Windows {
        ".zip"@
    } else {
        ".tar.gz"@
    });
    assert(version_dir_of(release.version) =~= stem);
    assert(asset_name(os, release.version, target) =~= name);
    lemma_asset_index_is(release.assets, name, n);
    assert(binary_path_of(os, release.version) =~= stem + (if os == Os::Windows {
        "/ansible-vault-lsp.exe"@
    } else {
        "/ansible-vault-lsp"@
    }));
}

/// Only what has the server's name at its front is an earlier download, and all of
/// that but the directory in use.
pub proof fn law_stale_names(name: Seq<char>, rest: Seq<char>, version_dir: Seq<char>)
    ensures
        stale("ansible-vault-lsp"@ + rest, version_dir) == ("ansible-vault-lsp"@ + rest != version_dir),
        !"ansible-vault-lsp"@.is_prefix_of(name) ==> !stale(name, version_dir),
        !stale(version_dir, version_dir),
{
    reveal_strlit("ansible-vault-lsp");
    let whole = "ansible-vault-lsp"@ + rest;
    assert(whole.take(17) =~= "ansible-vault-lsp"@);
    if name.len() >= 17 {
        assert(name.take(17) =~= name.subrange(0, 17));
    }
}

} // verus!
