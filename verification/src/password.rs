//! Where vault passwords come from. In this order:
//!
//! 1. the options `password` and `passwordFile` that the editor hands over;
//! 2. the file that the environment variable `ANSIBLE_VAULT_PASSWORD_FILE` names;
//! 3. the files that an `ansible.cfg` names: the one in `ANSIBLE_CONFIG`, those in
//!    the document's directory and above, `~/.ansible.cfg`, and
//!    `/etc/ansible/ansible.cfg`. The first that names files decides, once a
//!    password is known.
//!
//! This module has the options, the paths to look at, and what a password file
//! gives; `resolution` puts them in order.

use vstd::prelude::*;
use vstd::utf8::*;
use crate::text;
use crate::text::{chars_of, has_prefix, text_of, utf8_lossy};

verus! {

broadcast use vstd::string::group_string_axioms;

// ---------------------------------------------------------------------------
// Options
// ---------------------------------------------------------------------------

/// The options that the editor hands over when it starts the server.
#[derive(Debug, Clone)]
pub struct InitOptions {
    /// A vault password as it is. It should not be committed to settings.
    pub password: Option<String>,
    /// The path of a password file, which may be a script.
    pub password_file: Option<String>,
    /// The vault id to encrypt with. It gives a 1.2 header.
    pub encrypt_vault_id: Option<String>,
    /// The path of an `ansible-vault` program to use in place of this library.
    pub ansible_vault_path: Option<String>,
    /// Whether hovering over a block shows its plaintext. It does by default.
    pub hover_preview: Option<bool>,
}

impl Default for InitOptions {
    fn default() -> (r: Self)
        ensures
            r == (InitOptions {
                password: None,
                password_file: None,
                encrypt_vault_id: None,
                ansible_vault_path: None,
                hover_preview: None,
            }),
    {
        InitOptions {
            password: None,
            password_file: None,
            encrypt_vault_id: None,
            ansible_vault_path: None,
            hover_preview: None,
        }
    }
}

// ---------------------------------------------------------------------------
// Paths
// ---------------------------------------------------------------------------

/// A path whose directory only the machine knows.
#[derive(Debug)]
pub enum Location {
    /// The path as it is.
    Given(String),
    /// A path under the home directory.
    InHome(String),
    /// A path under the directory `up` levels above the document's.
    InAncestor { up: usize, name: String },
    /// A path under the directory of the configuration that names it.
    BesideConfig(String),
}

/// A `Location` with texts for strings.
pub enum LocationText {
    Given(Seq<char>),
    InHome(Seq<char>),
    InAncestor { up: int, name: Seq<char> },
    BesideConfig(Seq<char>),
}

impl View for Location {
    type V = LocationText;

    open spec fn view(&self) -> LocationText {
        match self {
            Location::Given(p) => LocationText::Given(p@),
            Location::InHome(p) => LocationText::InHome(p@),
            Location::InAncestor { up, name } => LocationText::InAncestor { up: *up as int, name: name@ },
            Location::BesideConfig(p) => LocationText::BesideConfig(p@),
        }
    }
}

/// The views of a sequence of locations.
pub open spec fn location_texts(v: Seq<Location>) -> Seq<LocationText> {
    Seq::new(v.len(), |i: int| v[i]@)
}

/// A path with a leading `~/` taken for the home directory, where there is one.
pub open spec fn tilde_expanded(path: Seq<char>, home: bool) -> LocationText {
    if home && text::starts_with(path, "~/"@) {
        LocationText::InHome(path.skip(2))
    } else {
        LocationText::Given(path)
    }
}

/// Takes a leading `~/` for the home directory, where there is one.
pub fn expand_tilde(path: &str, home: bool) -> (r: Location)
    ensures
        r@ == tilde_expanded(path@, home),
{
    proof {
        reveal_strlit("~/");
    }
    if home && has_prefix(path, "~/") {
        let v: Vec<char> = chars_of(path);
        let rest: String = text_of(&v, 2, v.len());
        assert(rest@ =~= path@.skip(2));
        Location::InHome(rest)
    } else {
        Location::Given(path.to_owned())
    }
}

/// A path that a configuration names is relative to the configuration's
/// directory, unless it is absolute.
pub fn resolve_relative(path: &str, absolute: bool) -> (r: Location)
    ensures
        r@ == (if absolute {
            LocationText::Given(path@)
        } else {
            LocationText::BesideConfig(path@)
        }),
{
    if absolute {
        Location::Given(path.to_owned())
    } else {
        Location::BesideConfig(path.to_owned())
    }
}

/// The configuration that the environment names, unless it is empty.
pub open spec fn environment_config(env_config: Option<Seq<char>>, home: bool) -> Seq<LocationText> {
    match env_config {
        Some(path) => if path.len() > 0 {
            seq![tilde_expanded(path, home)]
        } else {
            seq![]
        },
        None => seq![],
    }
}

/// Where an `ansible.cfg` may be, first things first. `ancestors` counts the
/// document's directory and those above it.
pub open spec fn config_locations(env_config: Option<Seq<char>>, ancestors: nat, home: bool) -> Seq<LocationText> {
    environment_config(env_config, home) + Seq::new(
        ancestors,
        |i: int| LocationText::InAncestor { up: i, name: "ansible.cfg"@ },
    ) + (if home {
        seq![LocationText::InHome(".ansible.cfg"@)]
    } else {
        seq![]
    }) + seq![LocationText::Given("/etc/ansible/ansible.cfg"@)]
}

/// Where to look for an `ansible.cfg`.
pub fn candidate_configs(env_config: Option<&str>, ancestors: usize, home: bool) -> (r: Vec<Location>)
    ensures
        location_texts(r@) == config_locations(text::opt_str_text(env_config), ancestors as nat, home),
        ({
            let first: int = if env_config is Some && env_config->0@.len() > 0 {
                1
            } else {
                0
            };
            let last = first + ancestors + (if home {
                1int
            } else {
                0
            });
            &&& r@.len() == last + 1
            &&& first == 1 ==> r@[0]@ == tilde_expanded(env_config->0@, home)
            &&& forall|i: int|
                0 <= i < ancestors ==> (#[trigger] r@[first + i])@ == (LocationText::InAncestor {
                    up: i,
                    name: "ansible.cfg"@,
                })
            &&& home ==> r@[first + ancestors]@ == LocationText::InHome(".ansible.cfg"@)
            &&& r@[last]@ == LocationText::Given("/etc/ansible/ansible.cfg"@)
        }),
{
    let mut r: Vec<Location> = Vec::new();
    if let Some(path) = env_config {
        if !path.is_empty() {
            r.push(expand_tilde(path, home));
        }
    }
    let ghost first = environment_config(text::opt_str_text(env_config), home);
    assert(location_texts(r@) =~= first);
    let ghost above = |i: int| LocationText::InAncestor { up: i, name: "ansible.cfg"@ };
    let mut up: usize = 0;
    assert(location_texts(r@) =~= first + Seq::new(0, above));
    while up < ancestors
        invariant
            up <= ancestors,
            above == (|i: int| LocationText::InAncestor { up: i, name: "ansible.cfg"@ }),
            location_texts(r@) == first + Seq::new(up as nat, above),
        decreases ancestors - up,
    {
        let ghost before = location_texts(r@);
        r.push(Location::InAncestor { up, name: "ansible.cfg".to_owned() });
        assert(location_texts(r@) =~= before.push(above(up as int)));
        assert(location_texts(r@) =~= first + Seq::new((up + 1) as nat, above));
        up += 1;
    }
    if home {
        r.push(Location::InHome(".ansible.cfg".to_owned()));
    }
    r.push(Location::Given("/etc/ansible/ansible.cfg".to_owned()));
    let ghost all = location_texts(r@);
    assert(all =~= config_locations(text::opt_str_text(env_config), ancestors as nat, home));
    assert(first.len() == 1 ==> all[0] == first[0]);
    assert forall|i: int| 0 <= i < ancestors implies (#[trigger] r@[first.len() + i])@ == above(i) by {
        assert(all[first.len() + i] == above(i));
    }
    assert(home ==> all[first.len() + ancestors] == LocationText::InHome(".ansible.cfg"@));
    assert(all.last() == LocationText::Given("/etc/ansible/ansible.cfg"@));
    r
}

// ---------------------------------------------------------------------------
// Password files
// ---------------------------------------------------------------------------

/// How to get the password out of a file.
#[derive(Debug, Clone, Copy, PartialEq, Eq, Structural)]
pub enum PasswordSource {
    /// There is no file.
    Missing,
    /// It is to be run, and its output read.
    Script,
    /// Its content is to be read.
    Content,
}

/// Whether permission bits allow anyone to execute the file.
pub fn is_executable(mode: u32) -> (r: bool)
    ensures
        r == (mode & 0o111 != 0),
{
    mode & 0o111 != 0
}

/// How to get the password out of a file. `mode` is `None` where the file has no
/// permission bits, or none that can be read.
pub fn password_source(is_file: bool, mode: Option<u32>) -> (r: PasswordSource)
    ensures
        r == (if !is_file {
            PasswordSource::Missing
        } else if mode is Some && mode->0 & 0o111 != 0 {
            PasswordSource::Script
        } else {
            PasswordSource::Content
        }),
{
    if !is_file {
        return PasswordSource::Missing;
    }
    match mode {
        Some(m) => if is_executable(m) {
            PasswordSource::Script
        } else {
            PasswordSource::Content
        },
        None => PasswordSource::Content,
    }
}

/// `s` without the carriage returns and line feeds at its end.
pub open spec fn without_line_ends(s: Seq<char>) -> Seq<char>
    decreases s.len(),
{
    if s.len() > 0 && (s.last() == '\r' || s.last() == '\n') {
        without_line_ends(s.drop_last())
    } else {
        s
    }
}

/// A password, unless it is empty.
pub open spec fn if_not_empty(s: Seq<char>) -> Option<Seq<char>> {
    if s.len() == 0 {
        None
    } else {
        Some(s)
    }
}

/// The password in the content of a file, or in what a script printed: all of it,
/// but for the line ends at the end.
pub fn file_password(content: &str) -> (r: Option<String>)
    ensures
        text::opt_text(r) == if_not_empty(without_line_ends(content@)),
        r matches Some(p) ==> {
            &&& 0 < p@.len() <= content@.len()
            &&& content@.take(p@.len() as int) == p@
            &&& p@.last() != '\r' && p@.last() != '\n'
            &&& forall|i: int| p@.len() <= i < content@.len() ==> #[trigger] content@[i] == '\r' || content@[i] == '\n'
        },
        r is None ==> forall|i: int| 0 <= i < content@.len() ==> #[trigger] content@[i] == '\r' || content@[i] == '\n',
{
    let v: Vec<char> = chars_of(content);
    let mut n: usize = v.len();
    assert(content@.take(n as int) =~= content@);
    while n > 0 && (v[n - 1] == '\r' || v[n - 1] == '\n')
        invariant
            n <= v@.len(),
            v@ == content@,
            without_line_ends(content@) == without_line_ends(content@.take(n as int)),
            forall|i: int| n <= i < content@.len() ==> #[trigger] content@[i] == '\r' || content@[i] == '\n',
        decreases n,
    {
        assert(content@.take(n as int).drop_last() =~= content@.take(n - 1));
        n -= 1;
    }
    if n == 0 {
        None
    } else {
        let password: String = text_of(&v, 0, n);
        assert(password@ =~= content@.take(n as int));
        Some(password)
    }
}

/// The password that a script gave: all that it printed, but for the line ends at
/// the end, where it ended well. Bytes that are not UTF-8 are replaced.
pub fn script_password(success: bool, stdout: &[u8]) -> (r: Option<String>)
    ensures
        text::opt_text(r) == (if success {
            if_not_empty(without_line_ends(text::utf8_lossy_text(stdout@)))
        } else {
            None
        }),
        success && valid_utf8(stdout@) ==> text::opt_text(r) == if_not_empty(without_line_ends(decode_utf8(stdout@))),
        !success ==> r is None,
        success && valid_utf8(stdout@) ==> {
            let said = decode_utf8(stdout@);
            &&& encode_utf8(said) == stdout@
            &&& r matches Some(p) ==> {
                &&& 0 < p@.len() <= said.len()
                &&& said.take(p@.len() as int) == p@
                &&& p@.last() != '\r' && p@.last() != '\n'
                &&& forall|i: int| p@.len() <= i < said.len() ==> #[trigger] said[i] == '\r' || said[i] == '\n'
            }
            &&& r is None ==> forall|i: int| 0 <= i < said.len() ==> #[trigger] said[i] == '\r' || said[i] == '\n'
        },
{
    if !success {
        return None;
    }
    proof {
        if valid_utf8(stdout@) {
            decode_utf8_encode_utf8(stdout@);
        }
    }
    let output: String = utf8_lossy(stdout);
    file_password(output.as_str())
}

} // verus!
