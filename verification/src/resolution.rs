//! Which vault passwords to try. Password files and configurations are read
//! elsewhere: a `Resolution` says which one to read next, takes what was in it,
//! and ends with the passwords in the order in which they are tried.

use vstd::prelude::*;
use crate::config;
use crate::config::parse_ansible_cfg;
use crate::password::InitOptions;
use crate::text;
use crate::text::{joined, same_text};

verus! {

broadcast use vstd::string::group_string_axioms;

// ---------------------------------------------------------------------------
// Results
// ---------------------------------------------------------------------------

/// The passwords that were found.
#[derive(Debug)]
pub struct Resolved {
    /// The passwords in the order in which they are tried. The first encrypts.
    pub passwords: Vec<String>,
    /// Where each password came from, for people to read.
    pub sources: Vec<String>,
    /// The passwords that were given as they are, not in a file.
    pub literals: Vec<String>,
    /// The files that gave a password.
    pub files: Vec<String>,
}

/// A `Resolved` with texts for strings.
#[verifier::ext_equal]
pub struct ResolvedText {
    pub passwords: Seq<Seq<char>>,
    pub sources: Seq<Seq<char>>,
    pub literals: Seq<Seq<char>>,
    pub files: Seq<Seq<char>>,
}

impl View for Resolved {
    type V = ResolvedText;

    open spec fn view(&self) -> ResolvedText {
        ResolvedText {
            passwords: text::texts(self.passwords@),
            sources: text::texts(self.sources@),
            literals: text::texts(self.literals@),
            files: text::texts(self.files@),
        }
    }
}

impl Default for Resolved {
    fn default() -> (r: Self)
        ensures
            r@ == no_passwords(),
    {
        let r: Resolved = Resolved {
            passwords: Vec::new(),
            sources: Vec::new(),
            literals: Vec::new(),
            files: Vec::new(),
        };
        assert(r@ =~= no_passwords());
        r
    }
}

/// Nothing was found.
pub open spec fn no_passwords() -> ResolvedText {
    ResolvedText { passwords: seq![], sources: seq![], literals: seq![], files: seq![] }
}

// ---------------------------------------------------------------------------
// Questions and answers
// ---------------------------------------------------------------------------

/// What names a password file.
#[derive(Debug, Clone, Copy, PartialEq, Eq, Structural)]
pub enum Origin {
    /// The option `passwordFile`.
    Options,
    /// The variable `ANSIBLE_VAULT_PASSWORD_FILE`.
    Environment,
    /// The configuration with this index.
    Config(usize),
}

/// A password file to read.
#[derive(Debug)]
pub struct Ask {
    pub origin: Origin,
    /// The file, as it was written.
    pub file: String,
}

/// An `Ask` with a text for the string.
pub struct AskText {
    pub origin: Origin,
    pub file: Seq<char>,
}

impl View for Ask {
    type V = AskText;

    open spec fn view(&self) -> AskText {
        AskText { origin: self.origin, file: self.file@ }
    }
}

/// The views of a sequence of asks.
pub open spec fn ask_texts(v: Seq<Ask>) -> Seq<AskText> {
    Seq::new(v.len(), |i: int| v[i]@)
}

/// What a password file gave.
#[derive(Debug)]
pub struct Found {
    pub password: String,
    /// The file that was read.
    pub path: String,
}

/// A `Found` with texts for strings.
pub struct FoundText {
    pub password: Seq<char>,
    pub path: Seq<char>,
}

impl View for Found {
    type V = FoundText;

    open spec fn view(&self) -> FoundText {
        FoundText { password: self.password@, path: self.path@ }
    }
}

/// The view of what a file gave, if anything.
pub open spec fn found_text(found: Option<Found>) -> Option<FoundText> {
    match found {
        Some(f) => Some(f@),
        None => None,
    }
}

/// What to do next.
#[derive(Debug)]
pub enum Step {
    /// Read a password file.
    ReadPassword(Ask),
    /// Read the configuration with this index.
    ReadConfig(usize),
    /// Nothing: the passwords are known.
    Done,
}

/// A `Step` with texts for strings.
pub enum StepText {
    ReadPassword(AskText),
    ReadConfig(int),
    Done,
}

impl View for Step {
    type V = StepText;

    open spec fn view(&self) -> StepText {
        match self {
            Step::ReadPassword(ask) => StepText::ReadPassword(ask@),
            Step::ReadConfig(i) => StepText::ReadConfig(*i as int),
            Step::Done => StepText::Done,
        }
    }
}

// ---------------------------------------------------------------------------
// The order of things
// ---------------------------------------------------------------------------

/// What the files on a machine hold: the password that a file gives, and the
/// content of the configuration with an index.
pub struct World {
    pub password: spec_fn(AskText) -> Option<FoundText>,
    pub config: spec_fn(int) -> Option<Seq<char>>,
}

/// Where a password came from, for people to read.
pub open spec fn source_text(ask: AskText, configs: Seq<Seq<char>>) -> Seq<char> {
    let origin = match ask.origin {
        Origin::Options => "initialization_options.passwordFile"@,
        Origin::Environment => "ANSIBLE_VAULT_PASSWORD_FILE"@,
        Origin::Config(i) => configs[i as int],
    };
    origin + " ("@ + ask.file + ")"@
}

/// What is known once a file was read.
pub open spec fn with_answer(
    out: ResolvedText,
    ask: AskText,
    found: Option<FoundText>,
    configs: Seq<Seq<char>>,
) -> ResolvedText {
    match found {
        None => out,
        Some(f) => ResolvedText {
            passwords: out.passwords.push(f.password),
            sources: out.sources.push(source_text(ask, configs)),
            files: out.files.push(f.path),
            ..out
        },
    }
}

/// What is known once all the files were read, in order.
pub open spec fn after_files(
    asks: Seq<AskText>,
    out: ResolvedText,
    configs: Seq<Seq<char>>,
    w: World,
) -> ResolvedText
    decreases asks.len(),
{
    if asks.len() == 0 {
        out
    } else {
        after_files(asks.skip(1), with_answer(out, asks[0], (w.password)(asks[0]), configs), configs, w)
    }
}

/// The password files that a configuration names. One that cannot be read names
/// none.
pub open spec fn config_asks(content: Option<Seq<char>>, i: int) -> Seq<AskText> {
    match content {
        None => seq![],
        Some(c) => {
            let files = config::config_files(text::lines_of(c));
            Seq::new(files.len(), |k: int| AskText { origin: Origin::Config(i as usize), file: files[k] })
        },
    }
}

/// What is known once the configurations from `i` on were gone through. The
/// first that names files is the last, unless no password is known by that time.
pub open spec fn after_configs(i: int, out: ResolvedText, configs: Seq<Seq<char>>, w: World) -> ResolvedText
    decreases configs.len() - i,
{
    if i >= configs.len() {
        out
    } else {
        let asks = config_asks((w.config)(i), i);
        let o = after_files(asks, out, configs, w);
        if asks.len() > 0 && o.passwords.len() > 0 {
            o
        } else {
            after_configs(i + 1, o, configs, w)
        }
    }
}

/// The password that the options give as it is.
pub open spec fn literal_password(password: Option<Seq<char>>) -> ResolvedText {
    match password {
        None => no_passwords(),
        Some(p) => ResolvedText {
            passwords: seq![p],
            sources: seq!["initialization_options.password"@],
            literals: seq![p],
            files: seq![],
        },
    }
}

/// The password file that the options name.
pub open spec fn option_asks(password_file: Option<Seq<char>>) -> Seq<AskText> {
    match password_file {
        Some(file) => seq![AskText { origin: Origin::Options, file }],
        None => seq![],
    }
}

/// The password file that the environment names. An empty variable names none.
pub open spec fn environment_asks(env_file: Option<Seq<char>>) -> Seq<AskText> {
    match env_file {
        Some(file) => if file.len() > 0 {
            seq![AskText { origin: Origin::Environment, file }]
        } else {
            seq![]
        },
        None => seq![],
    }
}

/// `s` without the elements that are the same as the one before.
pub open spec fn without_repeats(s: Seq<Seq<char>>) -> Seq<Seq<char>>
    decreases s.len(),
{
    if s.len() <= 1 {
        s
    } else if s.last() == s[s.len() - 2] {
        without_repeats(s.drop_last())
    } else {
        without_repeats(s.drop_last()).push(s.last())
    }
}

/// What was found, without repeated passwords.
pub open spec fn finished(out: ResolvedText) -> ResolvedText {
    ResolvedText { passwords: without_repeats(out.passwords), ..out }
}

/// The passwords for a document: from the options first, from the environment
/// next, from the configurations last.
pub open spec fn resolved_of(
    password: Option<Seq<char>>,
    password_file: Option<Seq<char>>,
    env_file: Option<Seq<char>>,
    configs: Seq<Seq<char>>,
    w: World,
) -> ResolvedText {
    let first = after_files(
        option_asks(password_file) + environment_asks(env_file),
        literal_password(password),
        configs,
        w,
    );
    finished(after_configs(0, first, configs, w))
}

// ---------------------------------------------------------------------------
// One question at a time
// ---------------------------------------------------------------------------

/// The state of a resolution.
#[derive(Debug)]
pub struct Resolution {
    /// The configurations, as people read their paths.
    configs: Vec<String>,
    /// The first configuration that was not read.
    next_config: usize,
    /// The password files that were named, the next one last.
    asks: Vec<Ask>,
    /// The files were named by a configuration.
    from_config: bool,
    /// What was found so far.
    out: Resolved,
}

/// The state of a resolution with texts for strings.
#[verifier::ext_equal]
pub struct ResolutionText {
    pub configs: Seq<Seq<char>>,
    pub next_config: int,
    /// The password files that were named and not read, the next one first.
    pub asks: Seq<AskText>,
    pub from_config: bool,
    pub out: ResolvedText,
}

impl View for Resolution {
    type V = ResolutionText;

    closed spec fn view(&self) -> ResolutionText {
        ResolutionText {
            configs: text::texts(self.configs@),
            next_config: self.next_config as int,
            asks: ask_texts(self.asks@).reverse(),
            from_config: self.from_config,
            out: self.out@,
        }
    }
}

/// What comes next.
pub open spec fn step_of(s: ResolutionText) -> StepText {
    if s.asks.len() > 0 {
        StepText::ReadPassword(s.asks[0])
    } else if s.next_config >= s.configs.len() || (s.from_config && s.out.passwords.len() > 0) {
        StepText::Done
    } else {
        StepText::ReadConfig(s.next_config)
    }
}

/// A state that a resolution can be in: what names a file is one of the
/// configurations that it has.
pub open spec fn valid(s: ResolutionText) -> bool {
    &&& s.next_config >= 0
    &&& forall|k: int|
        0 <= k < s.asks.len() ==> ((#[trigger] s.asks[k]).origin matches Origin::Config(i) ==> i < s.configs.len())
}

/// The state before anything was read.
pub open spec fn started(
    password: Option<Seq<char>>,
    password_file: Option<Seq<char>>,
    env_file: Option<Seq<char>>,
    configs: Seq<Seq<char>>,
) -> ResolutionText {
    ResolutionText {
        configs,
        next_config: 0,
        asks: option_asks(password_file) + environment_asks(env_file),
        from_config: false,
        out: literal_password(password),
    }
}

/// The state once the next password file was read.
pub open spec fn password_answered(s: ResolutionText, found: Option<FoundText>) -> ResolutionText {
    ResolutionText { asks: s.asks.skip(1), out: with_answer(s.out, s.asks[0], found, s.configs), ..s }
}

/// The state once the next configuration was read.
pub open spec fn config_answered(s: ResolutionText, content: Option<Seq<char>>) -> ResolutionText {
    let asks = config_asks(content, s.next_config);
    ResolutionText { next_config: s.next_config + 1, asks, from_config: asks.len() > 0, ..s }
}

/// What a resolution comes to, where the files hold what they hold in `w`.
pub open spec fn outcome_of(s: ResolutionText, w: World) -> ResolvedText {
    let o = after_files(s.asks, s.out, s.configs, w);
    finished(
        if s.from_config && o.passwords.len() > 0 {
            o
        } else {
            after_configs(s.next_config, o, s.configs, w)
        },
    )
}

impl Resolution {
    /// A resolution for a document, before anything was read. `env_file` is what
    /// `ANSIBLE_VAULT_PASSWORD_FILE` holds; `configs` are the configurations that
    /// exist, in the order in which they are looked at.
    pub fn start(options: &InitOptions, env_file: Option<&str>, configs: Vec<String>) -> (r: Self)
        ensures
            r@ == started(
                text::opt_text(options.password),
                text::opt_text(options.password_file),
                text::opt_str_text(env_file),
                text::texts(configs@),
            ),
            valid(r@),
    {
        let mut out: Resolved = Resolved::default();
        if let Some(p) = &options.password {
            out.passwords.push(p.as_str().to_owned());
            out.sources.push("initialization_options.password".to_owned());
            out.literals.push(p.as_str().to_owned());
        }
        assert(out@ =~= literal_password(text::opt_text(options.password)));
        let mut asks: Vec<Ask> = Vec::new();
        if let Some(file) = env_file {
            if !file.is_empty() {
                asks.push(Ask { origin: Origin::Environment, file: file.to_owned() });
            }
        }
        if let Some(file) = &options.password_file {
            asks.push(Ask { origin: Origin::Options, file: file.as_str().to_owned() });
        }
        assert(ask_texts(asks@).reverse() =~= option_asks(text::opt_text(options.password_file)) + environment_asks(
            text::opt_str_text(env_file),
        ));
        Resolution { configs, next_config: 0, asks, from_config: false, out }
    }

    /// What to do next.
    pub fn next_step(&self) -> (r: Step)
        ensures
            r@ == step_of(self@),
    {
        let n: usize = self.asks.len();
        if n > 0 {
            let ask: &Ask = &self.asks[n - 1];
            assert(self@.asks[0] == ask@);
            Step::ReadPassword(Ask { origin: ask.origin, file: ask.file.as_str().to_owned() })
        } else if self.next_config >= self.configs.len() || (self.from_config && self.out.passwords.len() > 0) {
            Step::Done
        } else {
            Step::ReadConfig(self.next_config)
        }
    }

    /// Takes what the next password file gave, if anything.
    pub fn password_read(&mut self, found: Option<Found>)
        requires
            valid(old(self)@),
            step_of(old(self)@) is ReadPassword,
        ensures
            final(self)@ == password_answered(old(self)@, found_text(found)),
            valid(final(self)@),
    {
        let ghost before = self@;
        if let Some(ask) = self.asks.pop() {
            assert(before.asks[0] == ask@);
            assert(ask_texts(self.asks@).reverse() =~= before.asks.skip(1));
            if let Some(f) = found {
                let ghost out = self.out@;
                let origin: String = match ask.origin {
                    Origin::Options => "initialization_options.passwordFile".to_owned(),
                    Origin::Environment => "ANSIBLE_VAULT_PASSWORD_FILE".to_owned(),
                    Origin::Config(i) => self.configs[i].as_str().to_owned(),
                };
                let source: String = joined(origin.as_str(), " (");
                let source: String = joined(source.as_str(), ask.file.as_str());
                let source: String = joined(source.as_str(), ")");
                assert(source@ == source_text(ask@, self@.configs));
                self.out.passwords.push(f.password);
                self.out.sources.push(source);
                self.out.files.push(f.path);
                assert(self.out@ =~= with_answer(out, ask@, found_text(found), before.configs));
            }
        }
        assert(self@ =~= password_answered(before, found_text(found)));
    }

    /// Takes the content of the next configuration, if it could be read.
    pub fn config_read(&mut self, content: Option<&str>)
        requires
            valid(old(self)@),
            step_of(old(self)@) is ReadConfig,
        ensures
            final(self)@ == config_answered(old(self)@, text::opt_str_text(content)),
            valid(final(self)@),
    {
        let ghost before = self@;
        assert(before.configs.len() == self.configs@.len());
        let i: usize = self.next_config;
        assert(i < self.configs.len());
        let files: Option<Vec<String>> = match content {
            Some(c) => parse_ansible_cfg(c),
            None => None,
        };
        let mut asks: Vec<Ask> = Vec::new();
        let ghost wanted = config_asks(text::opt_str_text(content), i as int);
        if let Some(files) = files {
            let ghost named = text::texts(files@);
            let mut k: usize = files.len();
            assert(wanted.skip(k as int) =~= seq![]);
            assert(ask_texts(asks@).reverse() =~= seq![]);
            while k > 0
                invariant
                    k <= files@.len() == wanted.len(),
                    named == text::texts(files@),
                    forall|j: int|
                        0 <= j < wanted.len() ==> #[trigger] wanted[j] == (AskText {
                            origin: Origin::Config(i),
                            file: named[j],
                        }),
                    ask_texts(asks@).reverse() == wanted.skip(k as int),
                decreases k,
            {
                k -= 1;
                let ghost had = ask_texts(asks@);
                asks.push(Ask { origin: Origin::Config(i), file: files[k].as_str().to_owned() });
                proof {
                    assert(named[k as int] == files@[k as int]@);
                    assert(ask_texts(asks@) =~= had.push(wanted[k as int]));
                    assert(had.push(wanted[k as int]).reverse() =~= seq![wanted[k as int]] + had.reverse());
                    assert(wanted.skip(k as int) =~= seq![wanted[k as int]] + wanted.skip(k + 1));
                }
            }
            assert(wanted.skip(0) =~= wanted);
        } else {
            assert(wanted =~= seq![]);
            assert(ask_texts(asks@).reverse() =~= seq![]);
        }
        assert(ask_texts(asks@).reverse().len() == asks@.len());
        self.from_config = asks.len() > 0;
        self.asks = asks;
        self.next_config = i + 1;
        assert(self@ =~= config_answered(before, text::opt_str_text(content)));
    }

    /// What was found.
    pub fn finish(self) -> (r: Resolved)
        ensures
            r@ == finished(self@.out),
    {
        let mut out: Resolved = self.out;
        let all: Vec<String> = out.passwords;
        let ghost texts_all = text::texts(all@);
        let mut kept: Vec<String> = Vec::new();
        let mut i: usize = 0;
        assert(text::texts(kept@) =~= seq![]);
        assert(texts_all.take(0) =~= seq![]);
        while i < all.len()
            invariant
                i <= all@.len(),
                texts_all == text::texts(all@),
                text::texts(kept@) == without_repeats(texts_all.take(i as int)),
            decreases all@.len() - i,
        {
            let ghost had = text::texts(kept@);
            let ghost upto = texts_all.take(i + 1);
            proof {
                assert(upto.drop_last() =~= texts_all.take(i as int));
                assert(upto.last() == all@[i as int]@);
                if i == 0 {
                    assert(had =~= seq![]);
                    assert(upto =~= had.push(upto.last()));
                } else {
                    assert(upto[upto.len() - 2] == all@[i - 1]@);
                }
            }
            if i == 0 || !same_text(all[i].as_str(), all[i - 1].as_str()) {
                kept.push(all[i].as_str().to_owned());
                assert(text::texts(kept@) =~= had.push(all@[i as int]@));
            }
            i += 1;
        }
        assert(texts_all.take(texts_all.len() as int) =~= texts_all);
        let r: Resolved = Resolved {
            passwords: kept,
            sources: out.sources,
            literals: out.literals,
            files: out.files,
        };
        assert(r@ =~= finished(self@.out));
        r
    }
}

// ---------------------------------------------------------------------------
// Laws
// ---------------------------------------------------------------------------

/// A resolution that begins will come to the passwords for the document.
pub proof fn law_start_comes_to_resolved(
    password: Option<Seq<char>>,
    password_file: Option<Seq<char>>,
    env_file: Option<Seq<char>>,
    configs: Seq<Seq<char>>,
    w: World,
)
    ensures
        outcome_of(started(password, password_file, env_file, configs), w) == resolved_of(
            password,
            password_file,
            env_file,
            configs,
            w,
        ),
{
}

/// Reading the next password file does not change what a resolution comes to,
/// and leaves one file fewer to read.
pub proof fn law_password_answer_keeps_outcome(s: ResolutionText, w: World)
    requires
        step_of(s) is ReadPassword,
    ensures
        ({
            let t = password_answered(s, (w.password)(s.asks[0]));
            &&& outcome_of(t, w) == outcome_of(s, w)
            &&& t.asks.len() == s.asks.len() - 1
            &&& t.next_config == s.next_config
        }),
{
}

/// Reading the next configuration does not change what a resolution comes to,
/// and leaves one configuration fewer to read.
pub proof fn law_config_answer_keeps_outcome(s: ResolutionText, w: World)
    requires
        valid(s),
        step_of(s) is ReadConfig,
    ensures
        ({
            let t = config_answered(s, (w.config)(s.next_config));
            &&& outcome_of(t, w) == outcome_of(s, w)
            &&& t.next_config == s.next_config + 1
        }),
{
    let i = s.next_config;
    assert(after_files(s.asks, s.out, s.configs, w) == s.out);
    let asks = config_asks((w.config)(i), i);
    if asks.len() == 0 {
        assert(after_files(asks, s.out, s.configs, w) == s.out);
    }
}

/// Where there is nothing more to read, what was found is what the resolution
/// comes to, whatever the files that were not read hold.
pub proof fn law_done_is_outcome(s: ResolutionText, w: World)
    requires
        step_of(s) is Done,
    ensures
        outcome_of(s, w) == finished(s.out),
{
    assert(after_files(s.asks, s.out, s.configs, w) == s.out);
}

/// Reading more files keeps what was found before.
proof fn lemma_files_extend(asks: Seq<AskText>, out: ResolvedText, configs: Seq<Seq<char>>, w: World)
    ensures
        ({
            let o = after_files(asks, out, configs, w);
            &&& out.passwords.len() <= o.passwords.len()
            &&& o.passwords.take(out.passwords.len() as int) == out.passwords
            &&& o.literals == out.literals
        }),
    decreases asks.len(),
{
    if asks.len() == 0 {
        assert(out.passwords.take(out.passwords.len() as int) =~= out.passwords);
    } else {
        let next = with_answer(out, asks[0], (w.password)(asks[0]), configs);
        lemma_files_extend(asks.skip(1), next, configs, w);
        let o = after_files(asks, out, configs, w);
        let n = out.passwords.len() as int;
        assert(next.passwords.take(n) =~= out.passwords);
        assert(o.passwords.take(next.passwords.len() as int).take(n) =~= o.passwords.take(n));
    }
}

/// Going through more configurations keeps what was found before.
proof fn lemma_configs_extend(i: int, out: ResolvedText, configs: Seq<Seq<char>>, w: World)
    ensures
        ({
            let o = after_configs(i, out, configs, w);
            &&& out.passwords.len() <= o.passwords.len()
            &&& o.passwords.take(out.passwords.len() as int) == out.passwords
            &&& o.literals == out.literals
        }),
    decreases configs.len() - i,
{
    if i >= configs.len() {
        assert(out.passwords.take(out.passwords.len() as int) =~= out.passwords);
    } else {
        let asks = config_asks((w.config)(i), i);
        let next = after_files(asks, out, configs, w);
        lemma_files_extend(asks, out, configs, w);
        if !(asks.len() > 0 && next.passwords.len() > 0) {
            lemma_configs_extend(i + 1, next, configs, w);
            let o = after_configs(i, out, configs, w);
            let n = out.passwords.len() as int;
            assert(o.passwords.take(next.passwords.len() as int).take(n) =~= o.passwords.take(n));
        }
    }
}

/// Taking out repeats keeps the first element, and leaves no two neighbours the
/// same.
proof fn lemma_without_repeats(s: Seq<Seq<char>>)
    ensures
        ({
            let r = without_repeats(s);
            &&& s.len() > 0 ==> r.len() > 0 && r[0] == s[0] && r.last() == s.last()
            &&& r.len() <= s.len()
            &&& forall|i: int| 0 < i < r.len() ==> #[trigger] r[i] != r[i - 1]
        }),
    decreases s.len(),
{
    if s.len() > 1 {
        lemma_without_repeats(s.drop_last());
        assert(s.drop_last().last() == s[s.len() - 2]);
    }
}

/// A password in the options is the first that is tried, and so the one that
/// encrypts; it is the only one that was not in a file.
pub proof fn law_option_password_first(
    password: Seq<char>,
    password_file: Option<Seq<char>>,
    env_file: Option<Seq<char>>,
    configs: Seq<Seq<char>>,
    w: World,
)
    ensures
        ({
            let r = resolved_of(Some(password), password_file, env_file, configs, w);
            &&& r.passwords.len() > 0
            &&& r.passwords[0] == password
            &&& r.literals == seq![password]
        }),
{
    let out = literal_password(Some(password));
    let asks = option_asks(password_file) + environment_asks(env_file);
    let first = after_files(asks, out, configs, w);
    lemma_files_extend(asks, out, configs, w);
    lemma_configs_extend(0, first, configs, w);
    let o = after_configs(0, first, configs, w);
    assert(first.passwords.take(1)[0] == password);
    assert(o.passwords.take(first.passwords.len() as int)[0] == first.passwords[0]);
    lemma_without_repeats(o.passwords);
}

/// Without a password in the options, every password was in a file.
pub proof fn law_no_literals_without_option(
    password_file: Option<Seq<char>>,
    env_file: Option<Seq<char>>,
    configs: Seq<Seq<char>>,
    w: World,
)
    ensures
        resolved_of(None, password_file, env_file, configs, w).literals.len() == 0,
{
    let out = literal_password(None);
    let asks = option_asks(password_file) + environment_asks(env_file);
    lemma_files_extend(asks, out, configs, w);
    lemma_configs_extend(0, after_files(asks, out, configs, w), configs, w);
}

/// No password is tried twice in a row.
pub proof fn law_no_repeats(
    password: Option<Seq<char>>,
    password_file: Option<Seq<char>>,
    env_file: Option<Seq<char>>,
    configs: Seq<Seq<char>>,
    w: World,
    i: int,
)
    requires
        0 < i < resolved_of(password, password_file, env_file, configs, w).passwords.len(),
    ensures
        ({
            let r = resolved_of(password, password_file, env_file, configs, w);
            r.passwords[i] != r.passwords[i - 1]
        }),
{
    let out = literal_password(password);
    let asks = option_asks(password_file) + environment_asks(env_file);
    lemma_without_repeats(after_configs(0, after_files(asks, out, configs, w), configs, w).passwords);
}

/// Two machines have the same configurations up to and with number `k`.
pub open spec fn same_up_to(v: World, w: World, k: int) -> bool {
    &&& forall|ask: AskText| #[trigger] (v.password)(ask) == (w.password)(ask)
    &&& forall|i: int| i <= k ==> #[trigger] (v.config)(i) == (w.config)(i)
}

proof fn lemma_same_files(asks: Seq<AskText>, out: ResolvedText, configs: Seq<Seq<char>>, v: World, w: World, k: int)
    requires
        same_up_to(v, w, k),
    ensures
        after_files(asks, out, configs, v) == after_files(asks, out, configs, w),
    decreases asks.len(),
{
    if asks.len() > 0 {
        assert((v.password)(asks[0]) == (w.password)(asks[0]));
        lemma_same_files(
            asks.skip(1),
            with_answer(out, asks[0], (w.password)(asks[0]), configs),
            configs,
            v,
            w,
            k,
        );
    }
}

/// A file that gives a password adds one.
proof fn lemma_files_give(asks: Seq<AskText>, out: ResolvedText, configs: Seq<Seq<char>>, w: World, j: int)
    requires
        0 <= j < asks.len(),
        (w.password)(asks[j]) is Some,
    ensures
        after_files(asks, out, configs, w).passwords.len() > 0,
    decreases asks.len(),
{
    let next = with_answer(out, asks[0], (w.password)(asks[0]), configs);
    if j == 0 {
        lemma_files_extend(asks.skip(1), next, configs, w);
    } else {
        assert(asks.skip(1)[j - 1] == asks[j]);
        lemma_files_give(asks.skip(1), next, configs, w, j - 1);
    }
}

/// A password is known once the configuration `k` was gone through: one was
/// known before, or one of its files gives one.
pub open spec fn known_by(out: ResolvedText, w: World, k: int) -> bool {
    let asks = config_asks((w.config)(k), k);
    ||| out.passwords.len() > 0
    ||| exists|j: int| 0 <= j < asks.len() && (w.password)(#[trigger] asks[j]) is Some
}

proof fn lemma_first_config_decides(i: int, out: ResolvedText, configs: Seq<Seq<char>>, v: World, w: World, k: int)
    requires
        0 <= i <= k < configs.len(),
        same_up_to(v, w, k),
        config_asks((w.config)(k), k).len() > 0,
        known_by(out, w, k),
    ensures
        after_configs(i, out, configs, v) == after_configs(i, out, configs, w),
    decreases k - i,
{
    assert((v.config)(i) == (w.config)(i));
    let asks = config_asks((w.config)(i), i);
    lemma_same_files(asks, out, configs, v, w, k);
    lemma_files_extend(asks, out, configs, w);
    let o = after_files(asks, out, configs, w);
    if i == k {
        if out.passwords.len() == 0 {
            let j = choose|j: int| 0 <= j < asks.len() && (w.password)(#[trigger] asks[j]) is Some;
            lemma_files_give(asks, out, configs, w, j);
        }
    } else if !(asks.len() > 0 && o.passwords.len() > 0) {
        lemma_first_config_decides(i + 1, o, configs, v, w, k);
    }
}

/// The first configuration that names files decides, where a password is known
/// once they were read: what the later ones hold changes nothing.
pub proof fn law_first_config_decides(
    password: Option<Seq<char>>,
    password_file: Option<Seq<char>>,
    env_file: Option<Seq<char>>,
    configs: Seq<Seq<char>>,
    v: World,
    w: World,
    k: int,
)
    requires
        0 <= k < configs.len(),
        same_up_to(v, w, k),
        config_asks((w.config)(k), k).len() > 0,
        known_by(
            after_files(
                option_asks(password_file) + environment_asks(env_file),
                literal_password(password),
                configs,
                w,
            ),
            w,
            k,
        ),
    ensures
        resolved_of(password, password_file, env_file, configs, v) == resolved_of(
            password,
            password_file,
            env_file,
            configs,
            w,
        ),
{
    let out = literal_password(password);
    let asks = option_asks(password_file) + environment_asks(env_file);
    lemma_same_files(asks, out, configs, v, w, k);
    lemma_first_config_decides(0, after_files(asks, out, configs, w), configs, v, w, k);
}

} // verus!
