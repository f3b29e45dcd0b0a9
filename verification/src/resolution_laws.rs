//! What a resolution finds, told file by file and configuration by configuration.

use vstd::prelude::*;
use vstd::string::*;
use crate::config;
use crate::resolution;
use crate::resolution::{AskText, FoundText, Origin, ResolvedText, World};
use crate::text;

verus! {

broadcast use vstd::string::group_string_axioms;

// ---------------------------------------------------------------------------
// Files
// ---------------------------------------------------------------------------

/// A file that gives a password adds it behind those that are known, with the file
/// and where it was named. One that gives none changes nothing.
pub proof fn law_password_recorded(out: ResolvedText, ask: AskText, found: FoundText, configs: Seq<Seq<char>>)
    ensures
        ({
            let r = resolution::with_answer(out, ask, Some(found), configs);
            &&& r.passwords == out.passwords.push(found.password)
            &&& r.files == out.files.push(found.path)
            &&& r.sources.len() == out.sources.len() + 1
            &&& r.sources.drop_last() == out.sources
            &&& r.literals == out.literals
        }),
        resolution::with_answer(out, ask, None, configs) == out,
{
    let r = resolution::with_answer(out, ask, Some(found), configs);
    assert(r.sources.drop_last() =~= out.sources);
}

/// Where a password came from is told by what named the file, and the file as it
/// was written there.
pub proof fn law_source_told(file: Seq<char>, configs: Seq<Seq<char>>, i: usize)
    ensures
        resolution::source_text(AskText { origin: Origin::Options, file }, configs)
            == "initialization_options.passwordFile"@ + seq![' ', '('] + file + seq![')'],
        resolution::source_text(AskText { origin: Origin::Environment, file }, configs) == "ANSIBLE_VAULT_PASSWORD_FILE"@
            + seq![' ', '('] + file + seq![')'],
        i < configs.len() ==> resolution::source_text(AskText { origin: Origin::Config(i), file }, configs)
            == configs[i as int] + seq![' ', '('] + file + seq![')'],
{
    reveal_strlit(" (");
    reveal_strlit(")");
    assert(" ("@ =~= seq![' ', '(']);
    assert(")"@ =~= seq![')']);
}

/// Files are read in turn: one more file is read after all others, and adds to
/// what they gave.
pub proof fn law_each_file_in_turn(
    asks: Seq<AskText>,
    ask: AskText,
    out: ResolvedText,
    configs: Seq<Seq<char>>,
    w: World,
)
    ensures
        resolution::after_files(seq![], out, configs, w) == out,
        resolution::after_files(asks.push(ask), out, configs, w) == resolution::with_answer(
            resolution::after_files(asks, out, configs, w),
            ask,
            (w.password)(ask),
            configs,
        ),
    decreases asks.len(),
{
    if asks.len() == 0 {
        reveal_with_fuel(resolution::after_files, 2);
    } else {
        let next = resolution::with_answer(out, asks[0], (w.password)(asks[0]), configs);
        law_each_file_in_turn(asks.skip(1), ask, next, configs, w);
        assert(asks.push(ask).skip(1) =~= asks.skip(1).push(ask));
        assert(asks.push(ask)[0] == asks[0]);
    }
}

/// Where every file gives a password, all of them are found, in order.
pub proof fn law_all_passwords_found(
    asks: Seq<AskText>,
    found: Seq<FoundText>,
    out: ResolvedText,
    configs: Seq<Seq<char>>,
    w: World,
)
    requires
        found.len() == asks.len(),
        forall|k: int| 0 <= k < asks.len() ==> (w.password)(#[trigger] asks[k]) == Some(found[k]),
    ensures
        ({
            let r = resolution::after_files(asks, out, configs, w);
            &&& r.passwords == out.passwords + Seq::new(found.len(), |k: int| found[k].password)
            &&& r.files == out.files + Seq::new(found.len(), |k: int| found[k].path)
            &&& r.sources.len() == out.sources.len() + found.len()
            &&& r.literals == out.literals
        }),
    decreases asks.len(),
{
    let r = resolution::after_files(asks, out, configs, w);
    let passwords = Seq::new(found.len(), |k: int| found[k].password);
    let files = Seq::new(found.len(), |k: int| found[k].path);
    if asks.len() == 0 {
        assert(out.passwords + passwords =~= out.passwords);
        assert(out.files + files =~= out.files);
    } else {
        let front = asks.drop_last();
        let given = found.drop_last();
        assert forall|k: int| 0 <= k < front.len() implies (w.password)(#[trigger] front[k]) == Some(given[k]) by {
            assert(front[k] == asks[k]);
        }
        law_all_passwords_found(front, given, out, configs, w);
        law_each_file_in_turn(front, asks.last(), out, configs, w);
        assert(front.push(asks.last()) =~= asks);
        assert((w.password)(asks[asks.len() - 1]) == Some(found[asks.len() - 1]));
        law_password_recorded(resolution::after_files(front, out, configs, w), asks.last(), found.last(), configs);
        assert(out.passwords + passwords =~= (out.passwords + Seq::new(given.len(), |k: int| given[k].password)).push(
            found.last().password,
        ));
        assert(out.files + files =~= (out.files + Seq::new(given.len(), |k: int| given[k].path)).push(
            found.last().path,
        ));
    }
}

// ---------------------------------------------------------------------------
// Configurations
// ---------------------------------------------------------------------------

/// A configuration asks for each file that it names, in order, in its own name. One
/// that cannot be read asks for none.
pub proof fn law_configuration_asks(content: Seq<char>, i: usize, k: int)
    ensures
        ({
            let asks = resolution::config_asks(Some(content), i as int);
            let files = config::config_files(text::lines_of(content));
            &&& asks.len() == files.len()
            &&& 0 <= k < files.len() ==> asks[k] == (AskText { origin: Origin::Config(i), file: files[k] })
        }),
        resolution::config_asks(None, i as int).len() == 0,
{
}

/// The first configuration that names files is found, however many come before it
/// that name none, and is the last that is read where a password is known by it.
pub proof fn law_first_configuration_found(configs: Seq<Seq<char>>, w: World, k: int, from: int, out: ResolvedText)
    requires
        0 <= from <= k < configs.len(),
        forall|i: int| from <= i < k ==> (#[trigger] resolution::config_asks((w.config)(i), i)).len() == 0,
        resolution::after_files(resolution::config_asks((w.config)(k), k), out, configs, w).passwords.len() > 0,
        resolution::config_asks((w.config)(k), k).len() > 0,
    ensures
        resolution::after_configs(from, out, configs, w) == resolution::after_files(
            resolution::config_asks((w.config)(k), k),
            out,
            configs,
            w,
        ),
    decreases k - from,
{
    if from < k {
        assert(resolution::config_asks((w.config)(from), from).len() == 0);
        law_each_file_in_turn(seq![], resolution::config_asks((w.config)(k), k)[0], out, configs, w);
        assert(resolution::config_asks((w.config)(from), from) =~= seq![]);
        law_first_configuration_found(configs, w, k, from + 1, out);
    }
}

/// A configuration that names no file, or files that give no password where none is
/// known, leaves it to the next ones.
pub proof fn law_configuration_passed(configs: Seq<Seq<char>>, w: World, i: int, out: ResolvedText)
    requires
        0 <= i < configs.len(),
        resolution::config_asks((w.config)(i), i).len() == 0 || out.passwords.len() == 0,
        forall|j: int|
            0 <= j < resolution::config_asks((w.config)(i), i).len() ==> (w.password)(
                #[trigger] resolution::config_asks((w.config)(i), i)[j],
            ) is None,
    ensures
        resolution::after_configs(i, out, configs, w) == resolution::after_configs(i + 1, out, configs, w),
{
    let asks = resolution::config_asks((w.config)(i), i);
    lemma_nothing_given(asks, out, configs, w);
}

/// Files that give nothing change nothing.
proof fn lemma_nothing_given(asks: Seq<AskText>, out: ResolvedText, configs: Seq<Seq<char>>, w: World)
    requires
        forall|j: int| 0 <= j < asks.len() ==> (w.password)(#[trigger] asks[j]) is None,
    ensures
        resolution::after_files(asks, out, configs, w) == out,
    decreases asks.len(),
{
    if asks.len() > 0 {
        assert((w.password)(asks[0]) is None);
        let rest = asks.skip(1);
        assert forall|j: int| 0 <= j < rest.len() implies (w.password)(#[trigger] rest[j]) is None by {
            assert(rest[j] == asks[j + 1]);
        }
        lemma_nothing_given(rest, out, configs, w);
    }
}

/// Once all configurations were gone through, what is known stays known.
pub proof fn law_no_configuration_left(configs: Seq<Seq<char>>, w: World, out: ResolvedText)
    ensures
        resolution::after_configs(configs.len() as int, out, configs, w) == out,
{
}

/// Without a password from elsewhere, those that the first configuration to name
/// files gives are the ones that are found: all of them, in order, but for repeats.
pub proof fn law_configuration_passwords(configs: Seq<Seq<char>>, w: World, k: int, found: Seq<FoundText>)
    requires
        0 <= k < configs.len(),
        forall|i: int| 0 <= i < k ==> (#[trigger] resolution::config_asks((w.config)(i), i)).len() == 0,
        found.len() > 0,
        found.len() == resolution::config_asks((w.config)(k), k).len(),
        forall|j: int|
            0 <= j < found.len() ==> (w.password)(#[trigger] resolution::config_asks((w.config)(k), k)[j]) == Some(found[j]),
        forall|j: int| 0 < j < found.len() ==> found[j - 1].password != (#[trigger] found[j]).password,
    ensures
        ({
            let r = resolution::resolved_of(None, None, None, configs, w);
            &&& r.passwords == Seq::new(found.len(), |j: int| found[j].password)
            &&& r.files == Seq::new(found.len(), |j: int| found[j].path)
            &&& r.literals.len() == 0
        }),
{
    let out = resolution::literal_password(None);
    let asks = resolution::config_asks((w.config)(k), k);
    let none = Seq::<AskText>::empty();
    assert(resolution::option_asks(None) + resolution::environment_asks(None) =~= none);
    law_each_file_in_turn(none, asks[0], out, configs, w);
    law_all_passwords_found(asks, found, out, configs, w);
    law_first_configuration_found(configs, w, k, 0, out);
    let passwords = Seq::new(found.len(), |j: int| found[j].password);
    assert(out.passwords + passwords =~= passwords);
    assert(out.files + Seq::new(found.len(), |j: int| found[j].path) =~= Seq::new(found.len(), |j: int| found[j].path));
    assert forall|j: int| 0 < j < passwords.len() implies passwords[j - 1] != #[trigger] passwords[j] by {
        assert(found[j - 1].password != found[j].password);
    }
    law_repeats_removed(passwords, seq![]);
}

// ---------------------------------------------------------------------------
// Options and environment
// ---------------------------------------------------------------------------

/// The password of the options comes first, what their password file gives second,
/// and what the file of the environment gives third. Nothing is found where nothing
/// is named; a variable that is empty names nothing.
pub proof fn law_options_before_environment(
    password: Seq<char>,
    option_file: Seq<char>,
    env_file: Seq<char>,
    w: World,
    first: FoundText,
    second: FoundText,
)
    requires
        env_file.len() > 0,
        (w.password)(AskText { origin: Origin::Options, file: option_file }) == Some(first),
        (w.password)(AskText { origin: Origin::Environment, file: env_file }) == Some(second),
        password != first.password,
        first.password != second.password,
    ensures
        ({
            let r = resolution::resolved_of(Some(password), Some(option_file), Some(env_file), seq![], w);
            &&& r.passwords == seq![password, first.password, second.password]
            &&& r.files == seq![first.path, second.path]
            &&& r.literals == seq![password]
            &&& r.sources.len() == 3 && r.sources[0] == "initialization_options.password"@
        }),
        resolution::resolved_of(None, None, Some(seq![]), seq![], w) == resolution::resolved_of(None, None, None, seq![], w),
        resolution::resolved_of(None, None, None, seq![], w).passwords.len() == 0,
        resolution::resolved_of(None, None, None, seq![], w).files.len() == 0,
{
    let configs = Seq::<Seq<char>>::empty();
    let none = Seq::<AskText>::empty();
    let a = AskText { origin: Origin::Options, file: option_file };
    let b = AskText { origin: Origin::Environment, file: env_file };
    let out = resolution::literal_password(Some(password));
    let asks = resolution::option_asks(Some(option_file)) + resolution::environment_asks(Some(env_file));
    assert(asks =~= none.push(a).push(b));
    law_each_file_in_turn(none, a, out, configs, w);
    law_each_file_in_turn(none.push(a), b, out, configs, w);
    let r = resolution::after_files(asks, out, configs, w);
    assert(r.passwords =~= seq![password, first.password, second.password]);
    assert(r.files =~= seq![first.path, second.path]);
    assert(r.literals =~= seq![password]);
    law_repeats_removed(r.passwords, seq![]);
    assert(resolution::after_configs(0, r, configs, w) == r);
    let nothing = resolution::literal_password(None);
    law_each_file_in_turn(none, a, nothing, configs, w);
    assert(resolution::option_asks(None) + resolution::environment_asks(None) =~= none);
    assert(resolution::option_asks(None) + resolution::environment_asks(Some(seq![])) =~= none);
    assert(resolution::after_configs(0, nothing, configs, w) == nothing);
}

// ---------------------------------------------------------------------------
// Repeats
// ---------------------------------------------------------------------------

/// Taking out repeats leaves a list without them as it is, takes the same password
/// again for nothing new, and loses no password.
pub proof fn law_repeats_removed(s: Seq<Seq<char>>, x: Seq<char>)
    ensures
        (forall|i: int| 0 < i < s.len() ==> s[i - 1] != #[trigger] s[i]) ==> resolution::without_repeats(s) == s,
        s.len() > 0 ==> resolution::without_repeats(s.push(s.last())) == resolution::without_repeats(s),
        resolution::without_repeats(s).contains(x) <==> s.contains(x),
    decreases s.len(),
{
    if s.len() > 0 {
        let again = s.push(s.last());
        assert(again.drop_last() =~= s);
        assert(again[again.len() - 2] == s.last());
    }
    if s.len() > 1 {
        let front = s.drop_last();
        law_repeats_removed(front, x);
        if forall|i: int| 0 < i < s.len() ==> s[i - 1] != #[trigger] s[i] {
            assert forall|i: int| 0 < i < front.len() implies front[i - 1] != #[trigger] front[i] by {
                assert(s[i - 1] != s[i]);
            }
            assert(s[s.len() - 1 - 1] != s[s.len() - 1]);
            assert(front.push(s.last()) =~= s);
        }
        let r = resolution::without_repeats(s);
        let f = resolution::without_repeats(front);
        assert(s.contains(x) <==> front.contains(x) || s.last() == x) by {
            if s.contains(x) && s.last() != x {
                let i = choose|i: int| 0 <= i < s.len() && s[i] == x;
                assert(front[i] == x);
            }
            if front.contains(x) {
                let i = choose|i: int| 0 <= i < front.len() && front[i] == x;
                assert(s[i] == x);
            }
            assert(s[s.len() - 1] == s.last());
        }
        if s.last() == s[s.len() - 2] {
            assert(front[front.len() - 1] == s.last());
        } else {
            assert(r == f.push(s.last()));
            assert(r[r.len() - 1] == s.last());
            if f.contains(x) {
                let i = choose|i: int| 0 <= i < f.len() && f[i] == x;
                assert(r[i] == x);
            }
            if r.contains(x) && x != s.last() {
                let i = choose|i: int| 0 <= i < r.len() && r[i] == x;
                assert(f[i] == x);
            }
        }
    }
}

} // verus!
