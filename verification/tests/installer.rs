use ansible_vault::installer::{is_stale, plan_install, Architecture, Asset, Os, Release, Search};

fn release(names: &[&str]) -> Release {
    Release {
        version: "v0.1.0".to_string(),
        assets: names
            .iter()
            .map(|n| Asset { name: n.to_string(), download_url: format!("https://host/{n}") })
            .collect(),
    }
}

fn linux() -> Release {
    release(&["other", "ansible-vault-lsp-v0.1.0-x86_64-unknown-linux-musl.tar.gz"])
}

fn found(s: Search) -> (String, bool) {
    match s {
        Search::Found { path, download } => (path, download),
        other => panic!("{other:?}"),
    }
}

fn failed(s: Search) -> String {
    match s {
        Search::Failed(e) => e,
        other => panic!("{other:?}"),
    }
}

#[test]
fn installs_are_planned() {
    let i = plan_install(Os::Linux, Architecture::X8664, &linux()).unwrap();
    assert_eq!(i.download_url, "https://host/ansible-vault-lsp-v0.1.0-x86_64-unknown-linux-musl.tar.gz");
    assert!(!i.zip);
    assert_eq!(i.version_dir, "ansible-vault-lsp-v0.1.0");
    assert_eq!(i.binary_path, "ansible-vault-lsp-v0.1.0/ansible-vault-lsp");
    let r = release(&["ansible-vault-lsp-v0.1.0-x86_64-pc-windows-msvc.zip"]);
    let i = plan_install(Os::Windows, Architecture::X8664, &r).unwrap();
    assert!(i.zip);
    assert_eq!(i.binary_path, "ansible-vault-lsp-v0.1.0/ansible-vault-lsp.exe");
}

#[test]
fn targets_have_their_files() {
    for (os, arch, target) in [
        (Os::Mac, Architecture::Aarch64, "aarch64-apple-darwin"),
        (Os::Mac, Architecture::X8664, "x86_64-apple-darwin"),
        (Os::Linux, Architecture::Aarch64, "aarch64-unknown-linux-musl"),
    ] {
        let name = format!("ansible-vault-lsp-v0.1.0-{target}.tar.gz");
        let i = plan_install(os, arch, &release(&[name.as_str()])).unwrap();
        assert_eq!(i.download_url, format!("https://host/{name}"));
    }
}

#[test]
fn some_platforms_have_no_program() {
    assert_eq!(
        plan_install(Os::Windows, Architecture::Aarch64, &linux()).unwrap_err(),
        "unsupported platform: Os::Windows Architecture::Aarch64"
    );
    assert_eq!(
        plan_install(Os::Mac, Architecture::X86, &linux()).unwrap_err(),
        "unsupported platform: Os::Mac Architecture::X86"
    );
    assert_eq!(
        plan_install(Os::Linux, Architecture::Aarch64, &linux()).unwrap_err(),
        "release v0.1.0 has no asset ansible-vault-lsp-v0.1.0-aarch64-unknown-linux-musl.tar.gz"
    );
}

#[test]
fn earlier_downloads_are_stale() {
    assert!(is_stale("ansible-vault-lsp-v0.0.9", "ansible-vault-lsp-v0.1.0"));
    assert!(!is_stale("ansible-vault-lsp-v0.1.0", "ansible-vault-lsp-v0.1.0"));
    assert!(!is_stale("notes", "ansible-vault-lsp-v0.1.0"));
}

#[test]
fn settings_and_path_come_first() {
    let s = Search::start().path_given(Some("/set".to_string()), None);
    assert_eq!(found(s), ("/set".to_string(), false));
    let s = Search::start().path_given(None, None).path_given(Some("/usr/bin/x".to_string()), Some("c"));
    assert_eq!(found(s), ("/usr/bin/x".to_string(), false));
    let s = Search::start().path_given(None, Some("c")).path_given(None, Some("c"));
    assert!(matches!(&s, Search::Cached(p) if p == "c"));
    assert_eq!(found(s.file_checked(true)), ("c".to_string(), false));
}

#[test]
fn releases_are_downloaded() {
    let s = Search::start().path_given(None, Some("c")).path_given(None, Some("c")).file_checked(false);
    assert!(matches!(s, Search::LatestRelease));
    let s = s.release_given(Os::Linux, Architecture::X8664, Ok(linux()));
    assert!(matches!(s, Search::Installed(_)));
    let s = s.file_checked(false);
    assert!(matches!(s, Search::Download(_)));
    let s = s.done(Ok(()));
    assert!(matches!(s, Search::MakeExecutable(_)));
    let s = s.done(Ok(()));
    assert!(matches!(s, Search::Cleanup(_)));
    assert_eq!(found(s.done(Ok(()))), ("ansible-vault-lsp-v0.1.0/ansible-vault-lsp".to_string(), true));
}

#[test]
fn releases_that_are_there_are_used() {
    let s = Search::LatestRelease.release_given(Os::Linux, Architecture::X8664, Ok(linux())).file_checked(true);
    assert_eq!(found(s), ("ansible-vault-lsp-v0.1.0/ansible-vault-lsp".to_string(), true));
}

#[test]
fn searches_fail() {
    let e = || Err("no".to_string());
    let there = || Search::LatestRelease.release_given(Os::Linux, Architecture::X8664, Ok(linux()));
    assert_eq!(failed(Search::LatestRelease.release_given(Os::Mac, Architecture::X8664, Err("no".to_string()))), "no");
    assert_eq!(failed(there().file_checked(false).done(e())), "no");
    assert_eq!(failed(there().file_checked(false).done(Ok(())).done(e())), "no");
    assert!(failed(Search::LatestRelease.release_given(Os::Mac, Architecture::X86, Ok(linux())))
        .starts_with("unsupported platform"));
    // An answer to another question changes nothing.
    assert_eq!(found(Search::Found { path: "p".to_string(), download: false }.done(e())), ("p".to_string(), false));
    assert!(matches!(Search::start().file_checked(true), Search::Settings));
}
