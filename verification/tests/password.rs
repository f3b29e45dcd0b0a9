use ansible_vault::config::parse_ansible_cfg;
use ansible_vault::password::{
    candidate_configs, expand_tilde, file_password, is_executable, password_source, resolve_relative, script_password,
    InitOptions, Location, PasswordSource,
};
use ansible_vault::resolution::{Ask, Found, Origin, Resolution, Resolved, Step};

fn show(l: &Location) -> String {
    match l {
        Location::Given(p) => format!("given {p}"),
        Location::InHome(p) => format!("home {p}"),
        Location::InAncestor { up, name } => format!("up {up} {name}"),
        Location::BesideConfig(p) => format!("beside {p}"),
    }
}

/// Answers a resolution from lists of files and configurations, and lists what
/// was asked.
fn run(
    options: &InitOptions,
    env_file: Option<&str>,
    configs: &[(&str, Option<&str>)],
    files: &[(&str, &str)],
) -> (Resolved, Vec<String>) {
    let names = configs.iter().map(|c| c.0.to_string()).collect();
    let mut r = Resolution::start(options, env_file, names);
    let mut asked = Vec::new();
    loop {
        match r.next_step() {
            Step::ReadPassword(Ask { origin, file }) => {
                asked.push(match origin {
                    Origin::Config(i) => format!("{file} of {i}"),
                    _ => file.clone(),
                });
                let found = files.iter().find(|f| f.0 == file).map(|f| Found {
                    password: f.1.to_string(),
                    path: format!("/real/{file}"),
                });
                r.password_read(found);
            }
            Step::ReadConfig(i) => {
                asked.push(format!("config {i}"));
                r.config_read(configs[i].1);
            }
            Step::Done => return (r.finish(), asked),
        }
    }
}

fn options(password: Option<&str>, password_file: Option<&str>) -> InitOptions {
    InitOptions {
        password: password.map(str::to_string),
        password_file: password_file.map(str::to_string),
        ..InitOptions::default()
    }
}

#[test]
fn default_options_are_empty() {
    let o = InitOptions::default();
    assert!(o.password.is_none() && o.password_file.is_none() && o.encrypt_vault_id.is_none());
    assert!(o.ansible_vault_path.is_none() && o.hover_preview.is_none());
    let r = Resolved::default();
    assert!(r.passwords.is_empty() && r.sources.is_empty() && r.literals.is_empty() && r.files.is_empty());
}

#[test]
fn tilde_means_home() {
    assert_eq!(show(&expand_tilde("~/a", true)), "home a");
    assert_eq!(show(&expand_tilde("~/a", false)), "given ~/a");
    assert_eq!(show(&expand_tilde("~a", true)), "given ~a");
    assert_eq!(show(&expand_tilde("/a", true)), "given /a");
    assert_eq!(show(&expand_tilde("", true)), "given ");
}

#[test]
fn relative_files_lie_beside_the_config() {
    assert_eq!(show(&resolve_relative("a", false)), "beside a");
    assert_eq!(show(&resolve_relative("/a", true)), "given /a");
}

#[test]
fn configs_are_looked_for_in_order() {
    let all = |e: Option<&str>, n: usize, h: bool| {
        candidate_configs(e, n, h).iter().map(show).collect::<Vec<String>>().join(", ")
    };
    assert_eq!(
        all(Some("~/my.cfg"), 2, true),
        "home my.cfg, up 0 ansible.cfg, up 1 ansible.cfg, home .ansible.cfg, given /etc/ansible/ansible.cfg"
    );
    assert_eq!(all(Some(""), 0, false), "given /etc/ansible/ansible.cfg");
    assert_eq!(all(None, 0, true), "home .ansible.cfg, given /etc/ansible/ansible.cfg");
}

#[test]
fn executables_are_run() {
    assert!(is_executable(0o755));
    assert!(is_executable(0o001));
    assert!(!is_executable(0o644));
    assert_eq!(password_source(false, Some(0o755)), PasswordSource::Missing);
    assert_eq!(password_source(true, Some(0o100)), PasswordSource::Script);
    assert_eq!(password_source(true, Some(0o644)), PasswordSource::Content);
    assert_eq!(password_source(true, None), PasswordSource::Content);
}

#[test]
fn passwords_in_files() {
    assert_eq!(file_password("pw\r\n\n").as_deref(), Some("pw"));
    assert_eq!(file_password(" p w ").as_deref(), Some(" p w "));
    assert_eq!(file_password("a\nb\n").as_deref(), Some("a\nb"));
    assert_eq!(file_password("\r\n"), None);
    assert_eq!(file_password(""), None);
}

#[test]
fn passwords_from_scripts() {
    assert_eq!(script_password(true, b"a\nb\n").as_deref(), Some("a\nb"));
    assert_eq!(script_password(true, b"\npw\r\n").as_deref(), Some("\npw"));
    assert_eq!(script_password(true, b"\r\n\n"), None);
    assert_eq!(script_password(true, b"pw\n").as_deref(), Some("pw"));
    assert_eq!(script_password(true, b"p\xffw\n").as_deref(), Some("p\u{fffd}w"));
    assert_eq!(script_password(false, b"pw\n"), None);
    assert_eq!(script_password(true, b""), None);
}

#[test]
fn configs_name_password_files() {
    let cfg = "\
vault_password_file = early
[other]
vault_password_file = no
[DeFaults]
# vault_password_file = comment
; vault_password_file = comment
 vault_password_file  =  one
unrelated = x
no equals sign
vault_identity_list = dev@two, , prod @ three@x ,four
[defaults] x
vault_password_file = no
[defaults]
vault_password_file = last=
";
    assert_eq!(parse_ansible_cfg(cfg).unwrap(), ["one", "two", "three@x", "four", "last="]);
    assert!(parse_ansible_cfg("").is_none());
    assert!(parse_ansible_cfg("[defaults]\nvault_identity_list = , ,\n").is_none());
    assert_eq!(parse_ansible_cfg("[defaults]\nvault_password_file =").unwrap(), [""]);
}

#[test]
fn passwords_come_in_order() {
    let (r, asked) = run(
        &options(Some("lit"), Some("opt")),
        Some("env"),
        &[("/a/ansible.cfg", Some("[defaults]\nvault_identity_list=x@c1,y@c2"))],
        &[("opt", "o"), ("env", "e"), ("c1", "1"), ("c2", "2")],
    );
    assert_eq!(r.passwords, ["lit", "o", "e", "1", "2"]);
    assert_eq!(
        r.sources,
        [
            "initialization_options.password",
            "initialization_options.passwordFile (opt)",
            "ANSIBLE_VAULT_PASSWORD_FILE (env)",
            "/a/ansible.cfg (c1)",
            "/a/ansible.cfg (c2)",
        ]
    );
    assert_eq!(r.literals, ["lit"]);
    assert_eq!(r.files, ["/real/opt", "/real/env", "/real/c1", "/real/c2"]);
    assert_eq!(asked, ["opt", "env", "config 0", "c1 of 0", "c2 of 0"]);
}

#[test]
fn first_config_with_a_password_decides() {
    let named = Some("[defaults]\nvault_password_file=f");
    let other = Some("[defaults]\nvault_password_file=g");
    let configs = [("a", None), ("b", Some("")), ("c", named), ("d", other), ("e", other)];
    // Nothing in `f`: the next configuration is looked at, and the one after that is not.
    let (r, asked) = run(&options(None, None), Some(""), &configs, &[("g", "pw")]);
    assert_eq!(r.passwords, ["pw"]);
    assert!(r.literals.is_empty());
    assert_eq!(asked, ["config 0", "config 1", "config 2", "f of 2", "config 3", "g of 3"]);
    // A password is known already: the first configuration that names files is the last.
    let (r, asked) = run(&options(Some("lit"), None), None, &configs, &[("g", "pw")]);
    assert_eq!(r.passwords, ["lit"]);
    assert_eq!(asked, ["config 0", "config 1", "config 2", "f of 2"]);
}

#[test]
fn repeated_passwords_are_dropped() {
    let (r, _) = run(
        &options(Some("a"), Some("f")),
        Some("g"),
        &[("c", Some("[defaults]\nvault_identity_list=h,i"))],
        &[("f", "a"), ("g", "b"), ("h", "b"), ("i", "a")],
    );
    assert_eq!(r.passwords, ["a", "b", "a"]);
    assert_eq!(r.sources.len(), 5);
    assert_eq!(r.files.len(), 4);
}

#[test]
fn nothing_is_found() {
    let (r, asked) = run(&options(None, Some("f")), Some("g"), &[], &[]);
    assert!(r.passwords.is_empty() && r.files.is_empty());
    assert_eq!(asked, ["f", "g"]);
}
