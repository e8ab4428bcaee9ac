use strata::ssh::{
    discover_ssh_keys, key_files, ssh_config_identity_files, ssh_glob, ssh_hostname, Allowed, Auth,
    AuthStep,
};

fn host(url: &str) -> Option<String> {
    ssh_hostname(url)
}

#[test]
fn hosts_of_urls() {
    assert_eq!(host("git@github.com:org/repo.git"), Some("github.com".to_string()));
    assert_eq!(host("ssh://git@github.com/org/repo.git"), Some("github.com".to_string()));
    assert_eq!(host("ssh://github.com:2222/x"), Some("github.com".to_string()));
    assert_eq!(host("ssh://a@b@c/x"), Some("b@c".to_string()));
    assert_eq!(host("ssh://"), Some("".to_string()));
    assert_eq!(host("ssh://h"), Some("h".to_string()));
    assert_eq!(host("https://u@github.com:443/x"), None);
    assert_eq!(host("/local/path"), None);
    assert_eq!(host("user@host"), None);
    assert_eq!(host("host:path"), None);
    assert_eq!(host("host:p@q"), Some("q".to_string()));
}

fn glob(pat: &str, hay: &str) -> bool {
    ssh_glob(pat.as_bytes(), hay.as_bytes())
}

#[test]
fn host_patterns() {
    assert!(glob("*.github.com", "gist.github.com"));
    assert!(!glob("*.github.com", "github.com"));
    assert!(glob("git?ub.com", "github.com"));
    assert!(!glob("git?ub.com", "gitub.com"));
    assert!(glob("*", ""));
    assert!(!glob("?", ""));
    assert!(glob("", ""));
    assert!(!glob("", "x"));
    assert!(glob("a*b*c", "aXXbYYc"));
    assert!(!glob("a*b*c", "aXXcYYb"));
}

#[test]
fn a_star_stands_for_each_number_of_bytes() {
    for hay in ["", "x", "xy", "xyz"] {
        assert!(glob("*", hay));
        assert!(glob("**", hay));
        assert!(glob(&format!("*{hay}"), hay));
        assert!(glob(&format!("{hay}*"), hay));
    }
}

#[test]
fn case_does_not_count_in_hosts() {
    assert!(glob("GitHub.COM", "github.com"));
    assert!(glob("github.com", "GITHUB.com"));
    assert!(!glob("[", "{"));
    assert!(!glob("é", "É"));
}

#[test]
fn a_plain_pattern_matches_one_name() {
    assert!(glob("host", "host"));
    assert!(!glob("host", "hos"));
    assert!(!glob("host", "hosts"));
}

const CONFIG: &str = "
# keys
IdentityFile ~/.ssh/before
Host github.com *.example.org
    User git
    IdentityFile ~/.ssh/hub
\tIDENTITYFILE   /abs/~/key with space  \r
Host=weird
Host gitlab.com
    IdentityFile ~/.ssh/lab
Host *
IdentityFile
    identityfile ~/~x
";

#[test]
fn keys_that_the_configuration_names() {
    assert_eq!(
        ssh_config_identity_files(CONFIG, "github.com", "/home/u"),
        vec!["/home/u/.ssh/hub", "/abs//home/u/key with space", "/home/u/~x"]
    );
    assert_eq!(
        ssh_config_identity_files(CONFIG, "a.EXAMPLE.org", "/h"),
        vec!["/h/.ssh/hub", "/abs//h/key with space", "/h/~x"]
    );
    assert_eq!(
        ssh_config_identity_files(CONFIG, "gitlab.com", "/h"),
        vec!["/h/.ssh/lab", "/h/~x"]
    );
    assert_eq!(ssh_config_identity_files("", "x", "/h"), Vec::<String>::new());
    assert_eq!(
        ssh_config_identity_files("host x\nidentityfile k", "x", "/h"),
        vec!["k"]
    );
    assert_eq!(
        ssh_config_identity_files("#host x\nidentityfile k", "x", "/h"),
        Vec::<String>::new()
    );
}

#[test]
fn keys_in_the_directory() {
    let names: Vec<String> = ["id_rsa", "known_hosts", "id_ed25519", "id_rsa.pub", "config", "id_"]
        .iter()
        .map(|s| s.to_string())
        .collect();
    assert_eq!(discover_ssh_keys(&names), vec!["id_", "id_ed25519", "id_rsa"]);
    assert_eq!(
        discover_ssh_keys(&vec!["id_x.pub.bak".to_string(), "id_.pub".to_string()]),
        vec!["id_x.pub.bak"]
    );
}

fn list(names: &[&str]) -> Vec<String> {
    names.iter().map(|n| n.to_string()).collect()
}

#[test]
fn which_keys_are_tried() {
    assert_eq!(key_files(Some("k".to_string()), list(&["c"]), list(&["d"])), vec!["k"]);
    assert_eq!(key_files(None, list(&["c", "b"]), list(&["d", "e"])), vec!["c", "b", "d", "e"]);
    assert_eq!(key_files(None, list(&[]), list(&["d", "e"])), vec!["d", "e"]);
    assert_eq!(key_files(None, list(&["c"]), list(&[])), vec!["c"]);
    assert_eq!(key_files(None, list(&[]), list(&[])), Vec::<String>::new());
}

#[test]
fn keys_need_not_be_texts() {
    let path = |n: &str| std::path::PathBuf::from(n);
    assert_eq!(key_files(Some(path("k")), vec![path("c")], vec![path("d")]), vec![path("k")]);
    assert_eq!(key_files(None, vec![path("c")], vec![path("d")]), vec![path("c"), path("d")]);
}

#[test]
fn configured_keys_come_before_those_of_the_directory() {
    let keys = key_files(
        None,
        ssh_config_identity_files(CONFIG, "gitlab.com", "/h"),
        discover_ssh_keys(&list(&["id_rsa", "id_ed25519"])),
    );
    let mut auth = Auth::new("git@gitlab.com:x", false, keys.len());
    let mut tried: Vec<String> = Vec::new();
    loop {
        match auth.next(SSH) {
            AuthStep::Agent => tried.push("agent".to_string()),
            AuthStep::Key(place) => tried.push(keys[place].clone()),
            other => {
                assert_eq!(other, AuthStep::Exhausted);
                break;
            }
        }
    }
    assert_eq!(tried, vec!["agent", "/h/.ssh/lab", "/h/~x", "id_ed25519", "id_rsa"]);
    assert_eq!(auth.next(SSH), AuthStep::Exhausted);
}

const SSH: Allowed = Allowed { ssh_key: true, default: false, user_pass: false };
const PLAIN: Allowed = Allowed { ssh_key: false, default: false, user_pass: true };

#[test]
fn the_agent_comes_once_and_before_the_keys() {
    let mut auth = Auth::new("git@h:x", false, 2);
    let steps: Vec<AuthStep> = (0..5).map(|_| auth.next(SSH)).collect();
    assert_eq!(
        steps,
        vec![
            AuthStep::Agent,
            AuthStep::Key(0),
            AuthStep::Key(1),
            AuthStep::Exhausted,
            AuthStep::Exhausted
        ]
    );
}

#[test]
fn an_explicit_key_leaves_the_agent_out() {
    let mut auth = Auth::new("git@h:x", true, 1);
    assert_eq!(auth.next(SSH), AuthStep::Key(0));
    assert_eq!(auth.next(SSH), AuthStep::Exhausted);
}

#[test]
fn anonymous_is_tried_once() {
    let mut auth = Auth::new("https://h/x", false, 0);
    assert_eq!(auth.next(PLAIN), AuthStep::Anonymous);
    assert_eq!(auth.next(PLAIN), AuthStep::Refused);
    assert_eq!(auth.next(PLAIN), AuthStep::Refused);
}

#[test]
fn default_credentials_come_before_anonymous() {
    let mut auth = Auth::new("https://h/x", false, 0);
    let both = Allowed { ssh_key: false, default: true, user_pass: true };
    assert_eq!(auth.next(both), AuthStep::Default);
    assert_eq!(auth.next(both), AuthStep::Default);
    let none = Allowed { ssh_key: false, default: false, user_pass: false };
    assert_eq!(auth.next(none), AuthStep::Exhausted);
}

#[test]
fn the_search_comes_to_an_end() {
    let mut auth = Auth::new("git@h:x", false, 3);
    let all = Allowed { ssh_key: true, default: false, user_pass: true };
    let mut tried: usize = 0;
    loop {
        match auth.next(all) {
            AuthStep::Refused | AuthStep::Exhausted => break,
            _ => tried += 1,
        }
        assert!(tried <= 5);
    }
    assert_eq!(tried, 5);
}

#[test]
fn what_is_said_at_the_end() {
    let auth = Auth::new("git@h:x", false, 0);
    assert_eq!(
        auth.message(false),
        "authentication exhausted — use --key <path> to specify an SSH key, or load it into ssh-agent"
    );
    let auth = Auth::new("git@h:x", true, 1);
    assert_eq!(
        auth.message(false),
        "authentication exhausted — check the key path and permissions"
    );
    let auth = Auth::new("http://h/x", false, 0);
    assert_eq!(
        auth.message(false),
        "authentication exhausted — HTTPS authentication failed — use a credential helper or set GIT_ASKPASS"
    );
    assert_eq!(
        auth.message(true),
        "HTTPS authentication failed — use a credential helper or set GIT_ASKPASS"
    );
}
