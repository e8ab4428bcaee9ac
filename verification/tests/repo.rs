use strata::repo::{
    clone_dir_name, fnv1a_u32, is_http_url, next_repo_step, repo_name, RepoStage, RepoStep,
};

#[test]
fn hashes() {
    assert_eq!(fnv1a_u32(""), 0x811c9dc5);
    assert_eq!(fnv1a_u32("a"), 0xe40c292c);
    assert_eq!(fnv1a_u32("foobar"), 0xbf9cf968);
    assert_eq!(fnv1a_u32("é"), {
        let mut h: u32 = 2166136261;
        for b in "é".bytes() {
            h ^= b as u32;
            h = h.wrapping_mul(16777619);
        }
        h
    });
}

#[test]
fn names_of_repositories() {
    assert_eq!(repo_name("https://github.com/org/repo.git"), "repo");
    assert_eq!(repo_name("https://github.com/org/repo"), "repo");
    assert_eq!(repo_name("git@github.com:org/repo.git"), "repo");
    assert_eq!(repo_name("/path/to/repo///"), "repo");
    assert_eq!(repo_name("repo.git.git"), "repo");
    assert_eq!(repo_name("git@host:repo"), "git@host:repo");
    assert_eq!(repo_name(""), "");
    assert_eq!(repo_name("/"), "");
    assert_eq!(repo_name("a/.git"), "");
    assert_eq!(repo_name("a/.git/"), "");
}

#[test]
fn endings_make_no_other_name() {
    for url in ["x", "a/b", "https://h/p/q", ""] {
        assert_eq!(repo_name(&format!("{url}/")), repo_name(url));
        assert_eq!(repo_name(&format!("{url}.git")), repo_name(url));
    }
    assert_ne!(repo_name("a/.git"), repo_name("a/"));
}

#[test]
fn a_name_is_one_part_of_a_path() {
    for url in ["a/b/c", "/", "//x//", "ssh://u@h:22/p.git"] {
        assert!(!repo_name(url).contains('/'));
    }
}

#[test]
fn directories_of_clones() {
    assert_eq!(clone_dir_name("foobar"), "foobar-bf9cf968");
    assert_eq!(
        clone_dir_name("https://h/x.git"),
        format!("x-{:08x}", fnv1a_u32("https://h/x.git"))
    );
    assert_ne!(clone_dir_name("https://a/x"), clone_dir_name("https://b/x"));
}

#[test]
fn http_urls() {
    assert!(is_http_url("http://x"));
    assert!(is_http_url("https://x"));
    assert!(!is_http_url("HTTPS://x"));
    assert!(!is_http_url("ssh://x"));
    assert!(!is_http_url("git@x:y"));
}

#[test]
fn steps_to_a_repository() {
    let ssh = "git@h:x";
    let web = "https://h/x";
    assert!(matches!(next_repo_step(ssh, RepoStage::Start), RepoStep::LookLocal));
    assert!(matches!(next_repo_step(ssh, RepoStage::Local(true)), RepoStep::UseLocal));
    assert!(matches!(next_repo_step(ssh, RepoStage::Local(false)), RepoStep::LookForClone));
    let none = RepoStage::Clone { exists: false, empty: None };
    assert!(matches!(next_repo_step(ssh, none), RepoStep::CloneWithLibrary));
    assert!(matches!(next_repo_step(web, none), RepoStep::CloneWithGit));
    let good = RepoStage::Clone { exists: true, empty: Some(false) };
    assert!(matches!(next_repo_step(web, good), RepoStep::UseClone));
    let empty = RepoStage::Clone { exists: true, empty: Some(true) };
    assert!(matches!(next_repo_step(web, empty), RepoStep::RemoveClone));
    let broken = RepoStage::Clone { exists: true, empty: None };
    assert!(matches!(next_repo_step(web, broken), RepoStep::RemoveClone));
    assert!(matches!(next_repo_step(web, RepoStage::Removed), RepoStep::CloneWithGit));
    assert!(matches!(next_repo_step(ssh, RepoStage::Removed), RepoStep::CloneWithLibrary));
}
