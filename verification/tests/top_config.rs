use git_toprepo::config::FetchConfig;
use git_toprepo::config::GetOrInsertOk;
use git_toprepo::config::GitTopRepoConfig;
use git_toprepo::config::PushConfig;
use git_toprepo::config::SubRepoConfig;
use git_toprepo::repo_name::RepoName;
use git_toprepo::repo_name::SubRepoName;

fn name(s: &str) -> SubRepoName {
    SubRepoName::new(s.to_owned())
}

fn subrepo(urls: &[&str]) -> SubRepoConfig {
    SubRepoConfig {
        urls: urls.iter().map(|u| u.to_string()).collect(),
        fetch: FetchConfig::default(),
        push: PushConfig::default(),
        enabled: true,
        skip_expanding: Vec::new(),
    }
}

fn config(entries: Vec<(&str, SubRepoConfig)>) -> GitTopRepoConfig {
    let mut c = GitTopRepoConfig::new();
    c.subrepos = entries.into_iter().map(|(n, s)| (name(n), s)).collect();
    c
}

#[test]
fn test_get_repo_with_new_entry() {
    let mut config = GitTopRepoConfig::new();
    assert_eq!(config.subrepos.len(), 0);
    assert_eq!(
        config.get_or_insert_from_url("ssh://bar/baz.git", "/baz.git").unwrap(),
        GetOrInsertOk::Missing(name("baz"))
    );
    assert!(config.subrepos.iter().any(|(n, _)| *n == name("baz")));
    // Second time, it should still report an error.
    assert_eq!(
        config.get_or_insert_from_url("ssh://bar/baz.git", "/baz.git").unwrap(),
        GetOrInsertOk::MissingAgain(name("baz"))
    );
    assert_eq!(config.subrepos.len(), 1);
    assert_eq!(config.subrepos[0].1.urls, vec!["ssh://bar/baz.git".to_owned()]);
    assert!(!config.subrepos[0].1.enabled);
}

#[test]
fn test_get_repo_without_new_entry() {
    let mut config = config(vec![("foo", subrepo(&["../bar/repo.git"]))]);
    assert!(config.validate().is_ok());
    assert!(config.subrepos.iter().any(|(n, _)| *n == name("foo")));
    assert_eq!(
        config.get_or_insert_from_url("https://example.com/foo.git", "/foo.git").unwrap(),
        GetOrInsertOk::Missing(name("foo"))
    );
    assert_eq!(config.subrepos.len(), 1);
    assert_eq!(
        config.subrepos[0].1.urls,
        vec!["../bar/repo.git".to_owned(), "https://example.com/foo.git".to_owned()]
    );
}

#[test]
fn test_config_with_duplicate_urls() {
    let config = config(vec![
        ("bar", subrepo(&["ssh://bar/baz.git"])),
        ("foo", subrepo(&["ssh://bar/baz.git"])),
    ]);
    assert_eq!(
        config.validate().unwrap_err(),
        "URLs must be unique across all repos, found ssh://bar/baz.git in bar and foo"
    );
}

#[test]
fn validate_reports_the_first_bad_subrepo() {
    let config = config(vec![("a", subrepo(&["x", "y"])), ("b", subrepo(&[]))]);
    assert_eq!(
        config.validate().unwrap_err(),
        "Invalid subrepo configuration for a: Either .fetch.url needs to be set or .urls must have exactly one element"
    );
    let mut disabled = subrepo(&["x", "y"]);
    disabled.enabled = false;
    assert!(super_config_ok(config_with(disabled)));
}

fn config_with(c: SubRepoConfig) -> GitTopRepoConfig {
    config(vec![("a", c)])
}

fn super_config_ok(c: GitTopRepoConfig) -> bool {
    c.validate().is_ok()
}

#[test]
fn same_url_twice_in_one_subrepo() {
    let mut c = subrepo(&["u", "u"]);
    c.fetch.url = Some("u".to_owned());
    assert_eq!(
        config_with(c).validate().unwrap_err(),
        "URLs must be unique across all repos, found u in a and a"
    );
}

#[test]
fn get_name_from_url_matches_exactly() {
    let config = config(vec![
        ("a", subrepo(&["https://h/a.git"])),
        ("b", subrepo(&["https://h/b.git", "https://h/shared.git"])),
        ("c", subrepo(&["https://h/shared.git"])),
    ]);
    assert_eq!(config.get_name_from_url("https://h/a.git"), Ok(Some(name("a"))));
    assert_eq!(config.get_name_from_url("https://h/a"), Ok(None));
    assert_eq!(
        config.get_name_from_url("https://h/shared.git"),
        Err("Multiple remote candidates for https://h/shared.git: b, c".to_owned())
    );
    let (n, c) = config.get_from_url("https://h/b.git").unwrap().unwrap();
    assert_eq!(n, name("b"));
    assert_eq!(c.urls.len(), 2);
    assert!(config.get_from_url("nowhere").unwrap().is_none());
}

#[test]
fn added_subrepos_keep_names_sorted_and_fold_case() {
    let mut config = config(vec![("Foo", subrepo(&["https://h/Foo.git"])), ("zed", subrepo(&["z"]))]);
    assert_eq!(
        config.get_or_insert_from_url("ssh://other/foo.git", "/foo.git").unwrap(),
        GetOrInsertOk::Missing(name("Foo"))
    );
    assert_eq!(config.subrepos.len(), 2);
    assert_eq!(
        config.get_or_insert_from_url("ssh://other/mid.git", "/mid.git").unwrap(),
        GetOrInsertOk::Missing(name("mid"))
    );
    let names: Vec<&str> = config.subrepos.iter().map(|(n, _)| n.as_str()).collect();
    assert_eq!(names, vec!["Foo", "mid", "zed"]);
    // A URL that was added for a missing subrepo is found, but still missing.
    assert_eq!(config.get_name_from_url("ssh://other/mid.git"), Ok(None));
    assert_eq!(
        config.get_or_insert_from_url("ssh://other/mid.git", "/mid.git").unwrap(),
        GetOrInsertOk::MissingAgain(name("mid"))
    );
    assert_eq!(config.get_or_insert_from_url("ssh://x/top.git", "/top.git").unwrap_err(),
        "URL ssh://x/top.git cannot be automatically converted to a valid repo name. Please create a manual config entry with the URL.");
    assert_eq!(
        config.get_or_insert_from_url("z", "z").unwrap(),
        GetOrInsertOk::Found(name("zed"))
    );
}

#[test]
fn is_enabled_by_configuration() {
    let mut off = subrepo(&["o"]);
    off.enabled = false;
    let config = config(vec![("off", off), ("on", subrepo(&["n"]))]);
    assert!(config.is_enabled(&RepoName::Top));
    assert!(config.is_enabled(&RepoName::SubRepo(name("on"))));
    assert!(!config.is_enabled(&RepoName::SubRepo(name("off"))));
    assert!(config.is_enabled(&RepoName::SubRepo(name("unknown"))));
}
