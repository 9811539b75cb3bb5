use git_toprepo::fetch::detail_refspecs;
use git_toprepo::fetch::DetailedFetchRefspec;
use git_toprepo::fetch::FetchDestinationRef;
use git_toprepo::repo_name::SubRepoName;
use git_toprepo::config::FetchConfig;
use git_toprepo::config::PushConfig;
use git_toprepo::config::SubRepoConfig;
use git_toprepo::fetch::FetchParams;
use git_toprepo::fetch::RemoteFetcher;
use git_toprepo::git::git_config_get_value;
use git_toprepo::git::GitConfigGetError;
use git_toprepo::submitted_together::VecInto;
use git_toprepo::util::is_default;
use git_toprepo::repo_name::RepoName;

fn subrepo_with(depth: i32, prune: bool) -> SubRepoConfig {
    SubRepoConfig {
        urls: vec!["../sub.git".to_owned()],
        fetch: FetchConfig { prune, depth, url: None },
        push: PushConfig::default(),
        enabled: true,
        skip_expanding: Vec::new(),
    }
}

#[test]
fn fetcher_starts_empty() {
    let f = RemoteFetcher::new("/repo/.git".to_owned());
    assert_eq!(f.git_dir, "/repo/.git");
    assert!(f.args.is_empty());
    assert_eq!(f.remote, None);
    assert!(f.refspecs.is_empty());
}

#[test]
fn top_repo_fetch_uses_default_remote_or_origin() {
    let mut f = RemoteFetcher::new("/repo/.git".to_owned());
    f.set_remote_as_top_repo(None);
    assert_eq!(f.remote.as_deref(), Some("origin"));
    assert_eq!(f.args, vec!["--prune".to_owned()]);

    let mut g = RemoteFetcher::new("/repo/.git".to_owned());
    g.set_remote_as_top_repo(Some("upstream".to_owned()));
    assert_eq!(g.remote.as_deref(), Some("upstream"));
    assert_eq!(
        g.command_args(),
        vec![
            "-C",
            "/repo/.git",
            "fetch",
            "--progress",
            "--no-tags",
            "--no-recurse-submodules",
            "--no-auto-maintenance",
            "--no-write-commit-graph",
            "--no-write-fetch-head",
            "--prune",
            "upstream",
        ]
    );
}

#[test]
fn subrepo_fetch_goes_into_its_namespace() {
    let mut f = RemoteFetcher::new("/repo/.git".to_owned());
    f.set_remote_from_subrepo_config(
        "https://example.com/sub.git".to_owned(),
        &RepoName::new("sub"),
        &subrepo_with(5, true),
    );
    assert_eq!(f.remote.as_deref(), Some("https://example.com/sub.git"));
    assert_eq!(
        f.args,
        vec!["--negotiation-tip=refs/namespaces/sub/*", "--depth=5", "--prune"]
    );
    assert_eq!(
        f.refspecs,
        vec![
            "+refs/heads/*:refs/namespaces/sub/refs/heads/*",
            "+refs/tags/*:refs/namespaces/sub/refs/tags/*",
        ]
    );
    assert_eq!(
        f.command_args()[9..].to_vec(),
        vec![
            "--negotiation-tip=refs/namespaces/sub/*",
            "--depth=5",
            "--prune",
            "https://example.com/sub.git",
            "+refs/heads/*:refs/namespaces/sub/refs/heads/*",
            "+refs/tags/*:refs/namespaces/sub/refs/tags/*",
        ]
    );
}

#[test]
fn subrepo_fetch_without_depth_or_prune() {
    let mut f = RemoteFetcher::new("g".to_owned());
    f.set_remote_from_subrepo_config("u".to_owned(), &RepoName::new("a/b"), &subrepo_with(0, false));
    assert_eq!(f.args, vec!["--negotiation-tip=refs/namespaces/a/b/*"]);
    let mut g = RemoteFetcher::new("g".to_owned());
    g.set_remote_from_subrepo_config("u".to_owned(), &RepoName::new("x"), &subrepo_with(-3, false));
    assert_eq!(g.args, vec!["--negotiation-tip=refs/namespaces/x/*", "--depth=-3"]);
}

#[test]
fn config_with_urls_filled_in() {
    let c = subrepo_with(2, false);
    let fetch = c.get_fetch_config_with_url();
    assert_eq!(fetch, FetchConfig { prune: false, depth: 2, url: Some("../sub.git".to_owned()) });
    let push = c.get_push_config_with_url();
    assert_eq!(push.url.as_deref(), Some("../sub.git"));
    let mut d = subrepo_with(0, true);
    d.push.url = Some("ssh://push/sub".to_owned());
    d.fetch.url = Some("https://fetch/sub".to_owned());
    assert_eq!(d.get_push_config_with_url().url.as_deref(), Some("ssh://push/sub"));
    assert_eq!(d.get_fetch_config_with_url().url.as_deref(), Some("https://fetch/sub"));
}

#[test]
fn fetch_params_compare_by_value() {
    let a = FetchParams::Custom {
        remote: "origin".to_owned(),
        refspec: ("refs/heads/main".to_owned(), "refs/heads/main".to_owned()),
    };
    assert_eq!(a.clone(), a);
    assert_ne!(a, FetchParams::Default);
}

#[test]
fn git_config_get_value_from_exit_code_and_output() {
    assert_eq!(git_config_get_value(Some(1), b"", b""), Ok(None));
    assert_eq!(git_config_get_value(Some(0), b"value\n", b""), Ok(Some("value".to_owned())));
    assert_eq!(git_config_get_value(Some(0), b"a b\r\n", b""), Ok(Some("a b".to_owned())));
    assert_eq!(git_config_get_value(Some(0), b"x", b""), Ok(Some("x".to_owned())));
    assert_eq!(
        git_config_get_value(Some(128), b"oops", b"fatal: bad config"),
        Err(GitConfigGetError::Failed { exit_code: Some(128), stderr: b"fatal: bad config".to_vec() })
    );
    assert_eq!(
        git_config_get_value(None, b"", b""),
        Err(GitConfigGetError::Failed { exit_code: None, stderr: vec![] })
    );
    assert_eq!(git_config_get_value(Some(0), &[0xff, b'\n'], b""), Err(GitConfigGetError::InvalidUtf8));
}

#[test]
fn vec_into_and_is_default() {
    let v: Vec<u32> = vec![1u8, 2, 255].vec_into();
    assert_eq!(v, vec![1u32, 2, 255]);
    let empty: Vec<i64> = Vec::<i32>::new().vec_into();
    assert!(empty.is_empty());
    assert!(is_default(&0i32));
    assert!(!is_default(&5i32));
    assert!(is_default(&String::new()));
    assert!(!is_default(&"x".to_owned()));
}

#[test]
fn refspecs_are_spelled_out() {
    let refspecs = vec![
        ("+refs/heads/main".to_owned(), "FETCH_HEAD".to_owned()),
        ("refs/heads/x".to_owned(), "refs/heads/y".to_owned()),
    ];
    let details = detail_refspecs(&refspecs, &RepoName::Top, "ssh://h/top.git").unwrap();
    assert_eq!(
        details,
        vec![
            DetailedFetchRefspec {
                force: true,
                remote_ref: "refs/heads/main".to_owned(),
                unfiltered_ref: "refs/namespaces/top/refs/fetch-heads/0".to_owned(),
                destination: FetchDestinationRef::FetchHead {
                    filtered_ref: "refs/fetch-heads/0".to_owned(),
                    description_suffix: "\t\trefs/heads/main of ssh://h/top.git".to_owned(),
                },
            },
            DetailedFetchRefspec {
                force: false,
                remote_ref: "refs/heads/x".to_owned(),
                unfiltered_ref: "refs/namespaces/top/refs/heads/y".to_owned(),
                destination: FetchDestinationRef::Normal("refs/heads/y".to_owned()),
            },
        ]
    );
}

#[test]
fn bad_local_ref_is_refused() {
    let refspecs = vec![
        ("a".to_owned(), "refs/heads/ok".to_owned()),
        ("b".to_owned(), "refs/heads/bad..name".to_owned()),
        ("c".to_owned(), "refs/heads/also bad".to_owned()),
    ];
    let sub = RepoName::SubRepo(SubRepoName::new("sub".to_owned()));
    let err = detail_refspecs(&refspecs, &sub, "u").unwrap_err();
    assert_eq!(err.local_ref, "refs/heads/bad..name");
}
