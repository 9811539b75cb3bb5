use git_toprepo::cli::parse_refspec;
use git_toprepo::cli::Commands;
use git_toprepo::cli::GitAndCommands;
use git_toprepo::cli::Info;
use git_toprepo::cli::InfoValue;
use git_toprepo::cli::LevelFilter;
use git_toprepo::cli::LogLevelArg;
use git_toprepo::config::checksum_hex;
use git_toprepo::config::config_checksum;
use git_toprepo::config::default_name_from_url;
use git_toprepo::config::ConfigLocation;
use git_toprepo::config::ConfigLocationError;
use git_toprepo::config::FetchConfig;
use git_toprepo::config::PushConfig;
use git_toprepo::config::SubRepoConfig;
use git_toprepo::push::rewrite_push_message;
use git_toprepo::repo_name::SubRepoName;
use git_toprepo::util::annotate_message;
use git_toprepo::util::normalize;
use git_toprepo::util::single_unique;
use git_toprepo::util::strip_suffix;
use git_toprepo::util::trim_bytes_newline_suffix;
use git_toprepo::util::trim_newline_suffix;
use git_toprepo::util::IterSingleUnique;
use git_toprepo::util::UniqueContainer;

#[test]
fn single_unique_examples() {
    assert_eq!(Vec::<i32>::new().single_unique(), None);
    assert_eq!(vec![1].single_unique(), Some(1));
    assert_eq!(vec![1, 1, 1].single_unique(), Some(1));
    assert_eq!(vec![1, 2, 1].single_unique(), None);
    assert_eq!(single_unique(vec!["a", "a"]), Some("a"));
}

#[test]
fn unique_container_example() {
    let mut container = UniqueContainer::Empty;
    container.insert(1);
    assert_eq!(container, UniqueContainer::Single(1));
    container.insert(1);
    assert_eq!(container, UniqueContainer::Single(1));
    container.insert(2);
    assert_eq!(container, UniqueContainer::Multiple);
    container.insert(1);
    assert_eq!(container, UniqueContainer::Multiple);
    container.insert(3);
    assert_eq!(container, UniqueContainer::Multiple);
    assert_eq!(UniqueContainer::<i32>::new(), UniqueContainer::Empty);
}

#[test]
fn normalize_examples() {
    assert_eq!(normalize("A/b/../C"), "A/C");
    assert_eq!(normalize("B/D"), "B/D");
    assert_eq!(normalize("E//./F"), "E/F");
}

#[test]
fn trim_newline_suffix_examples() {
    assert_eq!(trim_newline_suffix("foo"), "foo");
    assert_eq!(trim_newline_suffix("foo\n"), "foo");
    assert_eq!(trim_newline_suffix("foo\r\n"), "foo");
    assert_eq!(trim_newline_suffix("foo\nbar\n"), "foo\nbar");
    assert_eq!(trim_newline_suffix("foo\r\nbar\r\n"), "foo\r\nbar");
    assert_eq!(trim_newline_suffix("foo\n\r"), "foo\n\r");
    assert_eq!(trim_bytes_newline_suffix(b"foo"), b"foo");
    assert_eq!(trim_bytes_newline_suffix(b"foo\n"), b"foo");
    assert_eq!(trim_bytes_newline_suffix(b"foo\r\n"), b"foo");
    assert_eq!(trim_bytes_newline_suffix(b"foo\nbar\n"), b"foo\nbar");
    assert_eq!(trim_bytes_newline_suffix(b"foo\r\nbar\r\n"), b"foo\r\nbar");
    assert_eq!(trim_bytes_newline_suffix(b"foo\n\r"), b"foo\n\r");
    assert_eq!(trim_bytes_newline_suffix("\u{e9}\n".as_bytes()), "\u{e9}".as_bytes());
    assert_eq!(trim_bytes_newline_suffix("\u{e9}\r\n".as_bytes()), "\u{e9}".as_bytes());
}

#[test]
fn strip_suffix_only_removes_a_present_suffix() {
    assert_eq!(strip_suffix("repo.git", ".git"), "repo");
    assert_eq!(strip_suffix("repo", ".git"), "repo");
}

#[test]
fn test_annotate_message() {
    let commit_id = "0123456789abcdef0123456789abcdef01234567";
    assert_eq!(
        annotate_message("Subject line\n", "sub/dir", commit_id),
        "\
Subject line

^-- sub/dir 0123456789abcdef0123456789abcdef01234567
"
    );
    assert_eq!(
        annotate_message("Subject line, no LF", "sub/dir", commit_id),
        "\
Subject line, no LF

^-- sub/dir 0123456789abcdef0123456789abcdef01234567
"
    );
    assert_eq!(
        annotate_message("Double subject line\n", "sub/dir", commit_id),
        "\
Double subject line

^-- sub/dir 0123456789abcdef0123456789abcdef01234567
"
    );
    assert_eq!(
        annotate_message("Subject line, extra LFs\n\n\n", "sub/dir", commit_id),
        "\
Subject line, extra LFs

^-- sub/dir 0123456789abcdef0123456789abcdef01234567
",
    );
    assert_eq!(
        annotate_message("Multi line\n\nmessage\n", "sub/dir", commit_id),
        "\
Multi line

message
^-- sub/dir 0123456789abcdef0123456789abcdef01234567
",
    );
    assert_eq!(
        annotate_message("Multi line\n\nmessage, no LF", "sub/dir", commit_id),
        "\
Multi line

message, no LF
^-- sub/dir 0123456789abcdef0123456789abcdef01234567
",
    );
    assert_eq!(
        annotate_message("Multi line\n\nmessage, extra LFs\n\n\n", "sub/dir", commit_id),
        "\
Multi line

message, extra LFs
^-- sub/dir 0123456789abcdef0123456789abcdef01234567
",
    );
}

#[test]
fn config_location_parse_and_text() {
    let loc = ConfigLocation::parse("repo:refs/remotes/origin/HEAD:.gittoprepo.toml").unwrap();
    assert_eq!(
        loc,
        ConfigLocation::RepoBlob {
            gitref: "refs/remotes/origin/HEAD".to_owned(),
            path: ".gittoprepo.toml".to_owned()
        }
    );
    assert_eq!(loc.to_text(), "ref:refs/remotes/origin/HEAD:.gittoprepo.toml");
    assert_eq!(ConfigLocation::parse("ref:refs/remotes/origin/HEAD:.gittoprepo.toml").unwrap(), loc);
    assert_eq!(loc.existence_target(), "refs/remotes/origin/HEAD:.gittoprepo.toml");
    let loc = ConfigLocation::parse("worktree:foobar.toml").unwrap();
    assert_eq!(loc, ConfigLocation::Worktree { path: "foobar.toml".to_owned() });
    assert_eq!(loc.to_text(), "worktree:foobar.toml");
    let loc = ConfigLocation::parse("local:a:b").unwrap();
    assert_eq!(loc, ConfigLocation::Local { path: "a:b".to_owned() });
    assert_eq!(
        ConfigLocation::parse("repo:nocolon"),
        Err(ConfigLocationError::InvalidRepoLocation { location: "repo:nocolon".to_owned() })
    );
    assert_eq!(
        ConfigLocation::parse("ref:nocolon"),
        Err(ConfigLocationError::InvalidRepoLocation { location: "ref:nocolon".to_owned() })
    );
    assert_eq!(
        ConfigLocation::parse("blob:x:y"),
        Err(ConfigLocationError::InvalidLocation { location: "blob:x:y".to_owned() })
    );
}

#[test]
fn default_names_from_urls() {
    let name = |p: &str| default_name_from_url(p).map(|n| n.as_str().to_owned());
    assert_eq!(name("../foo/bar.git"), Some("foo_bar".to_owned()));
    assert_eq!(name("/org/repo/"), Some("org_repo".to_owned()));
    assert_eq!(name("./../a"), Some("a".to_owned()));
    assert_eq!(name("../top.git"), None);
    assert_eq!(name("x.git/"), Some("x.git".to_owned()));
}

fn subrepo(urls: &[&str], fetch_url: Option<&str>, enabled: bool) -> SubRepoConfig {
    SubRepoConfig {
        urls: urls.iter().map(|s| s.to_string()).collect(),
        fetch: FetchConfig { url: fetch_url.map(|s| s.to_owned()), ..FetchConfig::default() },
        push: PushConfig::default(),
        enabled,
        skip_expanding: Vec::new(),
    }
}

#[test]
fn subrepo_config_validation() {
    assert!(subrepo(&["a"], None, true).validate().is_ok());
    assert!(subrepo(&[], Some("f"), true).validate().is_ok());
    assert!(subrepo(&["a", "b"], None, false).validate().is_ok());
    assert_eq!(
        subrepo(&["a", "b"], None, true).validate(),
        Err("Either .fetch.url needs to be set or .urls must have exactly one element".to_owned())
    );
    assert!(subrepo(&[], None, false).validate().is_err());
    assert_eq!(subrepo(&["a"], None, true).resolve_fetch_url(), "a");
    assert_eq!(subrepo(&["a"], Some("f"), true).resolve_fetch_url(), "f");
    let mut c = subrepo(&["a"], None, true);
    assert_eq!(c.resolve_push_url(), "a");
    c.push.url = Some("p".to_owned());
    assert_eq!(c.resolve_push_url(), "p");
    assert!(FetchConfig::default().prune);
    let _ = SubRepoName::new("x".to_owned());
}

#[test]
fn log_level_values() {
    let arg = |verbose_increment: u8, verbosity: u8, quiet: bool| LogLevelArg {
        verbose_increment,
        verbosity,
        quiet,
    };
    assert_eq!(arg(0, 3, false).value(), Ok(LevelFilter::Info));
    assert_eq!(arg(2, 3, false).value(), Ok(LevelFilter::Trace));
    assert_eq!(arg(1, 0, false).value(), Ok(LevelFilter::Error));
    assert_eq!(arg(9, 3, true).value(), Ok(LevelFilter::Off));
    assert_eq!(
        arg(3, 3, false).value(),
        Err("Too high verbosity level 6, maximum is 5".to_owned())
    );
}

#[test]
fn refspecs() {
    assert_eq!(
        parse_refspec("HEAD:main"),
        Ok(("HEAD".to_owned(), "refs/heads/main".to_owned()))
    );
    assert_eq!(
        parse_refspec("HEAD:refs/for/main"),
        Ok(("HEAD".to_owned(), "refs/for/main".to_owned()))
    );
    assert_eq!(
        parse_refspec("refs/heads/x"),
        Ok(("+refs/heads/x".to_owned(), "FETCH_HEAD".to_owned()))
    );
    assert_eq!(
        parse_refspec("+refs/heads/x"),
        Ok(("+refs/heads/x".to_owned(), "FETCH_HEAD".to_owned()))
    );
    assert!(parse_refspec("a:b:c").is_err());
}

#[test]
fn commands_and_info_values() {
    let c = GitAndCommands::Git(Commands::Version);
    assert!(matches!(c.actual(), Commands::Version));
    let c = GitAndCommands::Command(Commands::Version);
    assert!(matches!(c.actual(), Commands::Version));
    assert_eq!(Info::EXIT_CODE_FALSE, 3);
    let names: Vec<&str> = InfoValue::all_variants().iter().map(|v| v.as_str()).collect();
    assert_eq!(
        names,
        vec![
            "config-location",
            "current-worktree",
            "git-dir",
            "import-cache",
            "main-worktree",
            "version"
        ]
    );
}

#[test]
fn push_message_rewriting() {
    assert_eq!(
        rewrite_push_message("Subject\n\nTopic: something\n"),
        ("Subject\n".to_owned(), Some("something".to_owned()))
    );
    assert_eq!(
        rewrite_push_message("Subject\n\nBody\n^-- sub/dir 0123\nTopic: a\nTopic: b"),
        ("Subject\n\nBody\n".to_owned(), Some("b".to_owned()))
    );
    assert_eq!(
        rewrite_push_message("Only subject"),
        ("Only subject\n".to_owned(), None)
    );
    assert_eq!(rewrite_push_message(""), ("".to_owned(), None));
}

#[test]
fn config_checksum_of_empty_and_abc() {
    assert_eq!(
        config_checksum(""),
        "e3b0c44298fc1c149afbf4c8996fb92427ae41e4649b934ca495991b7852b855"
    );
    assert_eq!(
        config_checksum("abc"),
        "ba7816bf8f01cfea414140de5dae2223b00361a396177a9cb410ff61f20015ad"
    );
}

#[test]
fn checksum_hex_is_lowercase_two_digits_per_byte() {
    assert_eq!(checksum_hex(&[0x00, 0xab, 0x0f, 0xff]), "00ab0fff");
    assert_eq!(checksum_hex(&[]), "");
}

#[test]
fn normalizing_twice_changes_nothing() {
    for p in ["a/./b/../c", "../x//y/.", "", "/", "a/..", "./.././a"] {
        let once = normalize(p);
        assert_eq!(normalize(&once), once);
        if !once.is_empty() {
            for part in once.split('/') {
                assert!(!part.is_empty() && part != "." && part != "..");
            }
        }
    }
    assert_eq!(normalize("a/./b/../c"), "a/c");
}

#[test]
fn unique_container_agrees_with_single_unique() {
    for items in [vec![], vec![3], vec![3, 3], vec![3, 4, 3]] {
        let mut container = UniqueContainer::Empty;
        for i in items.iter() {
            container.insert(*i);
        }
        let single = match container {
            UniqueContainer::Single(x) => Some(x),
            _ => None,
        };
        assert_eq!(single, single_unique(items.clone()));
    }
}
