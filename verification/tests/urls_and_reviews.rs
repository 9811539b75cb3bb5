use git_toprepo::gitmodules::join_relative_url_paths;
use git_toprepo::gitmodules::SubmoduleUrl;
use git_toprepo::gitmodules::SubmoduleUrlExt;
use git_toprepo::gitmodules::UrlScheme;
use git_toprepo::gitreview::git_review_is_incomplete;
use git_toprepo::gitreview::parse_git_review;
use git_toprepo::gitreview::GitReviewError;

#[test]
fn join_relative_url_paths_examples() {
    assert_eq!(join_relative_url_paths("a/b", "c/d"), "a/b/c/d");
    assert_eq!(join_relative_url_paths("a/b", "./c/d"), "a/b/c/d");
    assert_eq!(join_relative_url_paths("a/b", "../c/d"), "a/c/d");
    assert_eq!(join_relative_url_paths("a/b", "../../c/d"), "c/d");
    assert_eq!(join_relative_url_paths("a/b", "../c/../d"), "a/c/../d");
    assert_eq!(join_relative_url_paths("a/b", "./."), "a/b");
    assert_eq!(join_relative_url_paths("a/b/c", "../.."), "a");
    assert_eq!(join_relative_url_paths("a/b/", "c/d"), "a/b/c/d");
    assert_eq!(join_relative_url_paths("a", "../c/d"), "c/d");
    assert_eq!(join_relative_url_paths("a", "../../c/d"), "../c/d");
    assert_eq!(join_relative_url_paths("./a", "../../c/d"), "./../c/d");
    assert_eq!(join_relative_url_paths("/../a", "../../c/d"), "/../../c/d");
    assert_eq!(join_relative_url_paths("/a/b", "../../../c/d"), "/../c/d");
    assert_eq!(join_relative_url_paths(r"a\b\c", "../d/e"), r"a\b\d/e");
    assert_eq!(join_relative_url_paths(r"C:\a", "../../c/d"), r"C:\../c/d");
}

#[test]
fn join_relative_url_paths_keeps_a_drive_letter() {
    assert_eq!(join_relative_url_paths(r"C:\a", ".."), r"C:\");
    assert_eq!(join_relative_url_paths("C:", "."), "C:");
    assert_eq!(join_relative_url_paths("", "x"), "x");
    assert_eq!(join_relative_url_paths("a", ""), "a");
}

fn url(scheme: UrlScheme, host: Option<&str>, path: &str) -> SubmoduleUrl {
    SubmoduleUrl {
        scheme,
        user: None,
        password: None,
        host: host.map(|h| h.to_owned()),
        port: None,
        path: path.as_bytes().to_vec(),
        serialize_alternative_form: false,
    }
}

#[test]
fn submodule_url_join() {
    let base = url(UrlScheme::Ssh, Some("github.com"), "/org/repo");
    let joined = base.join(&url(UrlScheme::File, None, "../foo"));
    assert!(matches!(joined.scheme, UrlScheme::Ssh));
    assert_eq!(joined.host.as_deref(), Some("github.com"));
    assert_eq!(joined.path, b"/org/foo".to_vec());

    let joined = base.join(&url(UrlScheme::File, None, "./"));
    assert_eq!(joined.path, b"/org/repo".to_vec());
    let joined = base.join(&url(UrlScheme::File, None, ".//foo"));
    assert_eq!(joined.path, b"/org/repo/foo".to_vec());
    let joined = base.join(&url(UrlScheme::File, None, "../../../foo"));
    assert_eq!(joined.path, b"/../foo".to_vec());

    // An absolute URL is taken as it is.
    let other = url(UrlScheme::Https, Some("github.com"), "/org/bar");
    let joined = base.join(&other);
    assert!(matches!(joined.scheme, UrlScheme::Https));
    assert_eq!(joined.path, b"/org/bar".to_vec());

    // A path that is not relative is taken as it is.
    let joined = url(UrlScheme::File, None, "parent").join(&url(UrlScheme::File, None, "/data/repo"));
    assert_eq!(joined.path, b"/data/repo".to_vec());
    let joined = url(UrlScheme::File, None, "/data/repo").join(&url(UrlScheme::File, None, "../other"));
    assert_eq!(joined.path, b"/data/other".to_vec());
}

#[test]
fn submodule_url_join_needs_utf8_paths() {
    let mut base = url(UrlScheme::Ssh, Some("h"), "/a");
    base.path = vec![0xff, b'/', b'a'];
    let joined = base.join(&url(UrlScheme::File, None, "../b"));
    assert_eq!(joined.path, b"../b".to_vec());
    assert!(matches!(joined.scheme, UrlScheme::File));
}

#[test]
fn parse_git_review_examples() {
    let x = "[gerrit]
   host=abc.gerrit.internal
   project=dir/project.git
";
    let r = parse_git_review(x).ok().unwrap();
    assert_eq!(r.project, "dir/project.git");
    assert_eq!(r.host, "abc.gerrit.internal");
    assert_eq!(r.port, None);
    let x = &(x.to_owned() + "port=22");
    let r = parse_git_review(x).ok().unwrap();
    assert_eq!(r.project, "dir/project.git");
    assert_eq!(r.host, "abc.gerrit.internal");
    assert_eq!(r.port, Some(22));
}

#[test]
fn parse_git_review_errors() {
    match parse_git_review("[gerrit]\nhost=h\nproject=p\nport=abc\n") {
        Err(GitReviewError::InvalidPort { value }) => assert_eq!(value, "abc"),
        _ => panic!("expected an invalid port"),
    }
    match parse_git_review("host=h\nproject=p\nnonsense\n") {
        Err(GitReviewError::UnparsableLine { line }) => assert_eq!(line, "nonsense"),
        _ => panic!("expected an unparsable line"),
    }
    // The section header must stand alone on its line.
    match parse_git_review("  [gerrit]\nhost=h\nproject=p\n") {
        Err(GitReviewError::UnparsableLine { line }) => assert_eq!(line, "  [gerrit]"),
        _ => panic!("expected an unparsable line"),
    }
    let r = parse_git_review("host=h\nproject=p\nport=-7\nhost=later").ok().unwrap();
    assert_eq!(r.host, "later");
    assert_eq!(r.port, Some(-7));
    assert!(matches!(
        parse_git_review("host=h\nproject=p\nport=2147483648\n"),
        Err(GitReviewError::InvalidPort { .. })
    ));
    assert_eq!(
        parse_git_review("host=h\nproject=p\nport=+2147483647\n").ok().unwrap().port,
        Some(2147483647)
    );
}

#[test]
fn incomplete_git_review_is_detected() {
    assert!(git_review_is_incomplete("[gerrit]\nhost=h\n"));
    assert!(git_review_is_incomplete("[gerrit]\nproject=p\n"));
    assert!(!git_review_is_incomplete("[gerrit]\nhost=h\nproject=p\n"));
    assert!(!git_review_is_incomplete("garbage\n"));
}
