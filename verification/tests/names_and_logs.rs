use git_toprepo::error::AlreadyAMonorepo;
use git_toprepo::error::NotAMonorepo;
use git_toprepo::log::ErrorMode;
use git_toprepo::log::ErrorObserver;
use git_toprepo::log::InterruptedError;
use git_toprepo::log::LogAccumulator;
use git_toprepo::log::LogLevel;
use git_toprepo::log::Logger;
use git_toprepo::repo_name::RefNameError;
use git_toprepo::repo_name::RepoName;
use git_toprepo::repo_name::SubRepoName;

#[test]
fn repo_name_new_and_prefix() {
    assert_eq!(RepoName::new("top"), RepoName::Top);
    assert_eq!(
        RepoName::new("foo"),
        RepoName::SubRepo(SubRepoName::new("foo".to_owned()))
    );
    assert_eq!(RepoName::Top.to_ref_prefix(), "refs/namespaces/top/");
    assert_eq!(RepoName::new("a-b").to_ref_prefix(), "refs/namespaces/a-b/");
    assert_eq!(RepoName::new("foo").name(), "foo");
    assert_eq!(SubRepoName::new("bar".to_owned()).as_str(), "bar");
}

#[test]
fn repo_name_from_ref() {
    assert_eq!(
        RepoName::from_ref(b"refs/namespaces/top/refs/heads/main").unwrap(),
        RepoName::Top
    );
    assert_eq!(
        RepoName::from_ref(b"refs/namespaces/sub/x").unwrap(),
        RepoName::new("sub")
    );
    assert!(matches!(
        RepoName::from_ref(b"refs/heads/main"),
        Err(RefNameError::NotAToprepoRef { .. })
    ));
    assert!(matches!(
        RepoName::from_ref(b"refs/namespaces/sub"),
        Err(RefNameError::TooShortRef { .. })
    ));
    assert!(matches!(
        RepoName::from_ref(b"refs/namespaces/\xff/x"),
        Err(RefNameError::InvalidEncoding { .. })
    ));
}

#[test]
fn repo_name_ref_prefix_round_trip() {
    for name in ["top", "foo", "a_b"] {
        let n = RepoName::new(name);
        let r = n.to_ref_prefix() + "heads/main";
        assert_eq!(RepoName::from_ref(r.as_bytes()).unwrap(), n);
    }
}

#[test]
fn error_messages() {
    assert_eq!(NotAMonorepo::default().source, None);
    assert_eq!(NotAMonorepo::new("x".to_owned()).source, Some("x".to_owned()));
    assert_eq!(NotAMonorepo::default().message(), "Not a monorepo");
    assert_eq!(AlreadyAMonorepo.message(), "Already a monorepo");
}

#[test]
fn log_levels_and_context() {
    assert_eq!(LogLevel::Error.as_str(), "ERROR");
    assert_eq!(LogLevel::Warning.as_str(), "WARNING");
    assert_eq!(LogLevel::Info.as_str(), "INFO");
    assert_eq!(LogLevel::Trace.as_str(), "TRACE");
    let root = Logger::new();
    let mut acc = LogAccumulator::new();
    acc.receive(&root.warning("plain".to_owned()));
    let sub = root.with_context("repo").with_context("commit");
    let rec = sub.error("bad".to_owned());
    assert_eq!(rec.level, LogLevel::Error);
    assert_eq!(rec.context, ": repo: commit");
    assert_eq!(rec.render(), "repo: commit: bad");
    acc.receive(&rec);
    acc.receive(&root.info("i".to_owned()));
    acc.receive(&sub.trace("t".to_owned()));
    assert_eq!(
        acc.records,
        vec![
            (LogLevel::Warning, "plain".to_owned()),
            (LogLevel::Error, "repo: commit: bad".to_owned()),
            (LogLevel::Info, "i".to_owned()),
            (LogLevel::Trace, "repo: commit: t".to_owned()),
        ]
    );
}

#[test]
fn error_observer_counts() {
    let logger = Logger::new().with_context("ctx");
    let mut obs = ErrorObserver::new(ErrorMode::from_keep_going_flag(false));
    assert_eq!(obs.strategy, ErrorMode::FailFast);
    assert!(!obs.has_got_errors());
    assert!(!obs.should_interrupt());
    assert_eq!(obs.get_result(7), Ok(7));
    let (v, rec) = obs.consume(&logger, Ok::<i32, String>(3));
    assert_eq!(v, Some(3));
    assert!(rec.is_none());
    let (v, rec) = obs.consume::<i32>(&logger, Err("boom".to_owned()));
    assert_eq!(v, None);
    assert_eq!(rec.unwrap().render(), "ctx: boom");
    assert!(obs.has_got_errors());
    assert!(obs.should_interrupt());
    assert_eq!(obs.get_result(7), Err("1 error reported".to_owned()));
    let (r, rec) = obs.maybe_consume(&logger, Err("again".to_owned()));
    assert_eq!(r, Err("again".to_owned()));
    assert!(rec.is_none());
    assert!(obs
        .consume_interrupted(&logger, Err(InterruptedError::Interrupted))
        .is_none());
    let rec = obs.consume_interrupted(&logger, Err(InterruptedError::Normal("n".to_owned())));
    assert_eq!(rec.unwrap().message, "n");
    assert_eq!(obs.get_result(()), Err("3 errors reported".to_owned()));

    let mut keep = ErrorObserver::new(ErrorMode::from_keep_going_flag(true));
    assert_eq!(keep.strategy, ErrorMode::KeepGoing);
    let (r, rec) = keep.maybe_consume(&logger, Err("e".to_owned()));
    assert_eq!(r, Ok(()));
    assert_eq!(rec.unwrap().message, "e");
    assert!(keep.has_got_errors());
    assert!(!keep.should_interrupt());
    keep.counter = 12;
    assert_eq!(keep.get_result(0), Err("12 errors reported".to_owned()));
}

#[test]
fn interrupted_error_get_normal() {
    let e: InterruptedError<String> = InterruptedError::Normal("x".to_owned());
    assert_eq!(e.get_normal().ok(), Some("x".to_owned()));
    let e: InterruptedError<String> = InterruptedError::Interrupted;
    assert!(matches!(e.get_normal(), Err(InterruptedError::Interrupted)));
}

#[test]
fn repo_names_read_back_from_their_ref_prefix() {
    for name in ["top", "sub1", "caf\u{e9}-repo"] {
        let n = RepoName::new(name);
        let full = format!("{}heads/main", n.to_ref_prefix());
        assert_eq!(RepoName::from_ref(full.as_bytes()).unwrap(), n);
    }
}
