use git_toprepo::loader::CommitLoader;
use git_toprepo::loader::LoadOutcome;
use git_toprepo::loader::LoadRepoState;
use git_toprepo::loader::LoaderStep;
use git_toprepo::loader::NeedOutcome;
use git_toprepo::loader::RepoFetcherState;
use git_toprepo::repo_name::RepoName;
use git_toprepo::repo_name::SubRepoName;

fn sub(name: &str) -> RepoName {
    RepoName::SubRepo(SubRepoName::new(name.to_owned()))
}

#[test]
fn fetch_then_load_then_finish() {
    let mut l = CommitLoader::new(2);
    assert_eq!(l.add_repo(RepoName::Top, true), 0);
    assert_eq!(l.add_repo(sub("off"), false), 1);
    assert!(l.fetch_repo(0));
    assert!(!l.fetch_repo(1));
    assert_eq!(l.repo(1).fetch_state, RepoFetcherState::Idle);
    assert_eq!(l.next_step(false), LoaderStep::StartFetch(0));
    assert_eq!(l.repo(0).fetch_state, RepoFetcherState::InProgress);
    assert_eq!(l.next_step(false), LoaderStep::HandleEvent);
    l.finish_fetch_repo_job(0, true);
    assert_eq!(l.repo(0).fetch_state, RepoFetcherState::Done);
    assert_eq!(l.repo(0).loading, LoadRepoState::LoadingThenDone);
    assert_eq!(l.next_step(false), LoaderStep::StartLoad(0));
    assert!(matches!(l.finish_load_repo_job(0, true, &vec![]), LoadOutcome::Loaded));
    assert_eq!(l.repo(0).loading, LoadRepoState::Done);
    assert_eq!(l.next_step(true), LoaderStep::HandleEvent);
    assert_eq!(l.next_step(false), LoaderStep::Finished);
}

#[test]
fn jobs_never_exceed_the_threads() {
    let mut l = CommitLoader::new(1);
    l.add_repo(sub("a"), true);
    l.add_repo(sub("b"), true);
    l.fetch_repo(0);
    l.fetch_repo(1);
    assert_eq!(l.next_step(false), LoaderStep::StartFetch(0));
    // The only thread is busy.
    assert_eq!(l.next_step(false), LoaderStep::HandleEvent);
    l.set_load_after_fetch(false);
    l.finish_fetch_repo_job(0, true);
    assert_eq!(l.repo(0).loading, LoadRepoState::NotLoadedYet);
    assert_eq!(l.next_step(false), LoaderStep::StartFetch(1));
}

#[test]
fn fetches_come_before_loads() {
    let mut l = CommitLoader::new(4);
    l.add_repo(sub("a"), true);
    l.add_repo(sub("b"), true);
    l.load_repo(0);
    l.fetch_repo(1);
    assert_eq!(l.next_step(false), LoaderStep::StartFetch(1));
    assert_eq!(l.next_step(false), LoaderStep::StartLoad(0));
}

#[test]
fn fetch_is_queued_once() {
    let mut l = CommitLoader::new(1);
    l.add_repo(sub("a"), true);
    l.fetch_repo(0);
    l.fetch_repo(0);
    assert_eq!(l.next_step(false), LoaderStep::StartFetch(0));
    l.fetch_repo(0);
    // A failed fetch stays in progress and is not tried again.
    l.finish_fetch_repo_job(0, false);
    assert_eq!(l.repo(0).fetch_state, RepoFetcherState::InProgress);
    l.fetch_repo(0);
    assert_eq!(l.next_step(false), LoaderStep::Finished);
}

#[test]
fn load_asked_while_loading_runs_again_once() {
    let mut l = CommitLoader::new(2);
    l.add_repo(sub("a"), true);
    l.load_repo(0);
    assert_eq!(l.next_step(false), LoaderStep::StartLoad(0));
    l.load_repo(0);
    l.load_repo(0);
    assert_eq!(l.repo(0).loading, LoadRepoState::LoadingThenQueueAgain);
    assert_eq!(l.next_step(false), LoaderStep::HandleEvent);
    assert!(matches!(l.finish_load_repo_job(0, true, &vec![]), LoadOutcome::QueuedAgain));
    assert_eq!(l.next_step(false), LoaderStep::StartLoad(0));
    assert!(matches!(l.finish_load_repo_job(0, true, &vec![]), LoadOutcome::Loaded));
    assert_eq!(l.next_step(false), LoaderStep::Finished);
}

#[test]
fn needed_commit_is_loaded_fetched_then_missing() {
    let mut l = CommitLoader::new(2);
    l.add_repo(sub("a"), true);
    assert_eq!(l.ensure_commit_available(0, b"c1", false), NeedOutcome::Needed);
    assert_eq!(l.ensure_commit_available(0, b"c0", false), NeedOutcome::Needed);
    assert_eq!(l.repo(0).needed_commits, vec![b"c0".to_vec(), b"c1".to_vec()]);
    assert_eq!(l.next_step(false), LoaderStep::StartLoad(0));
    // c0 was loaded, c1 was not: fetch.
    assert!(matches!(l.finish_load_repo_job(0, true, &vec![true, false]), LoadOutcome::FetchRequested));
    assert_eq!(l.repo(0).needed_commits, vec![b"c1".to_vec()]);
    assert_eq!(l.next_step(false), LoaderStep::StartFetch(0));
    l.finish_fetch_repo_job(0, true);
    assert_eq!(l.next_step(false), LoaderStep::StartLoad(0));
    match l.finish_load_repo_job(0, true, &vec![false]) {
        LoadOutcome::Missing(v) => assert_eq!(v, vec![b"c1".to_vec()]),
        other => panic!("unexpected {other:?}"),
    }
    assert!(l.repo(0).needed_commits.is_empty());
    assert_eq!(l.repo(0).missing_commits, vec![b"c1".to_vec()]);
    assert_eq!(l.ensure_commit_available(0, b"c1", false), NeedOutcome::Available);
    assert_eq!(l.ensure_commit_available(0, b"c2", false), NeedOutcome::Missing);
    assert_eq!(l.repo(0).missing_commits, vec![b"c1".to_vec(), b"c2".to_vec()]);
    assert_eq!(l.next_step(false), LoaderStep::Finished);
}

#[test]
fn loaded_or_disabled_commits_need_nothing() {
    let mut l = CommitLoader::new(2);
    l.add_repo(sub("a"), true);
    l.add_repo(sub("off"), false);
    assert_eq!(l.ensure_commit_available(0, b"c", true), NeedOutcome::Available);
    assert_eq!(l.ensure_commit_available(1, b"c", false), NeedOutcome::Disabled);
    assert_eq!(l.next_step(false), LoaderStep::Finished);
}

#[test]
fn without_fetching_missing_commits_they_wait() {
    let mut l = CommitLoader::new(2);
    l.set_fetch_missing_commits(false);
    l.add_repo(sub("a"), true);
    l.ensure_commit_available(0, b"c", false);
    assert_eq!(l.next_step(false), LoaderStep::StartLoad(0));
    assert!(matches!(l.finish_load_repo_job(0, true, &vec![false]), LoadOutcome::Loaded));
    assert_eq!(l.repo(0).needed_commits, vec![b"c".to_vec()]);
    assert_eq!(l.ensure_commit_available(0, b"d", false), NeedOutcome::Needed);
    assert_eq!(l.next_step(false), LoaderStep::Finished);
}

#[test]
fn failed_load_stops_the_job() {
    let mut l = CommitLoader::new(1);
    l.add_repo(sub("a"), true);
    l.load_repo(0);
    assert_eq!(l.next_step(false), LoaderStep::StartLoad(0));
    assert!(matches!(l.finish_load_repo_job(0, false, &vec![]), LoadOutcome::Failed));
    assert_eq!(l.len(), 1);
    assert_eq!(l.next_step(false), LoaderStep::Finished);
}
