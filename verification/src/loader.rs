//! The scheduling of the commit loader: which repositories to fetch and to
//! load, how many jobs run at once, and what happens when a job ends. The
//! jobs themselves (`git fetch`, `git fast-export`) run outside; they are
//! started on the steps this module gives and report back to it.
use crate::git::bytes_to_vec;
use crate::order::byte_strings_view;
use crate::order::bytes_lt;
use crate::order::contains_bytes;
use crate::order::insert_sorted_unique;
use crate::order::strictly_sorted;
use crate::repo_name::RepoName;
use vstd::prelude::*;

verus! {

/// Where a repository is in being loaded with `git fast-export`.
#[derive(Clone, Copy, Debug, PartialEq, Eq, Structural)]
pub enum LoadRepoState {
    /// Not loaded at all; there might be commits that are needed.
    NotLoadedYet,
    /// The repository was updated while being loaded, so it is loaded again
    /// to get the new commits.
    LoadingThenQueueAgain,
    /// Being loaded, or queued to be, with no update since.
    LoadingThenDone,
    /// Loaded.
    Done,
}

/// Where a repository is in being fetched.
#[derive(Clone, Copy, Debug, PartialEq, Eq, Structural)]
pub enum RepoFetcherState {
    /// Not asked to be fetched.
    Idle,
    /// Queued for fetching.
    Queued,
    /// Being fetched; a failed fetch stays here.
    InProgress,
    /// Fetched.
    Done,
}

/// What the loader knows of one repository.
#[derive(Debug)]
pub struct RepoFetcher {
    pub name: RepoName,
    /// Whether the repository is to be loaded at all.
    pub enabled: bool,
    pub loading: LoadRepoState,
    pub fetch_state: RepoFetcherState,
    /// Commits that are needed but not loaded yet, sorted, each once.
    pub needed_commits: Vec<Vec<u8>>,
    /// Commits confirmed to be missing, sorted, each once.
    pub missing_commits: Vec<Vec<u8>>,
    /// A fetch of the repository is running.
    pub fetch_running: bool,
    /// A load of the repository is running.
    pub load_running: bool,
}

/// A repository as the contracts see it.
pub struct RepoView {
    pub name: RepoName,
    pub enabled: bool,
    pub loading: LoadRepoState,
    pub fetch_state: RepoFetcherState,
    pub needed: Seq<Seq<u8>>,
    pub missing: Seq<Seq<u8>>,
    pub fetch_running: bool,
    pub load_running: bool,
}

pub open spec fn repo_view(r: RepoFetcher) -> RepoView {
    RepoView {
        name: r.name,
        enabled: r.enabled,
        loading: r.loading,
        fetch_state: r.fetch_state,
        needed: byte_strings_view(r.needed_commits@),
        missing: byte_strings_view(r.missing_commits@),
        fetch_running: r.fetch_running,
        load_running: r.load_running,
    }
}

pub open spec fn with_fetch_state(r: RepoView, s: RepoFetcherState) -> RepoView {
    RepoView {
        name: r.name,
        enabled: r.enabled,
        loading: r.loading,
        fetch_state: s,
        needed: r.needed,
        missing: r.missing,
        fetch_running: r.fetch_running,
        load_running: r.load_running,
    }
}

pub open spec fn with_loading(r: RepoView, s: LoadRepoState) -> RepoView {
    RepoView {
        name: r.name,
        enabled: r.enabled,
        loading: s,
        fetch_state: r.fetch_state,
        needed: r.needed,
        missing: r.missing,
        fetch_running: r.fetch_running,
        load_running: r.load_running,
    }
}

pub open spec fn with_running(r: RepoView, fetch: bool, load: bool) -> RepoView {
    RepoView {
        name: r.name,
        enabled: r.enabled,
        loading: r.loading,
        fetch_state: r.fetch_state,
        needed: r.needed,
        missing: r.missing,
        fetch_running: fetch,
        load_running: load,
    }
}

pub open spec fn with_commits(r: RepoView, needed: Seq<Seq<u8>>, missing: Seq<Seq<u8>>) -> RepoView {
    RepoView {
        name: r.name,
        enabled: r.enabled,
        loading: r.loading,
        fetch_state: r.fetch_state,
        needed,
        missing,
        fetch_running: r.fetch_running,
        load_running: r.load_running,
    }
}

/// Being loaded or queued to be.
pub open spec fn loading_in_progress(s: LoadRepoState) -> bool {
    s == LoadRepoState::LoadingThenQueueAgain || s == LoadRepoState::LoadingThenDone
}

/// The number of jobs that run for the repository.
pub open spec fn jobs_of(r: RepoView) -> nat {
    (if r.fetch_running {
        1nat
    } else {
        0nat
    }) + (if r.load_running {
        1nat
    } else {
        0nat
    })
}

/// The number of jobs that run for the repositories.
pub open spec fn running_jobs(rs: Seq<RepoView>) -> nat
    decreases rs.len(),
{
    if rs.len() == 0 {
        0
    } else {
        running_jobs(rs.drop_last()) + jobs_of(rs.last())
    }
}

pub open spec fn no_dups(q: Seq<usize>) -> bool {
    forall|a: int, b: int| 0 <= a < b < q.len() ==> q[a] != q[b]
}

/// What holds of each repository: a running fetch is in progress, a running
/// load is loading, a disabled repository is never fetched or loaded, and
/// the commit lists are sorted without duplicates.
pub open spec fn repo_ok(r: RepoView) -> bool {
    &&& r.fetch_running ==> r.fetch_state == RepoFetcherState::InProgress
    &&& r.load_running ==> loading_in_progress(r.loading)
    &&& !r.enabled ==> r.fetch_state == RepoFetcherState::Idle && r.loading
        == LoadRepoState::NotLoadedYet
    &&& strictly_sorted(r.needed)
    &&& strictly_sorted(r.missing)
}

/// The loader's invariant: the jobs counted are those that run, never more
/// than the threads; the fetch queue holds exactly the repositories queued
/// for fetching, each once; the load queue holds repositories that are
/// loading and not running, each once.
pub open spec fn loader_ok(
    rs: Seq<RepoView>,
    fq: Seq<usize>,
    lq: Seq<usize>,
    ongoing: int,
    max: int,
) -> bool {
    &&& 0 < max
    &&& rs.len() <= usize::MAX
    &&& ongoing == running_jobs(rs)
    &&& ongoing <= max
    &&& no_dups(fq)
    &&& no_dups(lq)
    &&& forall|k: int|
        0 <= k < fq.len() ==> #[trigger] fq[k] < rs.len() && rs[fq[k] as int].fetch_state
            == RepoFetcherState::Queued
    &&& forall|i: int|
        0 <= i < rs.len() && rs[i].fetch_state == RepoFetcherState::Queued ==> fq.contains(
            i as usize,
        )
    &&& forall|k: int|
        0 <= k < lq.len() ==> #[trigger] lq[k] < rs.len() && loading_in_progress(
            rs[lq[k] as int].loading,
        ) && !rs[lq[k] as int].load_running
    &&& forall|i: int| 0 <= i < rs.len() ==> repo_ok(#[trigger] rs[i])
}

/// A request to fetch queues the repository when it is enabled and was not
/// asked to be fetched before.
pub open spec fn fetch_request_queues(r: RepoView) -> bool {
    r.enabled && r.fetch_state == RepoFetcherState::Idle
}

pub open spec fn after_fetch_request(r: RepoView) -> RepoView {
    if fetch_request_queues(r) {
        with_fetch_state(r, RepoFetcherState::Queued)
    } else {
        r
    }
}

/// A request to load queues the repository when it is enabled and not
/// loading; one that comes while it is loading has it loaded again after.
pub open spec fn load_request_queues(r: RepoView) -> bool {
    r.enabled && (r.loading == LoadRepoState::NotLoadedYet || r.loading == LoadRepoState::Done)
}

pub open spec fn after_load_request(r: RepoView) -> RepoView {
    if !r.enabled {
        r
    } else {
        match r.loading {
            LoadRepoState::NotLoadedYet => with_loading(r, LoadRepoState::LoadingThenDone),
            LoadRepoState::Done => with_loading(r, LoadRepoState::LoadingThenDone),
            LoadRepoState::LoadingThenDone => with_loading(r, LoadRepoState::LoadingThenQueueAgain),
            LoadRepoState::LoadingThenQueueAgain => r,
        }
    }
}

proof fn lemma_running_update(rs: Seq<RepoView>, k: int, r: RepoView)
    requires
        0 <= k < rs.len(),
    ensures
        running_jobs(rs.update(k, r)) == running_jobs(rs) - jobs_of(rs[k]) + jobs_of(r),
    decreases rs.len(),
{
    if k == rs.len() - 1 {
        assert(rs.update(k, r).drop_last() =~= rs.drop_last());
    } else {
        assert(rs.update(k, r).drop_last() =~= rs.drop_last().update(k, r));
        lemma_running_update(rs.drop_last(), k, r);
    }
}

proof fn lemma_running_push(rs: Seq<RepoView>, r: RepoView)
    ensures
        running_jobs(rs.push(r)) == running_jobs(rs) + jobs_of(r),
{
    assert(rs.push(r).drop_last() =~= rs);
}

/// What the loader does next.
#[derive(Debug, PartialEq, Eq, Structural)]
pub enum LoaderStep {
    /// Start fetching the repository with this index in a thread.
    StartFetch(usize),
    /// Start loading the repository with this index in a thread.
    StartLoad(usize),
    /// Take the next event from the jobs, waiting for one if none is there.
    HandleEvent,
    /// No job runs, nothing is queued and no event waits: loading is over.
    Finished,
}

pub open spec fn start_fetch(r: RepoView) -> RepoView {
    with_running(with_fetch_state(r, RepoFetcherState::InProgress), true, r.load_running)
}

pub open spec fn start_load(r: RepoView) -> RepoView {
    with_running(r, r.fetch_running, true)
}

/// The repository after its fetch ended, before a load is asked for: a
/// successful fetch is done, a failed one stays in progress.
pub open spec fn fetch_ended(r: RepoView, ok: bool) -> RepoView {
    let stopped = with_running(r, false, r.load_running);
    if ok {
        with_fetch_state(stopped, RepoFetcherState::Done)
    } else {
        stopped
    }
}

proof fn lemma_running_zero(rs: Seq<RepoView>, j: int)
    requires
        running_jobs(rs) == 0,
        0 <= j < rs.len(),
    ensures
        jobs_of(rs[j]) == 0,
    decreases rs.len(),
{
    if j < rs.len() - 1 {
        assert(rs.drop_last()[j] == rs[j]);
        lemma_running_zero(rs.drop_last(), j);
    }
}

proof fn lemma_running_positive(rs: Seq<RepoView>, j: int)
    requires
        0 <= j < rs.len(),
    ensures
        jobs_of(rs[j]) <= running_jobs(rs),
    decreases rs.len(),
{
    if j < rs.len() - 1 {
        assert(rs.drop_last()[j] == rs[j]);
        lemma_running_positive(rs.drop_last(), j);
    }
}

/// How a load of a repository ended.
#[derive(Debug)]
pub enum LoadOutcome {
    /// The load failed.
    Failed,
    /// The repository changed while it was loaded; it is queued again.
    QueuedAgain,
    /// Loaded; the needed commits that are still not loaded wait.
    Loaded,
    /// Loaded, and needed commits are still not loaded, so a fetch was asked
    /// for.
    FetchRequested,
    /// Loaded after a fetch, and these needed commits are still not loaded:
    /// they are missing.
    Missing(Vec<Vec<u8>>),
}

/// What became of a needed commit.
#[derive(Debug, PartialEq, Eq, Structural)]
pub enum NeedOutcome {
    /// The commit is loaded or known to be missing.
    Available,
    /// The repository is disabled.
    Disabled,
    /// The commit waits for a load or a fetch.
    Needed,
    /// The repository was fetched and loaded without it: it is missing.
    Missing,
}

/// The needed commits that are not loaded, in order; `loaded` says of each
/// needed commit whether it is loaded.
pub open spec fn unloaded(needed: Seq<Seq<u8>>, loaded: Seq<bool>) -> Seq<Seq<u8>>
    decreases needed.len(),
{
    if needed.len() == 0 {
        Seq::empty()
    } else {
        let rest = unloaded(needed.drop_last(), loaded.take(needed.len() - 1));
        if loaded[needed.len() - 1] {
            rest
        } else {
            rest.push(needed.last())
        }
    }
}

proof fn lemma_unloaded(needed: Seq<Seq<u8>>, loaded: Seq<bool>)
    requires
        strictly_sorted(needed),
    ensures
        strictly_sorted(unloaded(needed, loaded)),
        forall|x: Seq<u8>| #[trigger] unloaded(needed, loaded).contains(x) ==> needed.contains(x),
    decreases needed.len(),
{
    if needed.len() > 0 {
        let n = needed.len() - 1;
        let d = needed.drop_last();
        let rest = unloaded(d, loaded.take(n));
        assert(strictly_sorted(d)) by {
            assert forall|a: int, b: int| 0 <= a < b < d.len() implies bytes_lt(
                #[trigger] d[a],
                #[trigger] d[b],
            ) by {
                assert(d[a] == needed[a] && d[b] == needed[b]);
            };
        };
        lemma_unloaded(d, loaded.take(n));
        assert forall|x: Seq<u8>| #[trigger] rest.contains(x) implies needed.contains(x) by {
            assert(d.contains(x));
            let k = choose|k: int| 0 <= k < d.len() && d[k] == x;
            assert(needed[k] == x);
        };
        if !loaded[n] {
            let u = rest.push(needed.last());
            assert forall|a: int, b: int| 0 <= a < b < u.len() implies bytes_lt(
                #[trigger] u[a],
                #[trigger] u[b],
            ) by {
                if b == u.len() - 1 {
                    assert(u[a] == rest[a]);
                    assert(rest.contains(rest[a]));
                    assert(d.contains(rest[a]));
                    let k = choose|k: int| 0 <= k < d.len() && d[k] == rest[a];
                    assert(needed[k] == rest[a]);
                    assert(bytes_lt(needed[k], needed[n]));
                } else {
                    assert(u[a] == rest[a] && u[b] == rest[b]);
                }
            };
            assert forall|x: Seq<u8>| #[trigger] u.contains(x) implies needed.contains(x) by {
                let k = choose|k: int| 0 <= k < u.len() && u[k] == x;
                if k == u.len() - 1 {
                    assert(needed[n] == x);
                } else {
                    assert(rest[k] == x);
                    assert(rest.contains(x));
                }
            };
        }
    }
}

/// The repository after its load ended, before anything else: the job no
/// longer runs.
pub open spec fn load_stopped(r: RepoView) -> RepoView {
    with_running(r, r.fetch_running, false)
}

/// Changing only the commit lists of a repository keeps the invariant.
proof fn lemma_commits_only(
    rs0: Seq<RepoView>,
    fq: Seq<usize>,
    lq: Seq<usize>,
    ongoing: int,
    max: int,
    i: int,
    nr: RepoView,
)
    requires
        loader_ok(rs0, fq, lq, ongoing, max),
        0 <= i < rs0.len(),
        nr == with_commits(rs0[i], nr.needed, nr.missing),
        strictly_sorted(nr.needed),
        strictly_sorted(nr.missing),
    ensures
        loader_ok(rs0.update(i, nr), fq, lq, ongoing, max),
{
    let rs = rs0.update(i, nr);
    lemma_running_update(rs0, i, nr);
    assert forall|k: int| 0 <= k < fq.len() implies #[trigger] fq[k] < rs.len()
        && rs[fq[k] as int].fetch_state == RepoFetcherState::Queued by {
        assert(rs[fq[k] as int].fetch_state == rs0[fq[k] as int].fetch_state);
    };
    assert forall|j: int|
        0 <= j < rs.len() && rs[j].fetch_state == RepoFetcherState::Queued implies fq.contains(
        j as usize,
    ) by {
        assert(rs[j].fetch_state == rs0[j].fetch_state);
    };
    assert forall|k: int| 0 <= k < lq.len() implies #[trigger] lq[k] < rs.len() && loading_in_progress(
        rs[lq[k] as int].loading,
    ) && !rs[lq[k] as int].load_running by {
        assert(rs[lq[k] as int].loading == rs0[lq[k] as int].loading);
        assert(rs[lq[k] as int].load_running == rs0[lq[k] as int].load_running);
    };
    assert forall|j: int| 0 <= j < rs.len() implies repo_ok(#[trigger] rs[j]) by {
        assert(repo_ok(rs0[j]));
    };
}

/// A repository is queued for fetching at most once: once asked for, asking
/// again changes nothing and queues nothing.
pub proof fn law_fetch_requested_once(r: RepoView)
    ensures
        after_fetch_request(after_fetch_request(r)) == after_fetch_request(r),
        !fetch_request_queues(after_fetch_request(r)),
{
}

/// Requests to load a repository that come while it is loading are merged
/// into one more load after the current one, and none of them queues it.
pub proof fn law_load_requests_merged(r: RepoView)
    requires
        r.enabled,
    ensures
        !load_request_queues(after_load_request(r)),
        after_load_request(after_load_request(after_load_request(r))) == after_load_request(
            after_load_request(r),
        ),
        after_load_request(after_load_request(r)).loading == LoadRepoState::LoadingThenQueueAgain,
{
}

/// The scheduling state of the commit loader.
pub struct CommitLoader {
    repos: Vec<RepoFetcher>,
    repos_to_fetch: Vec<usize>,
    repos_to_load: Vec<usize>,
    ongoing_jobs_in_threads: usize,
    max_threads: usize,
    /// Whether a repository is loaded when its fetch is done.
    load_after_fetch: bool,
    /// Whether needed commits that are missing are fetched.
    fetch_missing_commits: bool,
}

impl CommitLoader {
    pub closed spec fn repos_view(&self) -> Seq<RepoView> {
        self.repos@.map_values(|r: RepoFetcher| repo_view(r))
    }

    pub closed spec fn fetch_queue(&self) -> Seq<usize> {
        self.repos_to_fetch@
    }

    pub closed spec fn load_queue(&self) -> Seq<usize> {
        self.repos_to_load@
    }

    pub closed spec fn ongoing(&self) -> int {
        self.ongoing_jobs_in_threads as int
    }

    pub closed spec fn max_threads(&self) -> int {
        self.max_threads as int
    }

    pub closed spec fn loads_after_fetch(&self) -> bool {
        self.load_after_fetch
    }

    pub closed spec fn fetches_missing(&self) -> bool {
        self.fetch_missing_commits
    }

    pub open spec fn wf(&self) -> bool {
        loader_ok(
            self.repos_view(),
            self.fetch_queue(),
            self.load_queue(),
            self.ongoing(),
            self.max_threads(),
        )
    }

    /// A loader without repositories that runs at most `max_threads` jobs at
    /// once, loading each repository after its fetch and fetching missing
    /// commits.
    pub fn new(max_threads: usize) -> (r: Self)
        requires
            max_threads > 0,
        ensures
            r.wf(),
            r.repos_view().len() == 0,
            r.fetch_queue().len() == 0,
            r.load_queue().len() == 0,
            r.ongoing() == 0,
            r.max_threads() == max_threads,
            r.loads_after_fetch(),
            r.fetches_missing(),
    {
        let r = CommitLoader {
            repos: Vec::new(),
            repos_to_fetch: Vec::new(),
            repos_to_load: Vec::new(),
            ongoing_jobs_in_threads: 0,
            max_threads,
            load_after_fetch: true,
            fetch_missing_commits: true,
        };
        assert(r.repos_view() =~= Seq::<RepoView>::empty());
        r
    }

    /// Sets whether a repository is loaded when its fetch is done.
    pub fn set_load_after_fetch(&mut self, value: bool)
        ensures
            final(self).loads_after_fetch() == value,
            final(self).fetches_missing() == old(self).fetches_missing(),
            final(self).repos_view() == old(self).repos_view(),
            final(self).fetch_queue() == old(self).fetch_queue(),
            final(self).load_queue() == old(self).load_queue(),
            final(self).ongoing() == old(self).ongoing(),
            final(self).max_threads() == old(self).max_threads(),
    {
        self.load_after_fetch = value;
    }

    /// Sets whether needed commits that are missing are fetched.
    pub fn set_fetch_missing_commits(&mut self, value: bool)
        ensures
            final(self).fetches_missing() == value,
            final(self).loads_after_fetch() == old(self).loads_after_fetch(),
            final(self).repos_view() == old(self).repos_view(),
            final(self).fetch_queue() == old(self).fetch_queue(),
            final(self).load_queue() == old(self).load_queue(),
            final(self).ongoing() == old(self).ongoing(),
            final(self).max_threads() == old(self).max_threads(),
    {
        self.fetch_missing_commits = value;
    }

    /// Adds a repository, neither fetched nor loaded, and gives its index.
    pub fn add_repo(&mut self, name: RepoName, enabled: bool) -> (i: usize)
        requires
            old(self).wf(),
            old(self).repos_view().len() < usize::MAX,
        ensures
            final(self).wf(),
            i == old(self).repos_view().len(),
            final(self).repos_view() == old(self).repos_view().push(
                RepoView {
                    name,
                    enabled,
                    loading: LoadRepoState::NotLoadedYet,
                    fetch_state: RepoFetcherState::Idle,
                    needed: Seq::empty(),
                    missing: Seq::empty(),
                    fetch_running: false,
                    load_running: false,
                },
            ),
            final(self).fetch_queue() == old(self).fetch_queue(),
            final(self).load_queue() == old(self).load_queue(),
            final(self).ongoing() == old(self).ongoing(),
            final(self).max_threads() == old(self).max_threads(),
            final(self).loads_after_fetch() == old(self).loads_after_fetch(),
            final(self).fetches_missing() == old(self).fetches_missing(),
    {
        let ghost rs0 = self.repos_view();
        let r = RepoFetcher {
            name,
            enabled,
            loading: LoadRepoState::NotLoadedYet,
            fetch_state: RepoFetcherState::Idle,
            needed_commits: Vec::new(),
            missing_commits: Vec::new(),
            fetch_running: false,
            load_running: false,
        };
        assert(byte_strings_view(r.needed_commits@) =~= Seq::<Seq<u8>>::empty());
        assert(byte_strings_view(r.missing_commits@) =~= Seq::<Seq<u8>>::empty());
        let i = self.repos.len();
        self.repos.push(r);
        proof {
            assert(self.repos_view() =~= rs0.push(repo_view(r)));
            lemma_running_push(rs0, repo_view(r));
            let rs = self.repos_view();
            assert forall|j: int| 0 <= j < rs.len() implies repo_ok(#[trigger] rs[j]) by {
                if j < rs0.len() {
                    assert(rs[j] == rs0[j]);
                }
            };
        }
        i
    }

    /// Asks for the repository to be fetched: it is queued when it is
    /// enabled and was not asked for before. Gives whether it is enabled.
    pub fn fetch_repo(&mut self, i: usize) -> (enabled: bool)
        requires
            old(self).wf(),
            i < old(self).repos_view().len(),
        ensures
            final(self).wf(),
            enabled == old(self).repos_view()[i as int].enabled,
            final(self).repos_view() == old(self).repos_view().update(
                i as int,
                after_fetch_request(old(self).repos_view()[i as int]),
            ),
            final(self).fetch_queue() == if fetch_request_queues(old(self).repos_view()[i as int]) {
                old(self).fetch_queue().push(i)
            } else {
                old(self).fetch_queue()
            },
            final(self).load_queue() == old(self).load_queue(),
            final(self).ongoing() == old(self).ongoing(),
            final(self).max_threads() == old(self).max_threads(),
            final(self).loads_after_fetch() == old(self).loads_after_fetch(),
            final(self).fetches_missing() == old(self).fetches_missing(),
    {
        let ghost rs0 = self.repos_view();
        let ghost fq0 = self.fetch_queue();
        proof {
            assert(rs0[i as int] == repo_view(self.repos@[i as int]));
        }
        let enabled = self.repos[i].enabled;
        if !enabled || self.repos[i].fetch_state != RepoFetcherState::Idle {
            proof {
                assert(self.repos_view() =~= rs0.update(i as int, rs0[i as int]));
            }
            return enabled;
        }
        let mut r = self.repos.remove(i);
        r.fetch_state = RepoFetcherState::Queued;
        self.repos.insert(i, r);
        self.repos_to_fetch.push(i);
        proof {
            let nr = with_fetch_state(rs0[i as int], RepoFetcherState::Queued);
            assert(self.repos_view() =~= rs0.update(i as int, nr));
            lemma_running_update(rs0, i as int, nr);
            let rs = self.repos_view();
            let fq = self.fetch_queue();
            assert(!fq0.contains(i)) by {
                if fq0.contains(i) {
                    let k = choose|k: int| 0 <= k < fq0.len() && fq0[k] == i;
                    assert(rs0[fq0[k] as int].fetch_state == RepoFetcherState::Queued);
                }
            };
            assert forall|a: int, b: int| 0 <= a < b < fq.len() implies fq[a] != fq[b] by {
                if b == fq.len() - 1 {
                    assert(fq0[a] == fq[a]);
                    assert(fq0.contains(fq0[a]));
                }
            };
            assert forall|k: int| 0 <= k < fq.len() implies #[trigger] fq[k] < rs.len()
                && rs[fq[k] as int].fetch_state == RepoFetcherState::Queued by {
                if k < fq0.len() {
                    assert(fq[k] == fq0[k]);
                }
            };
            assert forall|j: int|
                0 <= j < rs.len() && rs[j].fetch_state == RepoFetcherState::Queued implies fq.contains(
                j as usize,
            ) by {
                if j == i {
                    assert(fq[fq.len() - 1] == i);
                } else {
                    assert(rs[j] == rs0[j]);
                    let k = choose|k: int| 0 <= k < fq0.len() && fq0[k] == j as usize;
                    assert(fq[k] == fq0[k]);
                }
            };
            assert forall|j: int| 0 <= j < rs.len() implies repo_ok(#[trigger] rs[j]) by {
                if j != i {
                    assert(rs[j] == rs0[j]);
                }
            };
        }
        true
    }

    /// Asks for the repository to be loaded: it is queued when it is enabled
    /// and not loading; while it is loading, it is loaded again after. Gives
    /// whether it is enabled.
    pub fn load_repo(&mut self, i: usize) -> (enabled: bool)
        requires
            old(self).wf(),
            i < old(self).repos_view().len(),
        ensures
            final(self).wf(),
            enabled == old(self).repos_view()[i as int].enabled,
            final(self).repos_view() == old(self).repos_view().update(
                i as int,
                after_load_request(old(self).repos_view()[i as int]),
            ),
            final(self).load_queue() == if load_request_queues(old(self).repos_view()[i as int]) {
                old(self).load_queue().push(i)
            } else {
                old(self).load_queue()
            },
            final(self).fetch_queue() == old(self).fetch_queue(),
            final(self).ongoing() == old(self).ongoing(),
            final(self).max_threads() == old(self).max_threads(),
            final(self).loads_after_fetch() == old(self).loads_after_fetch(),
            final(self).fetches_missing() == old(self).fetches_missing(),
    {
        let ghost rs0 = self.repos_view();
        let ghost lq0 = self.load_queue();
        proof {
            assert(rs0[i as int] == repo_view(self.repos@[i as int]));
        }
        let enabled = self.repos[i].enabled;
        if !enabled || self.repos[i].loading == LoadRepoState::LoadingThenQueueAgain {
            proof {
                assert(self.repos_view() =~= rs0.update(i as int, rs0[i as int]));
            }
            return enabled;
        }
        let mut r = self.repos.remove(i);
        let queue = r.loading != LoadRepoState::LoadingThenDone;
        if queue {
            r.loading = LoadRepoState::LoadingThenDone;
        } else {
            r.loading = LoadRepoState::LoadingThenQueueAgain;
        }
        self.repos.insert(i, r);
        if queue {
            self.repos_to_load.push(i);
        }
        proof {
            let nr = after_load_request(rs0[i as int]);
            assert(repo_view(r) == nr);
            assert(self.repos_view() =~= rs0.update(i as int, nr));
            lemma_running_update(rs0, i as int, nr);
            let rs = self.repos_view();
            let lq = self.load_queue();
            if queue {
                assert(!lq0.contains(i)) by {
                    if lq0.contains(i) {
                        let k = choose|k: int| 0 <= k < lq0.len() && lq0[k] == i;
                        assert(loading_in_progress(rs0[lq0[k] as int].loading));
                    }
                };
                assert forall|a: int, b: int| 0 <= a < b < lq.len() implies lq[a] != lq[b] by {
                    if b == lq.len() - 1 {
                        assert(lq0[a] == lq[a]);
                        assert(lq0.contains(lq0[a]));
                    }
                };
            }
            assert forall|k: int| 0 <= k < lq.len() implies #[trigger] lq[k] < rs.len()
                && loading_in_progress(rs[lq[k] as int].loading) && !rs[lq[k] as int].load_running by {
                if k < lq0.len() {
                    assert(lq[k] == lq0[k]);
                }
            };
            assert forall|j: int|
                0 <= j < rs.len() && rs[j].fetch_state == RepoFetcherState::Queued implies self.fetch_queue().contains(
                j as usize,
            ) by {
                assert(rs[j].fetch_state == rs0[j].fetch_state);
            };
            assert forall|j: int| 0 <= j < rs.len() implies repo_ok(#[trigger] rs[j]) by {
                if j != i {
                    assert(rs[j] == rs0[j]);
                }
            };
        }
        true
    }

    /// What to do next: start the first queued fetch, else the first queued
    /// load, while fewer jobs run than there are threads; otherwise handle
    /// an event while one waits or a job runs; otherwise loading is over.
    pub fn next_step(&mut self, has_pending_event: bool) -> (step: LoaderStep)
        requires
            old(self).wf(),
        ensures
            final(self).wf(),
            final(self).max_threads() == old(self).max_threads(),
            final(self).loads_after_fetch() == old(self).loads_after_fetch(),
            final(self).fetches_missing() == old(self).fetches_missing(),
            ({
                let rs = old(self).repos_view();
                let fq = old(self).fetch_queue();
                let lq = old(self).load_queue();
                let free = old(self).ongoing() < old(self).max_threads();
                match step {
                    LoaderStep::StartFetch(i) => {
                        &&& free && fq.len() > 0 && i == fq[0]
                        &&& final(self).repos_view() == rs.update(i as int, start_fetch(rs[i as int]))
                        &&& final(self).fetch_queue() == fq.drop_first()
                        &&& final(self).load_queue() == lq
                        &&& final(self).ongoing() == old(self).ongoing() + 1
                    },
                    LoaderStep::StartLoad(i) => {
                        &&& free && fq.len() == 0 && lq.len() > 0 && i == lq[0]
                        &&& final(self).repos_view() == rs.update(i as int, start_load(rs[i as int]))
                        &&& final(self).fetch_queue() == fq
                        &&& final(self).load_queue() == lq.drop_first()
                        &&& final(self).ongoing() == old(self).ongoing() + 1
                    },
                    LoaderStep::HandleEvent => {
                        &&& !free || (fq.len() == 0 && lq.len() == 0)
                        &&& has_pending_event || old(self).ongoing() > 0
                        &&& final(self).repos_view() == rs
                        &&& final(self).fetch_queue() == fq
                        &&& final(self).load_queue() == lq
                        &&& final(self).ongoing() == old(self).ongoing()
                    },
                    LoaderStep::Finished => {
                        &&& !has_pending_event && old(self).ongoing() == 0
                        &&& fq.len() == 0 && lq.len() == 0
                        &&& final(self).repos_view() == rs
                        &&& final(self).fetch_queue() == fq
                        &&& final(self).load_queue() == lq
                        &&& final(self).ongoing() == 0
                        &&& forall|j: int|
                            0 <= j < rs.len() ==> !(#[trigger] rs[j]).fetch_running
                                && !rs[j].load_running && rs[j].fetch_state
                                != RepoFetcherState::Queued
                    },
                }
            }),
    {
        let ghost rs0 = self.repos_view();
        let ghost fq0 = self.fetch_queue();
        let ghost lq0 = self.load_queue();
        if self.ongoing_jobs_in_threads < self.max_threads {
            if self.repos_to_fetch.len() > 0 {
                let i = self.repos_to_fetch.remove(0);
                proof {
                    assert(fq0[0] == i);
                    assert(rs0[i as int] == repo_view(self.repos@[i as int]));
                }
                let mut r = self.repos.remove(i);
                r.fetch_state = RepoFetcherState::InProgress;
                r.fetch_running = true;
                self.repos.insert(i, r);
                self.ongoing_jobs_in_threads = self.ongoing_jobs_in_threads + 1;
                proof {
                    let nr = start_fetch(rs0[i as int]);
                    assert(repo_view(r) == nr);
                    assert(self.repos_view() =~= rs0.update(i as int, nr));
                    lemma_running_update(rs0, i as int, nr);
                    let rs = self.repos_view();
                    let fq = self.fetch_queue();
                    assert(fq =~= fq0.drop_first());
                    assert forall|k: int| 0 <= k < fq.len() implies #[trigger] fq[k] < rs.len()
                        && rs[fq[k] as int].fetch_state == RepoFetcherState::Queued by {
                        assert(fq[k] == fq0[k + 1]);
                        assert(fq0[0] != fq0[k + 1]);
                    };
                    assert forall|j: int|
                        0 <= j < rs.len() && rs[j].fetch_state == RepoFetcherState::Queued implies fq.contains(
                        j as usize,
                    ) by {
                        assert(j != i);
                        assert(rs[j] == rs0[j]);
                        let k = choose|k: int| 0 <= k < fq0.len() && fq0[k] == j as usize;
                        assert(k != 0);
                        assert(fq[k - 1] == fq0[k]);
                    };
                    assert forall|k: int| 0 <= k < lq0.len() implies #[trigger] lq0[k] < rs.len()
                        && loading_in_progress(rs[lq0[k] as int].loading)
                        && !rs[lq0[k] as int].load_running by {
                        assert(rs0[lq0[k] as int].load_running == rs[lq0[k] as int].load_running);
                    };
                    assert forall|j: int| 0 <= j < rs.len() implies repo_ok(#[trigger] rs[j]) by {
                        if j != i {
                            assert(rs[j] == rs0[j]);
                        }
                    };
                }
                return LoaderStep::StartFetch(i);
            }
            if self.repos_to_load.len() > 0 {
                let i = self.repos_to_load.remove(0);
                proof {
                    assert(lq0[0] == i);
                    assert(rs0[i as int] == repo_view(self.repos@[i as int]));
                }
                let mut r = self.repos.remove(i);
                r.load_running = true;
                self.repos.insert(i, r);
                self.ongoing_jobs_in_threads = self.ongoing_jobs_in_threads + 1;
                proof {
                    let nr = start_load(rs0[i as int]);
                    assert(repo_view(r) == nr);
                    assert(self.repos_view() =~= rs0.update(i as int, nr));
                    lemma_running_update(rs0, i as int, nr);
                    let rs = self.repos_view();
                    let lq = self.load_queue();
                    assert(lq =~= lq0.drop_first());
                    assert forall|k: int| 0 <= k < lq.len() implies #[trigger] lq[k] < rs.len()
                        && loading_in_progress(rs[lq[k] as int].loading)
                        && !rs[lq[k] as int].load_running by {
                        assert(lq[k] == lq0[k + 1]);
                        assert(lq0[0] != lq0[k + 1]);
                    };
                    assert forall|j: int|
                        0 <= j < rs.len() && rs[j].fetch_state == RepoFetcherState::Queued implies fq0.contains(
                        j as usize,
                    ) by {
                        assert(rs[j].fetch_state == rs0[j].fetch_state);
                    };
                    assert forall|j: int| 0 <= j < rs.len() implies repo_ok(#[trigger] rs[j]) by {
                        if j != i {
                            assert(rs[j] == rs0[j]);
                        }
                    };
                }
                return LoaderStep::StartLoad(i);
            }
        }
        if has_pending_event || self.ongoing_jobs_in_threads > 0 {
            return LoaderStep::HandleEvent;
        }
        proof {
            assert forall|j: int| 0 <= j < rs0.len() implies !(#[trigger] rs0[j]).fetch_running
                && !rs0[j].load_running && rs0[j].fetch_state != RepoFetcherState::Queued by {
                lemma_running_zero(rs0, j);
                if rs0[j].fetch_state == RepoFetcherState::Queued {
                    assert(fq0.contains(j as usize));
                }
            };
        }
        LoaderStep::Finished
    }

    /// A fetch of the repository ended: the job is no longer counted; a
    /// successful fetch is done, and the repository is then loaded when the
    /// loader loads after fetching; a failed one stays in progress.
    pub fn finish_fetch_repo_job(&mut self, i: usize, ok: bool)
        requires
            old(self).wf(),
            i < old(self).repos_view().len(),
            old(self).repos_view()[i as int].fetch_running,
        ensures
            final(self).wf(),
            final(self).ongoing() == old(self).ongoing() - 1,
            final(self).fetch_queue() == old(self).fetch_queue(),
            final(self).max_threads() == old(self).max_threads(),
            final(self).loads_after_fetch() == old(self).loads_after_fetch(),
            final(self).fetches_missing() == old(self).fetches_missing(),
            ({
                let r = fetch_ended(old(self).repos_view()[i as int], ok);
                if ok && old(self).loads_after_fetch() {
                    &&& final(self).repos_view() == old(self).repos_view().update(
                        i as int,
                        after_load_request(r),
                    )
                    &&& final(self).load_queue() == if load_request_queues(r) {
                        old(self).load_queue().push(i)
                    } else {
                        old(self).load_queue()
                    }
                } else {
                    &&& final(self).repos_view() == old(self).repos_view().update(i as int, r)
                    &&& final(self).load_queue() == old(self).load_queue()
                }
            }),
    {
        let ghost rs0 = self.repos_view();
        let ghost fq0 = self.fetch_queue();
        let ghost lq0 = self.load_queue();
        proof {
            assert(rs0[i as int] == repo_view(self.repos@[i as int]));
            lemma_running_positive(rs0, i as int);
        }
        let mut r = self.repos.remove(i);
        r.fetch_running = false;
        if ok {
            r.fetch_state = RepoFetcherState::Done;
        }
        self.repos.insert(i, r);
        self.ongoing_jobs_in_threads = self.ongoing_jobs_in_threads - 1;
        proof {
            let nr = fetch_ended(rs0[i as int], ok);
            assert(repo_view(r) == nr);
            assert(self.repos_view() =~= rs0.update(i as int, nr));
            lemma_running_update(rs0, i as int, nr);
            let rs = self.repos_view();
            assert forall|k: int| 0 <= k < fq0.len() implies #[trigger] fq0[k] < rs.len()
                && rs[fq0[k] as int].fetch_state == RepoFetcherState::Queued by {
                assert(fq0[k] != i);
            };
            assert forall|j: int|
                0 <= j < rs.len() && rs[j].fetch_state == RepoFetcherState::Queued implies fq0.contains(
                j as usize,
            ) by {
                assert(j != i);
                assert(rs[j] == rs0[j]);
            };
            assert forall|k: int| 0 <= k < lq0.len() implies #[trigger] lq0[k] < rs.len()
                && loading_in_progress(rs[lq0[k] as int].loading)
                && !rs[lq0[k] as int].load_running by {
                assert(rs0[lq0[k] as int].load_running == rs[lq0[k] as int].load_running);
            };
            assert forall|j: int| 0 <= j < rs.len() implies repo_ok(#[trigger] rs[j]) by {
                if j != i {
                    assert(rs[j] == rs0[j]);
                }
            };
        }
        if ok && self.load_after_fetch {
            let ghost rs1 = self.repos_view();
            self.load_repo(i);
            proof {
                assert(self.repos_view() =~= rs0.update(
                    i as int,
                    after_load_request(fetch_ended(rs0[i as int], ok)),
                ));
            }
        }
    }

    /// A load of the repository ended: the job is no longer counted. A
    /// failed load changes nothing more. A repository that changed while it
    /// was loaded is queued again. Otherwise it is loaded, and of the needed
    /// commits those that `loaded` does not mark stay needed; when missing
    /// commits are fetched and some stay, they are missing if the repository
    /// was fetched already, else a fetch is asked for.
    pub fn finish_load_repo_job(&mut self, i: usize, ok: bool, loaded: &Vec<bool>) -> (outcome: LoadOutcome)
        requires
            old(self).wf(),
            i < old(self).repos_view().len(),
            old(self).repos_view()[i as int].load_running,
            loaded@.len() == old(self).repos_view()[i as int].needed.len(),
        ensures
            final(self).wf(),
            final(self).ongoing() == old(self).ongoing() - 1,
            final(self).max_threads() == old(self).max_threads(),
            final(self).loads_after_fetch() == old(self).loads_after_fetch(),
            final(self).fetches_missing() == old(self).fetches_missing(),
            ({
                let rs = old(self).repos_view();
                let fq = old(self).fetch_queue();
                let lq = old(self).load_queue();
                let r0 = rs[i as int];
                let r = load_stopped(r0);
                let kept = unloaded(r0.needed, loaded@);
                let done = with_loading(r, LoadRepoState::Done);
                if !ok {
                    &&& outcome is Failed
                    &&& final(self).repos_view() == rs.update(i as int, r)
                    &&& final(self).fetch_queue() == fq
                    &&& final(self).load_queue() == lq
                } else if r0.loading == LoadRepoState::LoadingThenQueueAgain {
                    &&& outcome is QueuedAgain
                    &&& final(self).repos_view() == rs.update(
                        i as int,
                        with_loading(r, LoadRepoState::LoadingThenDone),
                    )
                    &&& final(self).fetch_queue() == fq
                    &&& final(self).load_queue() == lq.push(i)
                } else if !old(self).fetches_missing() || kept.len() == 0 {
                    &&& outcome is Loaded
                    &&& final(self).repos_view() == rs.update(
                        i as int,
                        with_commits(done, kept, r0.missing),
                    )
                    &&& final(self).fetch_queue() == fq
                    &&& final(self).load_queue() == lq
                } else if r0.fetch_state == RepoFetcherState::Done {
                    let missing = final(self).repos_view()[i as int].missing;
                    &&& outcome matches LoadOutcome::Missing(v) && byte_strings_view(v@) == kept
                    &&& final(self).repos_view() == rs.update(
                        i as int,
                        with_commits(done, Seq::empty(), missing),
                    )
                    &&& forall|y: Seq<u8>|
                        #[trigger] missing.contains(y) <==> (r0.missing.contains(y) || kept.contains(y))
                    &&& final(self).fetch_queue() == fq
                    &&& final(self).load_queue() == lq
                } else {
                    let waiting = with_commits(done, kept, r0.missing);
                    &&& outcome is FetchRequested
                    &&& final(self).repos_view() == rs.update(
                        i as int,
                        after_fetch_request(waiting),
                    )
                    &&& final(self).fetch_queue() == if fetch_request_queues(waiting) {
                        fq.push(i)
                    } else {
                        fq
                    }
                    &&& final(self).load_queue() == lq
                }
            }),
    {
        let ghost rs0 = self.repos_view();
        let ghost fq0 = self.fetch_queue();
        let ghost lq0 = self.load_queue();
        let ghost r0 = rs0[i as int];
        proof {
            assert(r0 == repo_view(self.repos@[i as int]));
            lemma_running_positive(rs0, i as int);
        }
        let mut r = self.repos.remove(i);
        r.load_running = false;
        self.ongoing_jobs_in_threads = self.ongoing_jobs_in_threads - 1;
        let ghost stopped = load_stopped(r0);
        assert(repo_view(r) == stopped);
        if !ok || r.loading == LoadRepoState::LoadingThenQueueAgain {
            let outcome = if ok {
                r.loading = LoadRepoState::LoadingThenDone;
                LoadOutcome::QueuedAgain
            } else {
                LoadOutcome::Failed
            };
            self.repos.insert(i, r);
            if ok {
                self.repos_to_load.push(i);
            }
            proof {
                let nr = repo_view(r);
                assert(self.repos_view() =~= rs0.update(i as int, nr));
                lemma_running_update(rs0, i as int, nr);
                self.lemma_other_repos_kept(rs0, fq0, lq0, i as int, ok);
            }
            return outcome;
        }
        // The load was running, so the repository was loading and, not
        // queued again, it is now loaded.
        let mut kept: Vec<Vec<u8>> = Vec::new();
        let ghost needed = byte_strings_view(r.needed_commits@);
        let mut k: usize = 0;
        assert(unloaded(needed.take(0), loaded@.take(0)) =~= Seq::<Seq<u8>>::empty());
        assert(byte_strings_view(kept@) =~= Seq::<Seq<u8>>::empty());
        while k < r.needed_commits.len()
            invariant
                k <= r.needed_commits@.len(),
                needed == byte_strings_view(r.needed_commits@),
                loaded@.len() == needed.len(),
                byte_strings_view(kept@) == unloaded(needed.take(k as int), loaded@.take(k as int)),
            decreases r.needed_commits.len() - k,
        {
            assert(needed.take(k + 1).drop_last() =~= needed.take(k as int));
            assert(loaded@.take(k + 1).take(k as int) =~= loaded@.take(k as int));
            assert(needed.take(k + 1).last() == r.needed_commits@[k as int]@);
            if !loaded[k] {
                let ghost before = byte_strings_view(kept@);
                kept.push(bytes_to_vec(r.needed_commits[k].as_slice()));
                assert(byte_strings_view(kept@) =~= before.push(needed[k as int]));
            }
            k = k + 1;
        }
        proof {
            assert(needed.take(needed.len() as int) =~= needed);
            assert(loaded@.take(loaded@.len() as int) =~= loaded@);
            lemma_unloaded(needed, loaded@);
        }
        r.loading = LoadRepoState::Done;
        let ghost done = with_loading(stopped, LoadRepoState::Done);
        if !self.fetch_missing_commits || kept.len() == 0 {
            r.needed_commits = kept;
            self.repos.insert(i, r);
            proof {
                let nr = repo_view(r);
                assert(nr == with_commits(done, unloaded(r0.needed, loaded@), r0.missing));
                assert(self.repos_view() =~= rs0.update(i as int, nr));
                lemma_running_update(rs0, i as int, nr);
                self.lemma_other_repos_kept(rs0, fq0, lq0, i as int, false);
            }
            return LoadOutcome::Loaded;
        }
        if r.fetch_state == RepoFetcherState::Done {
            let mut j: usize = 0;
            let mut missing: Vec<Vec<u8>> = Vec::new();
            std::mem::swap(&mut missing, &mut r.missing_commits);
            let ghost m0 = byte_strings_view(missing@);
            let ghost ks = byte_strings_view(kept@);
            assert(ks.take(0) =~= Seq::<Seq<u8>>::empty());
            while j < kept.len()
                invariant
                    j <= kept@.len(),
                    ks == byte_strings_view(kept@),
                    strictly_sorted(byte_strings_view(missing@)),
                    forall|y: Seq<u8>|
                        #[trigger] byte_strings_view(missing@).contains(y) <==> (m0.contains(y)
                            || ks.take(j as int).contains(y)),
                decreases kept.len() - j,
            {
                insert_sorted_unique(&mut missing, kept[j].as_slice());
                proof {
                    assert(ks[j as int] == kept@[j as int]@);
                    let t0 = ks.take(j as int);
                    let t1 = ks.take(j + 1);
                    assert(t1 =~= t0.push(ks[j as int]));
                    assert forall|y: Seq<u8>|
                        #[trigger] byte_strings_view(missing@).contains(y) <==> (m0.contains(y)
                            || t1.contains(y)) by {
                        if t1.contains(y) && !t0.contains(y) {
                            let q = choose|q: int| 0 <= q < t1.len() && #[trigger] t1[q] == y;
                            if q < j {
                                assert(t0[q] == y);
                            }
                        }
                        if t0.contains(y) {
                            let q = choose|q: int| 0 <= q < t0.len() && #[trigger] t0[q] == y;
                            assert(t1[q] == y);
                        }
                        if y == ks[j as int] {
                            assert(t1[j as int] == y);
                        }
                    };
                }
                j = j + 1;
            }
            r.missing_commits = missing;
            r.needed_commits = Vec::new();
            self.repos.insert(i, r);
            proof {
                assert(ks.take(ks.len() as int) =~= ks);
                let nr = repo_view(r);
                assert(byte_strings_view(r.needed_commits@) =~= Seq::<Seq<u8>>::empty());
                assert(nr == with_commits(done, Seq::empty(), nr.missing));
                assert(self.repos_view() =~= rs0.update(i as int, nr));
                assert(self.repos_view()[i as int] == nr);
                lemma_running_update(rs0, i as int, nr);
                self.lemma_other_repos_kept(rs0, fq0, lq0, i as int, false);
            }
            return LoadOutcome::Missing(kept);
        }
        r.needed_commits = kept;
        self.repos.insert(i, r);
        proof {
            let nr = repo_view(r);
            assert(nr == with_commits(done, unloaded(r0.needed, loaded@), r0.missing));
            assert(self.repos_view() =~= rs0.update(i as int, nr));
            lemma_running_update(rs0, i as int, nr);
            self.lemma_other_repos_kept(rs0, fq0, lq0, i as int, false);
        }
        let ghost rs1 = self.repos_view();
        self.fetch_repo(i);
        proof {
            assert(self.repos_view() =~= rs0.update(i as int, after_fetch_request(rs1[i as int])));
        }
        LoadOutcome::FetchRequested
    }

    /// What the invariant needs after one repository, whose load just
    /// stopped, was replaced: the queues still fit the repositories.
    proof fn lemma_other_repos_kept(
        &self,
        rs0: Seq<RepoView>,
        fq0: Seq<usize>,
        lq0: Seq<usize>,
        i: int,
        pushed: bool,
    )
        requires
            0 <= i < rs0.len(),
            rs0.len() <= usize::MAX,
            0 < self.max_threads(),
            self.repos_view().len() == rs0.len(),
            self.ongoing() == running_jobs(self.repos_view()),
            self.ongoing() <= self.max_threads(),
            no_dups(fq0),
            no_dups(lq0),
            rs0[i].load_running,
            loading_in_progress(rs0[i].loading),
            forall|k: int|
                0 <= k < fq0.len() ==> #[trigger] fq0[k] < rs0.len() && rs0[fq0[k] as int].fetch_state
                    == RepoFetcherState::Queued,
            forall|j: int|
                0 <= j < rs0.len() && rs0[j].fetch_state == RepoFetcherState::Queued ==> fq0.contains(
                    j as usize,
                ),
            forall|k: int|
                0 <= k < lq0.len() ==> #[trigger] lq0[k] < rs0.len() && loading_in_progress(
                    rs0[lq0[k] as int].loading,
                ) && !rs0[lq0[k] as int].load_running,
            forall|j: int| 0 <= j < rs0.len() ==> repo_ok(#[trigger] rs0[j]),
            forall|j: int| 0 <= j < rs0.len() && j != i ==> self.repos_view()[j] == rs0[j],
            self.repos_view()[i].fetch_state == rs0[i].fetch_state,
            !self.repos_view()[i].load_running,
            self.repos_view()[i].fetch_running == rs0[i].fetch_running,
            pushed ==> loading_in_progress(self.repos_view()[i].loading),
            self.fetch_queue() == fq0,
            self.load_queue() == if pushed {
                lq0.push(i as usize)
            } else {
                lq0
            },
            repo_ok(self.repos_view()[i]),
        ensures
            self.wf(),
    {
        let rs = self.repos_view();
        let lq = self.load_queue();
        assert(forall|k: int| 0 <= k < lq0.len() ==> lq0[k] != i);
        if pushed {
            assert forall|a: int, b: int| 0 <= a < b < lq.len() implies lq[a] != lq[b] by {
                if b == lq.len() - 1 {
                    assert(lq[a] == lq0[a]);
                } else {
                    assert(lq[a] == lq0[a] && lq[b] == lq0[b]);
                }
            };
        }
        assert forall|k: int| 0 <= k < lq.len() implies #[trigger] lq[k] < rs.len()
            && loading_in_progress(rs[lq[k] as int].loading) && !rs[lq[k] as int].load_running by {
            if k < lq0.len() {
                assert(lq[k] == lq0[k]);
            }
        };
        assert forall|k: int| 0 <= k < fq0.len() implies #[trigger] fq0[k] < rs.len()
            && rs[fq0[k] as int].fetch_state == RepoFetcherState::Queued by {
            if fq0[k] as int != i {
                assert(rs[fq0[k] as int] == rs0[fq0[k] as int]);
            }
        };
        assert forall|j: int|
            0 <= j < rs.len() && rs[j].fetch_state == RepoFetcherState::Queued implies fq0.contains(
            j as usize,
        ) by {
            if j != i {
                assert(rs[j] == rs0[j]);
            }
        };
        assert forall|j: int| 0 <= j < rs.len() implies repo_ok(#[trigger] rs[j]) by {
            if j != i {
                assert(rs[j] == rs0[j]);
            }
        };
    }

    /// A commit of the repository is needed; `loaded` says whether it is
    /// loaded already. A loaded commit, one known to be missing and one of a
    /// disabled repository need nothing. Otherwise the commit waits as
    /// needed: a repository not loaded yet is loaded, a loaded one that was
    /// not fetched is fetched when missing commits are fetched, and in a
    /// loaded repository that was fetched the commit is missing.
    pub fn ensure_commit_available(&mut self, i: usize, commit_id: &[u8], loaded: bool) -> (outcome:
        NeedOutcome)
        requires
            old(self).wf(),
            i < old(self).repos_view().len(),
        ensures
            final(self).wf(),
            final(self).ongoing() == old(self).ongoing(),
            final(self).max_threads() == old(self).max_threads(),
            final(self).loads_after_fetch() == old(self).loads_after_fetch(),
            final(self).fetches_missing() == old(self).fetches_missing(),
            ({
                let rs = old(self).repos_view();
                let fq = old(self).fetch_queue();
                let lq = old(self).load_queue();
                let r0 = rs[i as int];
                let nr = final(self).repos_view()[i as int];
                let with_needed = with_commits(r0, nr.needed, r0.missing);
                let needed_added = forall|y: Seq<u8>|
                    #[trigger] nr.needed.contains(y) <==> (r0.needed.contains(y) || y == commit_id@);
                if loaded || r0.missing.contains(commit_id@) {
                    &&& outcome == NeedOutcome::Available
                    &&& final(self).repos_view() == rs
                    &&& final(self).fetch_queue() == fq
                    &&& final(self).load_queue() == lq
                } else if !r0.enabled {
                    &&& outcome == NeedOutcome::Disabled
                    &&& final(self).repos_view() == rs
                    &&& final(self).fetch_queue() == fq
                    &&& final(self).load_queue() == lq
                } else if r0.loading == LoadRepoState::Done && r0.fetch_state
                    == RepoFetcherState::Done {
                    &&& outcome == NeedOutcome::Missing
                    &&& final(self).repos_view() == rs.update(
                        i as int,
                        with_commits(r0, r0.needed, nr.missing),
                    )
                    &&& forall|y: Seq<u8>|
                        #[trigger] nr.missing.contains(y) <==> (r0.missing.contains(y) || y
                            == commit_id@)
                    &&& final(self).fetch_queue() == fq
                    &&& final(self).load_queue() == lq
                } else if r0.loading == LoadRepoState::NotLoadedYet {
                    &&& outcome == NeedOutcome::Needed
                    &&& needed_added
                    &&& final(self).repos_view() == rs.update(
                        i as int,
                        after_load_request(with_needed),
                    )
                    &&& final(self).fetch_queue() == fq
                    &&& final(self).load_queue() == lq.push(i)
                } else if r0.loading == LoadRepoState::Done && old(self).fetches_missing() {
                    &&& outcome == NeedOutcome::Needed
                    &&& needed_added
                    &&& final(self).repos_view() == rs.update(
                        i as int,
                        after_fetch_request(with_needed),
                    )
                    &&& final(self).fetch_queue() == if fetch_request_queues(with_needed) {
                        fq.push(i)
                    } else {
                        fq
                    }
                    &&& final(self).load_queue() == lq
                } else {
                    &&& outcome == NeedOutcome::Needed
                    &&& needed_added
                    &&& final(self).repos_view() == rs.update(i as int, with_needed)
                    &&& final(self).fetch_queue() == fq
                    &&& final(self).load_queue() == lq
                }
            }),
    {
        let ghost rs0 = self.repos_view();
        let ghost r0 = rs0[i as int];
        proof {
            assert(r0 == repo_view(self.repos@[i as int]));
        }
        if loaded || contains_bytes(&self.repos[i].missing_commits, commit_id) {
            return NeedOutcome::Available;
        }
        if !self.repos[i].enabled {
            return NeedOutcome::Disabled;
        }
        let mut r = self.repos.remove(i);
        let state = r.loading;
        if state == LoadRepoState::Done && r.fetch_state == RepoFetcherState::Done {
            insert_sorted_unique(&mut r.missing_commits, commit_id);
            self.repos.insert(i, r);
            proof {
                let nr = repo_view(r);
                assert(self.repos_view() =~= rs0.update(i as int, nr));
                lemma_commits_only(
                    rs0,
                    self.fetch_queue(),
                    self.load_queue(),
                    self.ongoing(),
                    self.max_threads(),
                    i as int,
                    nr,
                );
                assert(self.repos_view()[i as int] == nr);
            }
            return NeedOutcome::Missing;
        }
        insert_sorted_unique(&mut r.needed_commits, commit_id);
        self.repos.insert(i, r);
        let ghost nr = repo_view(r);
        proof {
            assert(self.repos_view() =~= rs0.update(i as int, nr));
            lemma_commits_only(
                rs0,
                self.fetch_queue(),
                self.load_queue(),
                self.ongoing(),
                self.max_threads(),
                i as int,
                nr,
            );
        }
        let ghost rs1 = self.repos_view();
        if state == LoadRepoState::NotLoadedYet {
            self.load_repo(i);
            proof {
                assert(self.repos_view() =~= rs0.update(i as int, after_load_request(nr)));
                assert(self.repos_view()[i as int].needed == nr.needed);
            }
        } else if state == LoadRepoState::Done && self.fetch_missing_commits {
            self.fetch_repo(i);
            proof {
                assert(self.repos_view() =~= rs0.update(i as int, after_fetch_request(nr)));
                assert(self.repos_view()[i as int].needed == nr.needed);
            }
        } else {
            proof {
                assert(self.repos_view()[i as int] == nr);
            }
        }
        NeedOutcome::Needed
    }

    /// The number of repositories.
    pub fn len(&self) -> (r: usize)
        ensures
            r == self.repos_view().len(),
    {
        proof {
            assert(self.repos_view().len() == self.repos@.len());
        }
        self.repos.len()
    }

    /// The repository at `i`.
    pub fn repo(&self, i: usize) -> (r: &RepoFetcher)
        requires
            i < self.repos_view().len(),
        ensures
            repo_view(*r) == self.repos_view()[i as int],
    {
        proof {
            assert(self.repos_view()[i as int] == repo_view(self.repos@[i as int]));
        }
        &self.repos[i]
    }
}

} // verus!
