//! The search for where a commit of a subrepo stands in the monorepo
//! history: a walk through the monorepo commits that hold the submodule,
//! newest first and depth first, that either finds a monorepo commit holding
//! exactly that subrepo commit, or the monorepo commits whose submodule is
//! older than it, from which the subrepo history is followed further.
use crate::git::bytes_eq;
use crate::git::bytes_to_vec;
use crate::git::GitPath;
use crate::mono::graph_ok;
use crate::mono::known_repo;
use crate::mono::lemma_next_commits_in_range;
use crate::mono::last_bumps;
use crate::mono::mono_parents_of;
use crate::mono::spec_get_some_submodule;
use crate::mono::ExpandedSubmodule;
use crate::mono::ExpandedView;
use crate::mono::SubmoduleContent;
use crate::mono::MonoCommitView;
use crate::mono::MonoRepoGraph;
use crate::mono::MonoRepoParent;
use crate::mono::OriginalSubmodParent;
use crate::mono::ParentView;
use crate::mono::parents_view;
use crate::mono::parent_view;
use crate::recombine::find_name;
use crate::recombine::find_name_exec;
use crate::recombine::names_of;
use crate::recombine::vec_names;
use crate::repo_name::SubRepoName;
use crate::text::chars_eq;
use crate::text::chars_of;
use vstd::prelude::*;
use vstd::set_lib::lemma_int_range;
use vstd::set_lib::lemma_len_subset;
use vstd::set_lib::set_int_range;

verus! {

/// What the expansion knows of a subrepo: whether the configuration leaves
/// it enabled, and, when its commits are loaded, each commit's id and depth.
/// A subrepo that is not listed is enabled and has no commits loaded.
pub struct SubRepoCommits {
    pub name: SubRepoName,
    pub enabled: bool,
    pub loaded: Option<Vec<(Vec<u8>, usize)>>,
}

pub struct SubRepoCommitsView {
    pub name: Seq<char>,
    pub enabled: bool,
    pub loaded: Option<Seq<(Seq<u8>, usize)>>,
}

pub open spec fn sub_view(s: SubRepoCommits) -> SubRepoCommitsView {
    SubRepoCommitsView {
        name: s.name@,
        enabled: s.enabled,
        loaded: match s.loaded {
            Some(v) => Some(v@.map_values(|e: (Vec<u8>, usize)| (e.0@, e.1))),
            None => None,
        },
    }
}

pub open spec fn subs_view(s: Seq<SubRepoCommits>) -> Seq<SubRepoCommitsView> {
    s.map_values(|e: SubRepoCommits| sub_view(e))
}

/// The index of the first subrepo named `name`.
pub open spec fn find_sub(subs: Seq<SubRepoCommitsView>, name: Seq<char>) -> Option<int>
    decreases subs.len(),
{
    if subs.len() == 0 {
        None
    } else {
        match find_sub(subs.drop_last(), name) {
            Some(i) => Some(i),
            None => if subs.last().name == name {
                Some(subs.len() - 1)
            } else {
                None
            },
        }
    }
}

/// The subrepo is enabled: it is not listed, or listed as enabled.
pub open spec fn sub_enabled(subs: Seq<SubRepoCommitsView>, name: Seq<char>) -> bool {
    match find_sub(subs, name) {
        Some(i) => subs[i].enabled,
        None => true,
    }
}

/// The depth of the commit `id` among the loaded commits of the subrepo:
/// `None` when its commits are not loaded, `Some(None)` when the commit is
/// not among them.
pub open spec fn loaded_depth(subs: Seq<SubRepoCommitsView>, name: Seq<char>, id: Seq<u8>) -> Option<
    Option<usize>,
> {
    match find_sub(subs, name) {
        Some(i) => match subs[i].loaded {
            Some(cs) => Some(
                match find_name(names_of(cs), id) {
                    Some(j) => Some(cs[j].1),
                    None => None,
                },
            ),
            None => None,
        },
        None => None,
    }
}

/// The subrepo commit that a submodule holds, when its subrepo is known.
pub open spec fn known_commit(e: ExpandedView) -> Option<Seq<u8>> {
    match e {
        ExpandedView::Expanded(c) => Some(c.orig_commit_id),
        ExpandedView::CommitMissingInSubRepo(c) => Some(c.orig_commit_id),
        ExpandedView::RegressedNotFullyImplemented(c) => Some(c.orig_commit_id),
        _ => None,
    }
}

/// What is sought: the subrepo commit `wanted_id`, of depth `wanted_depth`,
/// of the subrepo `name` at `path`.
pub struct InjectQuery {
    pub path: Seq<u8>,
    pub name: Seq<char>,
    pub wanted_id: Seq<u8>,
    pub wanted_depth: int,
}

/// What the walk does at a monorepo commit.
pub enum Visit {
    /// The commit holds the wanted subrepo commit.
    Found,
    /// The submodule is missing or its subrepo disabled: the walk goes no
    /// further on this line.
    Skip,
    /// The submodule holds a loaded commit older than the wanted one: the
    /// commit is kept to follow the subrepo history from.
    Pause,
    /// The walk goes on to the parents of the commits that last changed the
    /// submodule.
    Parents,
}

pub open spec fn visit(g: Seq<MonoCommitView>, subs: Seq<SubRepoCommitsView>, q: InjectQuery, m: int) -> Visit {
    match spec_get_some_submodule(g, m, q.path, q.name) {
        None => Visit::Skip,
        Some(e) => match (known_repo(e), known_commit(e)) {
            (Some(repo), Some(id)) => if !sub_enabled(subs, repo) {
                Visit::Skip
            } else {
                match loaded_depth(subs, repo, id) {
                    Some(Some(d)) => if id == q.wanted_id {
                        Visit::Found
                    } else if d < q.wanted_depth {
                        Visit::Pause
                    } else {
                        Visit::Parents
                    },
                    _ => Visit::Parents,
                }
            },
            _ => Visit::Parents,
        },
    }
}

/// The next monorepo commits to walk to from `m`.
pub open spec fn next_commits(g: Seq<MonoCommitView>, q: InjectQuery, m: int) -> Seq<int> {
    mono_parents_of(g, last_bumps(g, m, q.path))
}

pub enum SearchEnd {
    Found(int),
    Exhausted(Seq<int>),
}

/// The walk's state holds commits of the graph only.
pub open spec fn search_inv(n: int, todo: Seq<int>, visited: Set<int>) -> bool {
    &&& visited.finite()
    &&& forall|x: int| visited.contains(x) ==> 0 <= x < n
    &&& forall|i: int| 0 <= i < todo.len() ==> 0 <= #[trigger] todo[i] < n
}

/// The depth-first walk: `todo` is a stack whose last commit is taken next,
/// each commit is looked at once, and the parents to walk to are pushed so
/// that the first of them is taken first. Ends at the first commit found, or
/// with the commits kept to follow the subrepo history from.
pub open spec fn search(
    g: Seq<MonoCommitView>,
    subs: Seq<SubRepoCommitsView>,
    q: InjectQuery,
    todo: Seq<int>,
    visited: Set<int>,
    next: Seq<int>,
) -> SearchEnd
    decreases g.len() - visited.len(), todo.len(),
    when search_inv(g.len() as int, todo, visited)
{
    if todo.len() == 0 {
        SearchEnd::Exhausted(next)
    } else {
        let m = todo.last();
        let rest = todo.drop_last();
        if visited.contains(m) {
            search(g, subs, q, rest, visited, next)
        } else {
            proof {
                lemma_visit_one_more(g.len() as int, visited, m);
            }
            let v2 = visited.insert(m);
            match visit(g, subs, q, m) {
                Visit::Found => SearchEnd::Found(m),
                Visit::Skip => search(g, subs, q, rest, v2, next),
                Visit::Pause => search(g, subs, q, rest, v2, next.push(m)),
                Visit::Parents => search(
                    g,
                    subs,
                    q,
                    rest + next_commits(g, q, m).reverse(),
                    v2,
                    next,
                ),
            }
        }
    }
}

/// Marking one more commit of the graph as looked at leaves fewer to look at.
pub proof fn lemma_visit_one_more(n: int, visited: Set<int>, m: int)
    requires
        visited.finite(),
        forall|x: int| visited.contains(x) ==> 0 <= x < n,
        0 <= m < n,
        !visited.contains(m),
    ensures
        visited.insert(m).finite(),
        visited.insert(m).len() == visited.len() + 1,
        visited.insert(m).len() <= n,
{
    lemma_int_range(0, n);
    assert(visited.insert(m).subset_of(set_int_range(0, n)));
    lemma_len_subset(visited.insert(m), set_int_range(0, n));
}

/// Where the search ends.
#[derive(Debug, PartialEq, Eq)]
pub enum InjectSearch {
    /// The monorepo commit `at` holds the wanted subrepo commit; `oldest` is
    /// the first of the commits that last changed the submodule on its lines
    /// of history, the one to use to inject at the oldest monorepo commit.
    Found { at: usize, oldest: Option<usize> },
    /// The wanted commit was not met, but these monorepo commits hold older
    /// commits of the subrepo: the parents of the wanted commit are sought
    /// from them.
    Deeper(Vec<usize>),
    /// The wanted commit is not in the history.
    NotFound,
}

pub enum InjectSearchView {
    Found { at: int, oldest: Option<int> },
    Deeper(Seq<int>),
    NotFound,
}

pub open spec fn idx(s: Seq<usize>) -> Seq<int> {
    s.map_values(|x: usize| x as int)
}

pub open spec fn inject_search_view(r: InjectSearch) -> InjectSearchView {
    match r {
        InjectSearch::Found { at, oldest } => InjectSearchView::Found {
            at: at as int,
            oldest: match oldest {
                Some(o) => Some(o as int),
                None => None,
            },
        },
        InjectSearch::Deeper(v) => InjectSearchView::Deeper(idx(v@)),
        InjectSearch::NotFound => InjectSearchView::NotFound,
    }
}

/// The search from the monorepo commits `starts`, the first of them walked
/// first.
pub open spec fn spec_inject_search(
    g: Seq<MonoCommitView>,
    subs: Seq<SubRepoCommitsView>,
    q: InjectQuery,
    starts: Seq<int>,
) -> InjectSearchView {
    match search(g, subs, q, starts.reverse(), Set::empty(), Seq::empty()) {
        SearchEnd::Found(m) => InjectSearchView::Found {
            at: m,
            oldest: if last_bumps(g, m, q.path).len() > 0 {
                Some(last_bumps(g, m, q.path)[0])
            } else {
                None
            },
        },
        SearchEnd::Exhausted(next) => if next.len() == 0 {
            InjectSearchView::NotFound
        } else {
            InjectSearchView::Deeper(next)
        },
    }
}

/// A subrepo found among the first ones is found there among all of them.
proof fn lemma_find_sub_prefix(subs: Seq<SubRepoCommitsView>, name: Seq<char>, k: int)
    requires
        0 <= k <= subs.len(),
        find_sub(subs.take(k), name) is Some,
    ensures
        find_sub(subs, name) == find_sub(subs.take(k), name),
    decreases subs.len() - k,
{
    if k < subs.len() {
        assert(subs.take(k + 1).drop_last() =~= subs.take(k));
        lemma_find_sub_prefix(subs, name, k + 1);
    } else {
        assert(subs.take(k) =~= subs);
    }
}

proof fn lemma_find_sub_some(subs: Seq<SubRepoCommitsView>, name: Seq<char>)
    ensures
        find_sub(subs, name) matches Some(i) ==> 0 <= i < subs.len() && subs[i].name == name,
    decreases subs.len(),
{
    if subs.len() > 0 {
        lemma_find_sub_some(subs.drop_last(), name);
    }
}

fn find_sub_exec(subs: &Vec<SubRepoCommits>, name: &SubRepoName) -> (r: Option<usize>)
    ensures
        match r {
            Some(i) => find_sub(subs_view(subs@), name@) == Some(i as int),
            None => find_sub(subs_view(subs@), name@) is None,
        },
{
    let ghost sv = subs_view(subs@);
    proof {
        lemma_find_sub_some(sv, name@);
    }
    let wanted = chars_of(name.as_str());
    let mut i: usize = 0;
    while i < subs.len()
        invariant
            i <= subs@.len(),
            sv == subs_view(subs@),
            wanted@ == name@,
            find_sub(sv.take(i as int), name@) is None,
        decreases subs.len() - i,
    {
        assert(sv.take(i + 1).drop_last() =~= sv.take(i as int));
        assert(sv[i as int].name == subs@[i as int].name@);
        if chars_eq(&chars_of(subs[i].name.as_str()), &wanted) {
            proof {
                lemma_find_sub_prefix(sv, name@, i as int + 1);
            }
            return Some(i);
        }
        i = i + 1;
    }
    assert(sv.take(subs@.len() as int) =~= sv);
    None
}

fn known_content(e: &ExpandedSubmodule) -> (r: Option<&SubmoduleContent>)
    ensures
        match r {
            Some(c) => known_repo(crate::mono::expanded_view(*e)) == Some(c.repo_name@)
                && known_commit(crate::mono::expanded_view(*e)) == Some(c.orig_commit_id@),
            None => known_repo(crate::mono::expanded_view(*e)) is None,
        },
{
    match e {
        ExpandedSubmodule::Expanded(c) => Some(c),
        ExpandedSubmodule::CommitMissingInSubRepo(c) => Some(c),
        ExpandedSubmodule::RegressedNotFullyImplemented(c) => Some(c),
        _ => None,
    }
}

fn visit_exec(
    mono: &MonoRepoGraph,
    subs: &Vec<SubRepoCommits>,
    path: &GitPath,
    repo: &SubRepoName,
    wanted_id: &[u8],
    wanted_depth: usize,
    m: usize,
) -> (v: Visit)
    requires
        mono.wf(),
    ensures
        v == visit(
            mono.view_commits(),
            subs_view(subs@),
            InjectQuery {
                path: path@,
                name: repo@,
                wanted_id: wanted_id@,
                wanted_depth: wanted_depth as int,
            },
            m as int,
        ),
{
    let e = match mono.get_some_submodule(m, path, repo) {
        None => {
            return Visit::Skip;
        },
        Some(e) => e,
    };
    let c = match known_content(&e) {
        None => {
            return Visit::Parents;
        },
        Some(c) => c,
    };
    let ghost sv = subs_view(subs@);
    let i = match find_sub_exec(subs, &c.repo_name) {
        None => {
            return Visit::Parents;
        },
        Some(i) => i,
    };
    proof {
        lemma_find_sub_some(sv, c.repo_name@);
    }
    assert(sv[i as int] == sub_view(subs@[i as int]));
    if !subs[i].enabled {
        return Visit::Skip;
    }
    match &subs[i].loaded {
        None => Visit::Parents,
        Some(cs) => {
            let ghost lv = cs@.map_values(|e: (Vec<u8>, usize)| (e.0@, e.1));
            assert(sv[i as int].loaded == Some(lv));
            assert(names_of(lv) =~= vec_names(cs@));
            match find_name_exec(cs, c.orig_commit_id.as_slice()) {
                None => Visit::Parents,
                Some(j) => {
                    assert(lv[j as int].1 == cs@[j as int].1);
                    let d = cs[j].1;
                    if bytes_eq(c.orig_commit_id.as_slice(), wanted_id) {
                        Visit::Found
                    } else if d < wanted_depth {
                        Visit::Pause
                    } else {
                        Visit::Parents
                    }
                },
            }
        },
    }
}

/// Pushes `items` onto `todo` last first, so that the first of them is
/// taken first.
fn push_reversed(todo: &mut Vec<usize>, items: &Vec<usize>)
    ensures
        idx(final(todo)@) == idx(old(todo)@) + idx(items@).reverse(),
{
    let ghost base = idx(todo@);
    let ghost rv = idx(items@).reverse();
    let mut k: usize = items.len();
    while k > 0
        invariant
            k <= items@.len(),
            rv == idx(items@).reverse(),
            idx(todo@) == base + rv.take(items@.len() - k),
        decreases k,
    {
        k = k - 1;
        let ghost before = idx(todo@);
        todo.push(items[k]);
        assert(idx(todo@) =~= before.push(items@[k as int] as int));
        assert(rv.len() == items@.len());
        assert(rv[items@.len() - 1 - k] == items@[k as int] as int);
        assert(idx(todo@) =~= base + rv.take(items@.len() - k));
    }
    assert(rv.take(items@.len() as int) =~= rv);
}

/// Looks for where the subrepo commit `wanted_id`, of depth `wanted_depth`,
/// of the subrepo `repo` at `path`, stands in the monorepo history, walking
/// from the monorepo commits `possible_parents`, the first of them first.
/// Each monorepo commit is looked at once, depth first; the walk follows the
/// parents of the commits that last changed the submodule, and stops on a
/// line where the submodule is missing, its subrepo disabled, or holds a
/// loaded commit older than the wanted one (such commits are kept).
pub fn search_injection_point(
    mono: &MonoRepoGraph,
    subs: &Vec<SubRepoCommits>,
    possible_parents: &Vec<usize>,
    path: &GitPath,
    repo: &SubRepoName,
    wanted_id: &[u8],
    wanted_depth: usize,
) -> (r: InjectSearch)
    requires
        mono.wf(),
        forall|i: int|
            0 <= i < possible_parents@.len() ==> #[trigger] possible_parents@[i]
                < mono.view_commits().len(),
    ensures
        inject_search_view(r) == spec_inject_search(
            mono.view_commits(),
            subs_view(subs@),
            InjectQuery {
                path: path@,
                name: repo@,
                wanted_id: wanted_id@,
                wanted_depth: wanted_depth as int,
            },
            idx(possible_parents@),
        ),
{
    let ghost g = mono.view_commits();
    let ghost sv = subs_view(subs@);
    let ghost q = InjectQuery {
        path: path@,
        name: repo@,
        wanted_id: wanted_id@,
        wanted_depth: wanted_depth as int,
    };
    let n = mono.len();
    let mut marks: Vec<bool> = Vec::new();
    let mut k: usize = 0;
    while k < n
        invariant
            k <= n,
            marks@.len() == k,
            forall|x: int| 0 <= x < k ==> !marks@[x],
        decreases n - k,
    {
        marks.push(false);
        k = k + 1;
    }
    let mut todo: Vec<usize> = Vec::new();
    push_reversed(&mut todo, possible_parents);
    assert(idx(todo@) =~= idx(possible_parents@).reverse());
    let mut next: Vec<usize> = Vec::new();
    let ghost mut visited: Set<int> = Set::empty();
    let ghost target = search(g, sv, q, idx(todo@), visited, idx(next@));
    assert(idx(next@) =~= Seq::<int>::empty());
    assert(forall|i: int|
        0 <= i < idx(todo@).len() ==> 0 <= #[trigger] idx(todo@)[i] < n) by {
        assert forall|i: int| 0 <= i < idx(todo@).len() implies 0 <= #[trigger] idx(todo@)[i] < n by {
            let pp = idx(possible_parents@);
            assert(idx(todo@)[i] == pp[pp.len() - 1 - i]);
            assert(possible_parents@[pp.len() - 1 - i] < n);
        };
    };
    while todo.len() > 0
        invariant
            g == mono.view_commits(),
            mono.wf(),
            sv == subs_view(subs@),
            q == (InjectQuery {
                path: path@,
                name: repo@,
                wanted_id: wanted_id@,
                wanted_depth: wanted_depth as int,
            }),
            n == g.len(),
            marks@.len() == n,
            forall|x: int| 0 <= x < n ==> (marks@[x] <==> visited.contains(x)),
            search_inv(n as int, idx(todo@), visited),
            search(g, sv, q, idx(todo@), visited, idx(next@)) == target,
            target == search(
                g,
                sv,
                q,
                idx(possible_parents@).reverse(),
                Set::empty(),
                Seq::empty(),
            ),
        decreases n - visited.len(), todo@.len(),
    {
        let ghost t0 = idx(todo@);
        let m = match todo.pop() {
            Some(m) => m,
            None => {
                return InjectSearch::NotFound;
            },
        };
        assert(idx(todo@) =~= t0.drop_last());
        assert(m as int == t0.last());
        if marks[m] {
            continue;
        }
        let ghost v0 = visited;
        marks.set(m, true);
        proof {
            lemma_visit_one_more(n as int, visited, m as int);
            visited = visited.insert(m as int);
        }
        match visit_exec(mono, subs, path, repo, wanted_id, wanted_depth, m) {
            Visit::Found => {
                assert(search(g, sv, q, t0, v0, idx(next@)) == SearchEnd::Found(m as int));
                let b = mono.get_bumps(m, path);
                let oldest = if b.len() > 0 {
                    assert(b@.map_values(|x: usize| x as int)[0] == b@[0] as int);
                    Some(b[0])
                } else {
                    None
                };
                return InjectSearch::Found { at: m, oldest };
            },
            Visit::Skip => {},
            Visit::Pause => {
                let ghost n0 = idx(next@);
                next.push(m);
                assert(idx(next@) =~= n0.push(m as int));
            },
            Visit::Parents => {
                let ps = mono.get_parents_of_last_bumps(m, path);
                assert(idx(ps@) =~= next_commits(g, q, m as int));
                let ghost rest = idx(todo@);
                push_reversed(&mut todo, &ps);
                assert forall|i: int| 0 <= i < idx(todo@).len() implies 0 <= #[trigger] idx(
                    todo@,
                )[i] < n by {
                    if i >= rest.len() {
                        let j = i - rest.len();
                        let pv = idx(ps@);
                        assert(idx(todo@)[i] == pv.reverse()[j]);
                        assert(pv.reverse()[j] == pv[pv.len() - 1 - j]);
                        assert(ps@[pv.len() - 1 - j] < n);
                    } else {
                        assert(idx(todo@)[i] == rest[i]);
                    }
                };
            },
        }
    }
    if next.len() == 0 {
        InjectSearch::NotFound
    } else {
        InjectSearch::Deeper(next)
    }
}

/// Every commit the walk ends at is one that it looked at and found, or kept.
proof fn lemma_search_ends(
    g: Seq<MonoCommitView>,
    subs: Seq<SubRepoCommitsView>,
    q: InjectQuery,
    todo: Seq<int>,
    visited: Set<int>,
    next: Seq<int>,
)
    requires
        graph_ok(g),
        search_inv(g.len() as int, todo, visited),
        forall|i: int|
            0 <= i < next.len() ==> 0 <= #[trigger] next[i] < g.len() && visit(g, subs, q, next[i])
                == Visit::Pause,
    ensures
        match search(g, subs, q, todo, visited, next) {
            SearchEnd::Found(m) => 0 <= m < g.len() && visit(g, subs, q, m) == Visit::Found,
            SearchEnd::Exhausted(nx) => forall|i: int|
                0 <= i < nx.len() ==> 0 <= #[trigger] nx[i] < g.len() && visit(g, subs, q, nx[i])
                    == Visit::Pause,
        },
    decreases g.len() - visited.len(), todo.len(),
{
    if todo.len() > 0 {
        let m = todo.last();
        let rest = todo.drop_last();
        assert(m == todo[todo.len() - 1]);
        assert forall|i: int| 0 <= i < rest.len() implies 0 <= #[trigger] rest[i] < g.len() by {
            assert(rest[i] == todo[i]);
        };
        if visited.contains(m) {
            lemma_search_ends(g, subs, q, rest, visited, next);
        } else {
            lemma_visit_one_more(g.len() as int, visited, m);
            let v2 = visited.insert(m);
            match visit(g, subs, q, m) {
                Visit::Found => {},
                Visit::Skip => {
                    lemma_search_ends(g, subs, q, rest, v2, next);
                },
                Visit::Pause => {
                    assert forall|i: int| 0 <= i < next.push(m).len() implies 0 <= #[trigger] next.push(
                        m,
                    )[i] < g.len() && visit(g, subs, q, next.push(m)[i]) == Visit::Pause by {
                        if i < next.len() {
                            assert(next.push(m)[i] == next[i]);
                        }
                    };
                    lemma_search_ends(g, subs, q, rest, v2, next.push(m));
                },
                Visit::Parents => {
                    lemma_next_commits_in_range(g, m, q.path);
                    let pr = next_commits(g, q, m).reverse();
                    let t2 = rest + pr;
                    assert forall|i: int| 0 <= i < t2.len() implies 0 <= #[trigger] t2[i] < g.len() by {
                        if i < rest.len() {
                            assert(t2[i] == rest[i]);
                        } else {
                            let j = i - rest.len();
                            let nc = next_commits(g, q, m);
                            assert(t2[i] == pr[j]);
                            assert(pr[j] == nc[nc.len() - 1 - j]);
                        }
                    };
                    lemma_search_ends(g, subs, q, t2, v2, next);
                },
            }
        }
    }
}

/// The search ends at a monorepo commit that holds, at the path, a submodule
/// of an enabled subrepo with exactly the wanted subrepo commit, loaded; or
/// at monorepo commits each holding there a loaded commit of an enabled
/// subrepo that is older than the wanted one.
pub proof fn law_search_finds_wanted_commit(
    g: Seq<MonoCommitView>,
    subs: Seq<SubRepoCommitsView>,
    q: InjectQuery,
    starts: Seq<int>,
)
    requires
        graph_ok(g),
        forall|i: int| 0 <= i < starts.len() ==> 0 <= #[trigger] starts[i] < g.len(),
    ensures
        spec_inject_search(g, subs, q, starts) matches InjectSearchView::Found { at, .. } ==> {
            &&& 0 <= at < g.len()
            &&& spec_get_some_submodule(g, at, q.path, q.name) matches Some(e)
            &&& known_repo(e) matches Some(repo)
            &&& sub_enabled(subs, repo)
            &&& known_commit(e) == Some(q.wanted_id)
            &&& loaded_depth(subs, repo, q.wanted_id) matches Some(Some(_))
        },
        spec_inject_search(g, subs, q, starts) matches InjectSearchView::Deeper(kept) ==> forall|i: int|
            0 <= i < kept.len() ==> {
                &&& 0 <= #[trigger] kept[i] < g.len()
                &&& spec_get_some_submodule(g, kept[i], q.path, q.name) matches Some(e)
                &&& known_repo(e) matches Some(repo)
                &&& sub_enabled(subs, repo)
                &&& known_commit(e) matches Some(id)
                &&& loaded_depth(subs, repo, id) matches Some(Some(d))
                &&& d < q.wanted_depth
            },
{
    let todo = starts.reverse();
    assert forall|i: int| 0 <= i < todo.len() implies 0 <= #[trigger] todo[i] < g.len() by {
        assert(todo[i] == starts[starts.len() - 1 - i]);
    };
    lemma_search_ends(g, subs, q, todo, Set::empty(), Seq::empty());
}

/// The parents of a monorepo commit that injects a subrepo commit, from what
/// was found for each parent of the subrepo commit: the monorepo commit it
/// stands as, or else the subrepo commit itself at `path`.
pub open spec fn spec_injected_parents(found: Seq<Option<usize>>, parent_ids: Seq<Seq<u8>>, path: Seq<u8>) -> Seq<
    ParentView,
> {
    Seq::new(
        found.len(),
        |i: int|
            match found[i] {
                Some(m) => ParentView::Mono(m as int),
                None => ParentView::OriginalSubmod { path, commit_id: parent_ids[i] },
            },
    )
}

/// The parents of the monorepo commit that injects a subrepo commit, given,
/// for each parent of the subrepo commit in order, the monorepo commit it was
/// found as, if any, and its id: found ones are parents in the monorepo, the
/// others stay subrepo commits at `path`. `None` when no parent was found,
/// and the subrepo commit is not injected.
pub fn injected_parents(found: &Vec<Option<usize>>, parent_ids: &Vec<Vec<u8>>, path: &GitPath) -> (r:
    Option<Vec<MonoRepoParent>>)
    requires
        found@.len() == parent_ids@.len(),
    ensures
        r is Some <==> exists|i: int| 0 <= i < found@.len() && (#[trigger] found@[i]) is Some,
        r matches Some(ps) ==> parents_view(ps@) == spec_injected_parents(
            found@,
            parent_ids@.map_values(|v: Vec<u8>| v@),
            path@,
        ),
{
    let ghost want = spec_injected_parents(found@, parent_ids@.map_values(|v: Vec<u8>| v@), path@);
    let mut ps: Vec<MonoRepoParent> = Vec::new();
    let mut any = false;
    let mut i: usize = 0;
    while i < found.len()
        invariant
            i <= found@.len(),
            found@.len() == parent_ids@.len(),
            want == spec_injected_parents(found@, parent_ids@.map_values(|v: Vec<u8>| v@), path@),
            parents_view(ps@) == want.take(i as int),
            any <==> exists|k: int| 0 <= k < i && (#[trigger] found@[k]) is Some,
        decreases found.len() - i,
    {
        let ghost before = parents_view(ps@);
        match found[i] {
            Some(m) => {
                ps.push(MonoRepoParent::Mono(m));
                any = true;
            },
            None => {
                ps.push(
                    MonoRepoParent::OriginalSubmod(
                        OriginalSubmodParent {
                            path: path.duplicate(),
                            commit_id: bytes_to_vec(parent_ids[i].as_slice()),
                        },
                    ),
                );
            },
        }
        assert(parents_view(ps@) =~= before.push(parent_view(ps@[i as int])));
        assert(parent_view(ps@[i as int]) == want[i as int]);
        assert(parents_view(ps@) =~= want.take(i + 1));
        i = i + 1;
    }
    assert(want.take(found@.len() as int) =~= want);
    if any {
        Some(ps)
    } else {
        None
    }
}

} // verus!
