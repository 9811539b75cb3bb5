//! The graph of monorepo commits: each commit's parents, the top repository
//! commit and the submodule commits it takes in, and the submodule paths it
//! holds; and the walks through it that find the submodule content of a
//! commit.
use crate::git::bytes_eq;
use crate::git::bytes_to_vec;
use crate::git::GitPath;
use crate::repo_name::SubRepoName;
use vstd::prelude::*;

verus! {

/// A commit of a subrepo at a path.
#[derive(Debug)]
pub struct SubmoduleContent {
    pub repo_name: SubRepoName,
    pub orig_commit_id: Vec<u8>,
}

/// What a submodule of a monorepo commit holds.
#[derive(Debug)]
pub enum ExpandedSubmodule {
    /// Known submodule and known commit.
    Expanded(SubmoduleContent),
    /// The submodule is kept as it is, not expanded.
    KeptAsSubmodule(Vec<u8>),
    /// The commit does not exist (any more) in the subrepo.
    CommitMissingInSubRepo(SubmoduleContent),
    /// It is unknown which subrepo the commit is in.
    UnknownSubmodule(Vec<u8>),
    /// The submodule went back to an earlier or unrelated commit.
    RegressedNotFullyImplemented(SubmoduleContent),
}

/// A change of a submodule in a monorepo commit.
#[derive(Debug)]
pub enum ExpandedOrRemovedSubmodule {
    Expanded(ExpandedSubmodule),
    Removed,
}

/// A parent that is a commit of a subrepo, not of the monorepo.
#[derive(Debug)]
pub struct OriginalSubmodParent {
    pub path: GitPath,
    pub commit_id: Vec<u8>,
}

/// A parent of a monorepo commit: a commit of the graph, by its index, or a
/// commit of a subrepo.
#[derive(Debug)]
pub enum MonoRepoParent {
    OriginalSubmod(OriginalSubmodParent),
    Mono(usize),
}

/// A commit of the monorepo.
#[derive(Debug)]
pub struct MonoRepoCommit {
    pub parents: Vec<MonoRepoParent>,
    /// The number of commits on the longest path to a root.
    pub depth: usize,
    /// The top repository commit that this commit takes in, if any.
    pub top_bump: Option<Vec<u8>>,
    /// The submodules that this commit changes, each path once.
    pub submodule_bumps: Vec<(GitPath, ExpandedOrRemovedSubmodule)>,
    /// The paths of the submodules that this commit holds, each once.
    pub submodule_paths: Vec<GitPath>,
}

pub struct SubmoduleContentView {
    pub repo_name: Seq<char>,
    pub orig_commit_id: Seq<u8>,
}

pub enum ExpandedView {
    Expanded(SubmoduleContentView),
    KeptAsSubmodule(Seq<u8>),
    CommitMissingInSubRepo(SubmoduleContentView),
    UnknownSubmodule(Seq<u8>),
    RegressedNotFullyImplemented(SubmoduleContentView),
}

pub enum BumpView {
    Expanded(ExpandedView),
    Removed,
}

pub enum ParentView {
    OriginalSubmod { path: Seq<u8>, commit_id: Seq<u8> },
    Mono(int),
}

pub struct MonoCommitView {
    pub parents: Seq<ParentView>,
    pub depth: int,
    pub top_bump: Option<Seq<u8>>,
    pub bumps: Seq<(Seq<u8>, BumpView)>,
    pub paths: Seq<Seq<u8>>,
}

pub open spec fn content_view(c: SubmoduleContent) -> SubmoduleContentView {
    SubmoduleContentView { repo_name: c.repo_name@, orig_commit_id: c.orig_commit_id@ }
}

pub open spec fn expanded_view(e: ExpandedSubmodule) -> ExpandedView {
    match e {
        ExpandedSubmodule::Expanded(c) => ExpandedView::Expanded(content_view(c)),
        ExpandedSubmodule::KeptAsSubmodule(id) => ExpandedView::KeptAsSubmodule(id@),
        ExpandedSubmodule::CommitMissingInSubRepo(c) => ExpandedView::CommitMissingInSubRepo(
            content_view(c),
        ),
        ExpandedSubmodule::UnknownSubmodule(id) => ExpandedView::UnknownSubmodule(id@),
        ExpandedSubmodule::RegressedNotFullyImplemented(c) =>
            ExpandedView::RegressedNotFullyImplemented(content_view(c)),
    }
}

/// The commit of the subrepo that a submodule holds.
pub open spec fn orig_id(e: ExpandedView) -> Seq<u8> {
    match e {
        ExpandedView::Expanded(c) => c.orig_commit_id,
        ExpandedView::KeptAsSubmodule(id) => id,
        ExpandedView::CommitMissingInSubRepo(c) => c.orig_commit_id,
        ExpandedView::UnknownSubmodule(id) => id,
        ExpandedView::RegressedNotFullyImplemented(c) => c.orig_commit_id,
    }
}

impl ExpandedSubmodule {
    /// The commit of the subrepo that the submodule holds, whatever the kind.
    pub fn get_orig_commit_id(&self) -> (r: &Vec<u8>)
        ensures
            r@ == orig_id(expanded_view(*self)),
    {
        match self {
            ExpandedSubmodule::Expanded(c) => &c.orig_commit_id,
            ExpandedSubmodule::KeptAsSubmodule(id) => id,
            ExpandedSubmodule::CommitMissingInSubRepo(c) => &c.orig_commit_id,
            ExpandedSubmodule::UnknownSubmodule(id) => id,
            ExpandedSubmodule::RegressedNotFullyImplemented(c) => &c.orig_commit_id,
        }
    }
}

pub open spec fn bump_view(b: ExpandedOrRemovedSubmodule) -> BumpView {
    match b {
        ExpandedOrRemovedSubmodule::Expanded(e) => BumpView::Expanded(expanded_view(e)),
        ExpandedOrRemovedSubmodule::Removed => BumpView::Removed,
    }
}

pub open spec fn parent_view(p: MonoRepoParent) -> ParentView {
    match p {
        MonoRepoParent::OriginalSubmod(o) => ParentView::OriginalSubmod {
            path: o.path@,
            commit_id: o.commit_id@,
        },
        MonoRepoParent::Mono(i) => ParentView::Mono(i as int),
    }
}

pub open spec fn parents_view(s: Seq<MonoRepoParent>) -> Seq<ParentView> {
    s.map_values(|p: MonoRepoParent| parent_view(p))
}

pub open spec fn bumps_view(s: Seq<(GitPath, ExpandedOrRemovedSubmodule)>) -> Seq<(Seq<u8>, BumpView)> {
    s.map_values(|b: (GitPath, ExpandedOrRemovedSubmodule)| (b.0@, bump_view(b.1)))
}

pub open spec fn paths_view(s: Seq<GitPath>) -> Seq<Seq<u8>> {
    s.map_values(|p: GitPath| p@)
}

pub open spec fn opt_bytes(o: Option<Vec<u8>>) -> Option<Seq<u8>> {
    match o {
        Some(v) => Some(v@),
        None => None,
    }
}

pub open spec fn mono_commit_view(c: MonoRepoCommit) -> MonoCommitView {
    MonoCommitView {
        parents: parents_view(c.parents@),
        depth: c.depth as int,
        top_bump: opt_bytes(c.top_bump),
        bumps: bumps_view(c.submodule_bumps@),
        paths: paths_view(c.submodule_paths@),
    }
}

pub open spec fn graph_view(s: Seq<MonoRepoCommit>) -> Seq<MonoCommitView> {
    s.map_values(|c: MonoRepoCommit| mono_commit_view(c))
}

/// The depth of a commit with these parents: one more than the deepest
/// parent of the monorepo, 0 without such a parent.
pub open spec fn parent_depth(prev: Seq<MonoCommitView>, parents: Seq<ParentView>) -> int
    decreases parents.len(),
{
    if parents.len() == 0 {
        0
    } else {
        let d = parent_depth(prev, parents.drop_last());
        match parents.last() {
            ParentView::Mono(p) => if prev[p].depth + 1 > d {
                prev[p].depth + 1
            } else {
                d
            },
            _ => d,
        }
    }
}

/// The submodule paths that a commit starts from: those of its first parent,
/// if that is a commit of the monorepo.
pub open spec fn base_paths(prev: Seq<MonoCommitView>, parents: Seq<ParentView>) -> Set<Seq<u8>> {
    if parents.len() > 0 && parents[0] is Mono {
        prev[parents[0]->Mono_0].paths.to_set()
    } else {
        Set::empty()
    }
}

/// The paths after the changes: an expanded submodule is there, a removed
/// one is not.
pub open spec fn apply_bumps(base: Set<Seq<u8>>, bumps: Seq<(Seq<u8>, BumpView)>) -> Set<Seq<u8>>
    decreases bumps.len(),
{
    if bumps.len() == 0 {
        base
    } else {
        let s = apply_bumps(base, bumps.drop_last());
        match bumps.last().1 {
            BumpView::Expanded(_) => s.insert(bumps.last().0),
            BumpView::Removed => s.remove(bumps.last().0),
        }
    }
}

/// Each path is changed at most once.
pub open spec fn unique_bump_paths(bumps: Seq<(Seq<u8>, BumpView)>) -> bool {
    forall|i: int, j: int| 0 <= i < j < bumps.len() ==> #[trigger] bumps[i].0 != #[trigger] bumps[j].0
}

/// The parents refer to earlier commits.
pub open spec fn parents_before(parents: Seq<ParentView>, n: int) -> bool {
    forall|k: int| 0 <= k < parents.len() ==> (#[trigger] parents[k] matches ParentView::Mono(p)
        ==> 0 <= p < n)
}

/// A commit fits after the commits `prev`: its parents come before it, and
/// its depth and submodule paths follow from its parents and its changes.
#[verifier::opaque]
pub open spec fn commit_ok(prev: Seq<MonoCommitView>, c: MonoCommitView) -> bool {
    &&& parents_before(c.parents, prev.len() as int)
    &&& c.depth == parent_depth(prev, c.parents)
    &&& c.depth <= prev.len()
    &&& unique_bump_paths(c.bumps)
    &&& c.paths.no_duplicates()
    &&& c.paths.to_set() == apply_bumps(base_paths(prev, c.parents), c.bumps)
}

/// Every commit fits after the ones before it.
pub open spec fn graph_ok(g: Seq<MonoCommitView>) -> bool {
    forall|i: int| 0 <= i < g.len() ==> commit_ok(g.take(i), #[trigger] g[i])
}

/// What the graph says of one of its commits.
pub proof fn lemma_commit_facts(g: Seq<MonoCommitView>, i: int)
    requires
        graph_ok(g),
        0 <= i < g.len(),
    ensures
        parents_before(g[i].parents, i),
        g[i].depth == parent_depth(g.take(i), g[i].parents),
        g[i].depth <= i,
        unique_bump_paths(g[i].bumps),
        g[i].paths.no_duplicates(),
        g[i].paths.to_set() == apply_bumps(base_paths(g.take(i), g[i].parents), g[i].bumps),
{
    assert(commit_ok(g.take(i), g[i]));
    reveal(commit_ok);
    assert(g.take(i).len() == i);
}

/// The monorepo commits, each after its parents.
pub struct MonoRepoGraph {
    commits: Vec<MonoRepoCommit>,
}

impl MonoRepoGraph {
    /// The commits, as values.
    pub closed spec fn view_commits(&self) -> Seq<MonoCommitView> {
        graph_view(self.commits@)
    }

    /// Every commit fits after the ones before it.
    pub closed spec fn wf(&self) -> bool {
        graph_ok(graph_view(self.commits@))
    }

    /// A graph without commits.
    pub fn new() -> (r: Self)
        ensures
            r.wf(),
            r.view_commits().len() == 0,
    {
        MonoRepoGraph { commits: Vec::new() }
    }

    /// The number of commits.
    pub fn len(&self) -> (r: usize)
        ensures
            r == self.view_commits().len(),
    {
        self.commits.len()
    }

    /// The commit at `index`.
    pub fn commit(&self, index: usize) -> (r: &MonoRepoCommit)
        requires
            index < self.view_commits().len(),
        ensures
            mono_commit_view(*r) == self.view_commits()[index as int],
    {
        &self.commits[index]
    }
}

pub(crate) fn copy_paths(v: &Vec<GitPath>) -> (r: Vec<GitPath>)
    ensures
        paths_view(r@) == paths_view(v@),
{
    let mut r: Vec<GitPath> = Vec::new();
    let mut i: usize = 0;
    while i < v.len()
        invariant
            i <= v@.len(),
            paths_view(r@) == paths_view(v@).take(i as int),
        decreases v.len() - i,
    {
        let ghost r0 = paths_view(r@);
        let d = v[i].duplicate();
        r.push(d);
        assert(paths_view(r@) =~= r0.push(d@));
        assert(paths_view(v@).take(i + 1) =~= paths_view(v@).take(i as int).push(v@[i as int]@));
        i = i + 1;
    }
    assert(paths_view(v@).take(v@.len() as int) =~= paths_view(v@));
    r
}

pub(crate) fn find_path(paths: &Vec<GitPath>, path: &GitPath) -> (r: Option<usize>)
    ensures
        match r {
            Some(i) => i < paths@.len() && paths_view(paths@)[i as int] == path@,
            None => !paths_view(paths@).contains(path@),
        },
{
    let mut i: usize = 0;
    while i < paths.len()
        invariant
            i <= paths@.len(),
            forall|k: int| 0 <= k < i ==> paths_view(paths@)[k] != path@,
        decreases paths.len() - i,
    {
        if paths[i].same(path) {
            return Some(i);
        }
        i = i + 1;
    }
    None
}

impl MonoRepoGraph {
    /// Adds a commit with these parents and changes and returns its index.
    /// Its depth is one more than that of its deepest parent of the
    /// monorepo, and it holds the submodule paths of its first parent, with
    /// the expanded ones added and the removed ones taken away.
    pub fn add_commit(
        &mut self,
        parents: Vec<MonoRepoParent>,
        top_bump: Option<Vec<u8>>,
        submodule_bumps: Vec<(GitPath, ExpandedOrRemovedSubmodule)>,
    ) -> (r: usize)
        requires
            old(self).wf(),
            parents_before(parents_view(parents@), old(self).view_commits().len() as int),
            unique_bump_paths(bumps_view(submodule_bumps@)),
            old(self).view_commits().len() < usize::MAX,
        ensures
            final(self).wf(),
            r == old(self).view_commits().len(),
            final(self).view_commits().len() == r + 1,
            final(self).view_commits().take(r as int) == old(self).view_commits(),
            ({
                let c = final(self).view_commits()[r as int];
                let prev = old(self).view_commits();
                &&& c.parents == parents_view(parents@)
                &&& c.depth == parent_depth(prev, c.parents)
                &&& c.top_bump == opt_bytes(top_bump)
                &&& c.bumps == bumps_view(submodule_bumps@)
                &&& c.paths.no_duplicates()
                &&& c.paths.to_set() == apply_bumps(base_paths(prev, c.parents), c.bumps)
            }),
    {
        let ghost prev = self.view_commits();
        let ghost pv = parents_view(parents@);
        let ghost bv = bumps_view(submodule_bumps@);
        assert forall|q: int| 0 <= q < prev.len() implies #[trigger] prev[q].depth <= q by {
            lemma_commit_facts(prev, q);
        };
        let mut depth: usize = 0;
        let mut k: usize = 0;
        while k < parents.len()
            invariant
                k <= parents@.len(),
                prev == graph_view(self.commits@),
                forall|q: int| 0 <= q < prev.len() ==> #[trigger] prev[q].depth <= q,
                prev.len() < usize::MAX,
                pv == parents_view(parents@),
                parents_before(pv, prev.len() as int),
                depth == parent_depth(prev, pv.take(k as int)),
                depth <= prev.len(),
            decreases parents.len() - k,
        {
            assert(pv.take(k + 1).drop_last() =~= pv.take(k as int));
            assert(pv.take(k + 1).last() == pv[k as int]);
            match &parents[k] {
                MonoRepoParent::Mono(p) => {
                    assert(pv[k as int] == ParentView::Mono(*p as int));
                    assert(prev[*p as int].depth <= *p);
                    assert(prev[*p as int].depth == self.commits@[*p as int].depth);
                    let d = self.commits[*p].depth + 1;
                    if d > depth {
                        depth = d;
                    }
                },
                MonoRepoParent::OriginalSubmod(_) => {},
            }
            k = k + 1;
        }
        assert(pv.take(parents@.len() as int) =~= pv);
        let ghost base = base_paths(prev, pv);
        let mut paths: Vec<GitPath> = Vec::new();
        if parents.len() > 0 {
            match &parents[0] {
                MonoRepoParent::Mono(p) => {
                    assert(pv[0] == ParentView::Mono(*p as int));
                    proof {
                        lemma_commit_facts(prev, *p as int);
                    }
                    paths = copy_paths(&self.commits[*p].submodule_paths);
                },
                MonoRepoParent::OriginalSubmod(_) => {},
            }
        }
        assert(paths_view(paths@).to_set() =~= base);
        let mut b: usize = 0;
        while b < submodule_bumps.len()
            invariant
                b <= submodule_bumps@.len(),
                bv == bumps_view(submodule_bumps@),
                paths_view(paths@).no_duplicates(),
                paths_view(paths@).to_set() == apply_bumps(base, bv.take(b as int)),
            decreases submodule_bumps.len() - b,
        {
            assert(bv.take(b + 1).drop_last() =~= bv.take(b as int));
            assert(bv.take(b + 1).last() == bv[b as int]);
            let ghost before = paths_view(paths@);
            let path = &submodule_bumps[b].0;
            match &submodule_bumps[b].1 {
                ExpandedOrRemovedSubmodule::Expanded(_) => {
                    if find_path(&paths, path).is_none() {
                        paths.push(path.duplicate());
                        assert(paths_view(paths@) =~= before.push(path@));
                        proof {
                            before.lemma_push_to_set_commute(path@);
                        }
                    } else {
                        assert(before.to_set() =~= before.to_set().insert(path@));
                    }
                },
                ExpandedOrRemovedSubmodule::Removed => {
                    match find_path(&paths, path) {
                        Some(idx) => {
                            paths.remove(idx);
                            assert(paths_view(paths@) =~= before.remove(idx as int));
                            assert forall|x: Seq<u8>|
                                #![trigger paths_view(paths@).to_set().contains(x)]
                                paths_view(paths@).to_set().contains(x) == before.to_set().remove(
                                    path@,
                                ).contains(x) by {
                                let after = paths_view(paths@);
                                if after.contains(x) {
                                    let j = choose|j: int| 0 <= j < after.len() && after[j] == x;
                                    if j < idx {
                                        assert(before[j] == x);
                                    } else {
                                        assert(before[j + 1] == x);
                                    }
                                }
                                if before.contains(x) && x != path@ {
                                    let j = choose|j: int| 0 <= j < before.len() && before[j] == x;
                                    if j < idx {
                                        assert(after[j] == x);
                                    } else {
                                        assert(j != idx);
                                        assert(after[j - 1] == x);
                                    }
                                }
                            };
                            assert(paths_view(paths@).to_set() =~= before.to_set().remove(path@));
                        },
                        None => {
                            assert(before.to_set() =~= before.to_set().remove(path@));
                        },
                    }
                },
            }
            b = b + 1;
        }
        assert(bv.take(submodule_bumps@.len() as int) =~= bv);
        let ghost paths_v = paths_view(paths@);
        let c = MonoRepoCommit { parents, depth, top_bump, submodule_bumps, submodule_paths: paths };
        let r = self.commits.len();
        self.commits.push(c);
        let ghost g = graph_view(self.commits@);
        assert(g =~= prev.push(mono_commit_view(c)));
        assert(g.take(r as int) =~= prev);
        assert forall|i: int| 0 <= i < g.len() implies commit_ok(g.take(i), #[trigger] g[i]) by {
            if i < r {
                assert(g.take(i) =~= prev.take(i));
                assert(g[i] == prev[i]);
            } else {
                assert(g.take(i) =~= prev);
                reveal(commit_ok);
            }
        };
        r
    }
}

/// The first parent, when it is a commit of the monorepo before `c`.
pub open spec fn first_mono_parent(g: Seq<MonoCommitView>, c: int) -> Option<int> {
    if 0 <= c < g.len() && g[c].parents.len() > 0 && g[c].parents[0] is Mono && 0
        <= g[c].parents[0]->Mono_0 < c {
        Some(g[c].parents[0]->Mono_0)
    } else {
        None
    }
}

/// The top repository commit that `c` holds: the one it takes in, else the
/// one its first parent holds.
pub open spec fn top_bump_of(g: Seq<MonoCommitView>, c: int) -> Option<Seq<u8>>
    decreases c,
{
    if !(0 <= c < g.len()) {
        None
    } else {
        match g[c].top_bump {
            Some(t) => Some(t),
            None => match first_mono_parent(g, c) {
                Some(p) => top_bump_of(g, p),
                None => None,
            },
        }
    }
}

/// The change of `path` among the changes, if any.
pub open spec fn bump_at(bumps: Seq<(Seq<u8>, BumpView)>, path: Seq<u8>) -> Option<BumpView>
    decreases bumps.len(),
{
    if bumps.len() == 0 {
        None
    } else if bumps.last().0 == path {
        Some(bumps.last().1)
    } else {
        bump_at(bumps.drop_last(), path)
    }
}

/// The submodule at `path` in `c`: the change of `c` that expanded it, else
/// the one its first parent holds; nothing if `c` holds no submodule there.
pub open spec fn submodule_at(g: Seq<MonoCommitView>, c: int, path: Seq<u8>) -> Option<ExpandedView>
    decreases c,
{
    if !(0 <= c < g.len()) || !g[c].paths.contains(path) {
        None
    } else {
        match bump_at(g[c].bumps, path) {
            Some(BumpView::Expanded(e)) => Some(e),
            Some(BumpView::Removed) => None,
            None => match first_mono_parent(g, c) {
                Some(p) => submodule_at(g, p, path),
                None => None,
            },
        }
    }
}

/// A path is held after the changes exactly when it was expanded, or was
/// held before and not changed.
proof fn lemma_apply_bumps_contains(base: Set<Seq<u8>>, bumps: Seq<(Seq<u8>, BumpView)>, x: Seq<u8>)
    requires
        unique_bump_paths(bumps),
    ensures
        apply_bumps(base, bumps).contains(x) == match bump_at(bumps, x) {
            Some(BumpView::Expanded(_)) => true,
            Some(BumpView::Removed) => false,
            None => base.contains(x),
        },
    decreases bumps.len(),
{
    if bumps.len() > 0 {
        let init = bumps.drop_last();
        assert(unique_bump_paths(init)) by {
            assert forall|i: int, j: int| 0 <= i < j < init.len() implies #[trigger] init[i].0
                != #[trigger] init[j].0 by {
                assert(init[i] == bumps[i] && init[j] == bumps[j]);
            };
        };
        lemma_apply_bumps_contains(base, init, x);
        if bumps.last().0 != x {
            assert(bump_at(bumps, x) == bump_at(init, x));
        }
    }
}

/// Every submodule path of a commit holds a submodule.
pub proof fn law_held_paths_have_submodules(g: Seq<MonoCommitView>, c: int, path: Seq<u8>)
    requires
        graph_ok(g),
        0 <= c < g.len(),
    ensures
        submodule_at(g, c, path) is Some <==> g[c].paths.contains(path),
    decreases c,
{
    if g[c].paths.contains(path) {
        lemma_commit_facts(g, c);
        lemma_apply_bumps_contains(base_paths(g.take(c), g[c].parents), g[c].bumps, path);
        assert(g[c].paths.to_set().contains(path));
        match bump_at(g[c].bumps, path) {
            Some(BumpView::Expanded(_)) => {},
            Some(BumpView::Removed) => {},
            None => {
                let pv = g[c].parents;
                assert(pv.len() > 0 && pv[0] is Mono);
                let p = pv[0]->Mono_0;
                assert(parents_before(pv, c));
                assert(pv[0] matches ParentView::Mono(q) ==> 0 <= q < c);
                assert(g.take(c)[p] == g[p]);
                assert(g[p].paths.to_set().contains(path));
                assert(g[p].paths.contains(path));
                law_held_paths_have_submodules(g, p, path);
            },
        }
    }
}

fn copy_content(c: &SubmoduleContent) -> (r: SubmoduleContent)
    ensures
        content_view(r) == content_view(*c),
{
    SubmoduleContent {
        repo_name: SubRepoName::new(crate::text::string_of(&crate::text::chars_of(c.repo_name.as_str()))),
        orig_commit_id: bytes_to_vec(c.orig_commit_id.as_slice()),
    }
}

/// A copy of the submodule.
pub fn copy_expanded(e: &ExpandedSubmodule) -> (r: ExpandedSubmodule)
    ensures
        expanded_view(r) == expanded_view(*e),
{
    match e {
        ExpandedSubmodule::Expanded(c) => ExpandedSubmodule::Expanded(copy_content(c)),
        ExpandedSubmodule::KeptAsSubmodule(id) => ExpandedSubmodule::KeptAsSubmodule(
            bytes_to_vec(id.as_slice()),
        ),
        ExpandedSubmodule::CommitMissingInSubRepo(c) => ExpandedSubmodule::CommitMissingInSubRepo(
            copy_content(c),
        ),
        ExpandedSubmodule::UnknownSubmodule(id) => ExpandedSubmodule::UnknownSubmodule(
            bytes_to_vec(id.as_slice()),
        ),
        ExpandedSubmodule::RegressedNotFullyImplemented(c) =>
            ExpandedSubmodule::RegressedNotFullyImplemented(copy_content(c)),
    }
}

fn find_bump(bumps: &Vec<(GitPath, ExpandedOrRemovedSubmodule)>, path: &GitPath) -> (r: Option<
    usize,
>)
    ensures
        match bump_at(bumps_view(bumps@), path@) {
            Some(b) => r matches Some(i) && i < bumps@.len() && bumps@[i as int].0@ == path@
                && bump_view(bumps@[i as int].1) == b,
            None => r is None,
        },
{
    let ghost bv = bumps_view(bumps@);
    let mut i = bumps.len();
    assert(bv.take(i as int) =~= bv);
    while i > 0
        invariant
            i <= bumps@.len(),
            bv == bumps_view(bumps@),
            bump_at(bv.take(i as int), path@) == bump_at(bv, path@),
        decreases i,
    {
        assert(bv.take(i as int).drop_last() =~= bv.take(i - 1));
        assert(bv.take(i as int).last() == bv[i - 1]);
        if bumps[i - 1].0.same(path) {
            return Some(i - 1);
        }
        i = i - 1;
    }
    None
}

impl MonoRepoGraph {
    /// The top repository commit that the commit holds, found through its
    /// first parents.
    pub fn get_top_bump(&self, c: usize) -> (r: Option<Vec<u8>>)
        requires
            self.wf(),
        ensures
            opt_bytes(r) == top_bump_of(self.view_commits(), c as int),
    {
        let ghost g = self.view_commits();
        let mut cur = c;
        loop
            invariant
                g == graph_view(self.commits@),
                graph_ok(g),
                top_bump_of(g, cur as int) == top_bump_of(g, c as int),
            decreases cur,
        {
            if cur >= self.commits.len() {
                return None;
            }
            let commit = &self.commits[cur];
            match &commit.top_bump {
                Some(t) => {
                    return Some(bytes_to_vec(t.as_slice()));
                },
                None => {},
            }
            if commit.parents.len() == 0 {
                return None;
            }
            match &commit.parents[0] {
                MonoRepoParent::Mono(p) => {
                    proof {
                        lemma_commit_facts(g, cur as int);
                        assert(g[cur as int].parents[0] == ParentView::Mono(*p as int));
                    }
                    cur = *p;
                },
                MonoRepoParent::OriginalSubmod(_) => {
                    return None;
                },
            }
        }
    }

    /// The submodule at `path` in the commit, found through its first
    /// parents; nothing if the commit holds no submodule at `path`.
    pub fn get_submodule(&self, c: usize, path: &GitPath) -> (r: Option<ExpandedSubmodule>)
        requires
            self.wf(),
        ensures
            match submodule_at(self.view_commits(), c as int, path@) {
                Some(e) => r matches Some(x) && expanded_view(x) == e,
                None => r is None,
            },
    {
        let ghost g = self.view_commits();
        let mut cur = c;
        loop
            invariant
                g == graph_view(self.commits@),
                graph_ok(g),
                submodule_at(g, cur as int, path@) == submodule_at(g, c as int, path@),
            decreases cur,
        {
            if cur >= self.commits.len() {
                return None;
            }
            let commit = &self.commits[cur];
            if find_path(&commit.submodule_paths, path).is_none() {
                return None;
            }
            match find_bump(&commit.submodule_bumps, path) {
                Some(i) => {
                    return match &commit.submodule_bumps[i].1 {
                        ExpandedOrRemovedSubmodule::Expanded(e) => Some(copy_expanded(e)),
                        ExpandedOrRemovedSubmodule::Removed => None,
                    };
                },
                None => {},
            }
            if commit.parents.len() == 0 {
                return None;
            }
            match &commit.parents[0] {
                MonoRepoParent::Mono(p) => {
                    proof {
                        lemma_commit_facts(g, cur as int);
                        assert(g[cur as int].parents[0] == ParentView::Mono(*p as int));
                    }
                    cur = *p;
                },
                MonoRepoParent::OriginalSubmod(_) => {
                    return None;
                },
            }
        }
    }
}

/// Submodules found so far: none, one (and any found again equal to it), or
/// several different ones.
pub enum Candidates {
    NoneFound,
    One(ExpandedView),
    Several,
}

pub open spec fn add_candidate(st: Candidates, e: ExpandedView) -> Candidates {
    match st {
        Candidates::NoneFound => Candidates::One(e),
        Candidates::One(x) => if x == e {
            Candidates::One(x)
        } else {
            Candidates::Several
        },
        Candidates::Several => Candidates::Several,
    }
}

/// The subrepo of a submodule whose subrepo is known.
pub open spec fn known_repo(e: ExpandedView) -> Option<Seq<char>> {
    match e {
        ExpandedView::Expanded(c) => Some(c.repo_name),
        ExpandedView::CommitMissingInSubRepo(c) => Some(c.repo_name),
        ExpandedView::RegressedNotFullyImplemented(c) => Some(c.repo_name),
        _ => None,
    }
}

/// The submodules of the subrepo `name` at the paths `paths` of `c`: those
/// whose path `c` removes, and all of them.
pub open spec fn scan_candidates(
    g: Seq<MonoCommitView>,
    c: int,
    paths: Seq<Seq<u8>>,
    name: Seq<char>,
) -> (Candidates, Candidates)
    decreases paths.len(),
{
    if paths.len() == 0 {
        (Candidates::NoneFound, Candidates::NoneFound)
    } else {
        let (moved, duplicated) = scan_candidates(g, c, paths.drop_last(), name);
        let q = paths.last();
        match submodule_at(g, c, q) {
            Some(s) => if known_repo(s) == Some(name) {
                (
                    if bump_at(g[c].bumps, q) == Some(BumpView::Removed) {
                        add_candidate(moved, s)
                    } else {
                        moved
                    },
                    add_candidate(duplicated, s),
                )
            } else {
                (moved, duplicated)
            },
            None => (moved, duplicated),
        }
    }
}

/// The submodule of the subrepo `name` at `path` in `c`. When `c` holds none
/// there, the submodule may have moved: if exactly one submodule of that
/// subrepo was removed, it is that one; else, if the subrepo is held at other
/// paths with one and the same commit, it is a copy of that one.
pub open spec fn spec_get_some_submodule(
    g: Seq<MonoCommitView>,
    c: int,
    path: Seq<u8>,
    name: Seq<char>,
) -> Option<ExpandedView> {
    match submodule_at(g, c, path) {
        Some(s) => Some(s),
        None => if !(0 <= c < g.len()) {
            None
        } else {
            let (moved, duplicated) = scan_candidates(g, c, g[c].paths, name);
            match moved {
                Candidates::One(s) => Some(s),
                Candidates::Several => None,
                Candidates::NoneFound => match duplicated {
                    Candidates::One(s) => Some(s),
                    _ => None,
                },
            }
        },
    }
}

fn same_content(a: &SubmoduleContent, b: &SubmoduleContent) -> (r: bool)
    ensures
        r == (content_view(*a) == content_view(*b)),
{
    crate::text::chars_eq(
        &crate::text::chars_of(a.repo_name.as_str()),
        &crate::text::chars_of(b.repo_name.as_str()),
    ) && bytes_eq(a.orig_commit_id.as_slice(), b.orig_commit_id.as_slice())
}

/// Whether two submodules are the same.
pub fn same_expanded(a: &ExpandedSubmodule, b: &ExpandedSubmodule) -> (r: bool)
    ensures
        r == (expanded_view(*a) == expanded_view(*b)),
{
    match (a, b) {
        (ExpandedSubmodule::Expanded(x), ExpandedSubmodule::Expanded(y)) => same_content(x, y),
        (ExpandedSubmodule::KeptAsSubmodule(x), ExpandedSubmodule::KeptAsSubmodule(y)) => bytes_eq(
            x.as_slice(),
            y.as_slice(),
        ),
        (
            ExpandedSubmodule::CommitMissingInSubRepo(x),
            ExpandedSubmodule::CommitMissingInSubRepo(y),
        ) => same_content(x, y),
        (ExpandedSubmodule::UnknownSubmodule(x), ExpandedSubmodule::UnknownSubmodule(y)) => bytes_eq(
            x.as_slice(),
            y.as_slice(),
        ),
        (
            ExpandedSubmodule::RegressedNotFullyImplemented(x),
            ExpandedSubmodule::RegressedNotFullyImplemented(y),
        ) => same_content(x, y),
        _ => false,
    }
}

enum Found {
    NoneFound,
    One(ExpandedSubmodule),
    Several,
}

spec fn found_view(f: Found) -> Candidates {
    match f {
        Found::NoneFound => Candidates::NoneFound,
        Found::One(e) => Candidates::One(expanded_view(e)),
        Found::Several => Candidates::Several,
    }
}

fn add_found(f: Found, e: &ExpandedSubmodule) -> (r: Found)
    ensures
        found_view(r) == add_candidate(found_view(f), expanded_view(*e)),
{
    match f {
        Found::NoneFound => Found::One(copy_expanded(e)),
        Found::One(x) => if same_expanded(&x, e) {
            Found::One(x)
        } else {
            Found::Several
        },
        Found::Several => Found::Several,
    }
}

fn is_of_repo(e: &ExpandedSubmodule, name: &SubRepoName) -> (r: bool)
    ensures
        r == (known_repo(expanded_view(*e)) == Some(name@)),
{
    let target = crate::text::chars_of(name.as_str());
    match e {
        ExpandedSubmodule::Expanded(c) => crate::text::chars_eq(
            &crate::text::chars_of(c.repo_name.as_str()),
            &target,
        ),
        ExpandedSubmodule::CommitMissingInSubRepo(c) => crate::text::chars_eq(
            &crate::text::chars_of(c.repo_name.as_str()),
            &target,
        ),
        ExpandedSubmodule::RegressedNotFullyImplemented(c) => crate::text::chars_eq(
            &crate::text::chars_of(c.repo_name.as_str()),
            &target,
        ),
        _ => false,
    }
}

impl MonoRepoGraph {
    /// The submodule of the subrepo `submod_repo_name` at `abs_sub_path` in
    /// the commit, following a move or a copy of it when the commit holds no
    /// submodule there.
    pub fn get_some_submodule(
        &self,
        c: usize,
        abs_sub_path: &GitPath,
        submod_repo_name: &SubRepoName,
    ) -> (r: Option<ExpandedSubmodule>)
        requires
            self.wf(),
        ensures
            match spec_get_some_submodule(
                self.view_commits(),
                c as int,
                abs_sub_path@,
                submod_repo_name@,
            ) {
                Some(e) => r matches Some(x) && expanded_view(x) == e,
                None => r is None,
            },
    {
        match self.get_submodule(c, abs_sub_path) {
            Some(s) => {
                return Some(s);
            },
            None => {},
        }
        if c >= self.commits.len() {
            return None;
        }
        let ghost g = self.view_commits();
        let commit = &self.commits[c];
        let ghost pv = paths_view(commit.submodule_paths@);
        assert(pv == g[c as int].paths);
        let mut moved = Found::NoneFound;
        let mut duplicated = Found::NoneFound;
        let mut k: usize = 0;
        while k < commit.submodule_paths.len()
            invariant
                k <= commit.submodule_paths@.len(),
                g == graph_view(self.commits@),
                graph_ok(g),
                c < g.len(),
                *commit == self.commits@[c as int],
                pv == paths_view(commit.submodule_paths@),
                pv == g[c as int].paths,
                (found_view(moved), found_view(duplicated)) == scan_candidates(
                    g,
                    c as int,
                    pv.take(k as int),
                    submod_repo_name@,
                ),
            decreases commit.submodule_paths.len() - k,
        {
            assert(pv.take(k + 1).drop_last() =~= pv.take(k as int));
            assert(pv.take(k + 1).last() == commit.submodule_paths@[k as int]@);
            let q = &commit.submodule_paths[k];
            match self.get_submodule(c, q) {
                Some(s) => {
                    if is_of_repo(&s, submod_repo_name) {
                        let removed = match find_bump(&commit.submodule_bumps, q) {
                            Some(i) => match &commit.submodule_bumps[i].1 {
                                ExpandedOrRemovedSubmodule::Removed => true,
                                ExpandedOrRemovedSubmodule::Expanded(_) => false,
                            },
                            None => false,
                        };
                        assert(removed == (bump_at(g[c as int].bumps, q@) == Some(
                            BumpView::Removed,
                        )));
                        if removed {
                            moved = add_found(moved, &s);
                        }
                        duplicated = add_found(duplicated, &s);
                    }
                },
                None => {},
            }
            k = k + 1;
        }
        assert(pv.take(pv.len() as int) =~= pv);
        match moved {
            Found::One(s) => Some(s),
            Found::Several => None,
            Found::NoneFound => match duplicated {
                Found::One(s) => Some(s),
                _ => None,
            },
        }
    }
}

/// `j` is a parent of `m`, both commits of the monorepo.
pub open spec fn is_mono_parent(g: Seq<MonoCommitView>, m: int, j: int) -> bool {
    0 <= m < g.len() && exists|k: int|
        0 <= k < g[m].parents.len() && #[trigger] g[m].parents[k] == ParentView::Mono(j)
}

/// `a` is `d` or one of its ancestors: a parent of `d` or of one of its
/// ancestors.
pub open spec fn is_ancestor(g: Seq<MonoCommitView>, a: int, d: int) -> bool
    decreases d - a,
{
    a == d || (a < d && exists|m: int|
        a < m <= d && #[trigger] is_mono_parent(g, m, a) && is_ancestor(g, m, d))
}

/// `m` is `d` or a parent of one of the ancestors of `d` after `i`.
pub open spec fn reached_after(g: Seq<MonoCommitView>, i: int, m: int, d: int) -> bool {
    m == d || exists|n: int| i < n <= d && #[trigger] is_mono_parent(g, n, m) && is_ancestor(g, n, d)
}

impl MonoRepoGraph {
    /// Whether commit `a` is commit `d` or one of its ancestors.
    pub fn is_ancestor_of(&self, a: usize, d: usize) -> (r: bool)
        requires
            self.wf(),
            a < self.view_commits().len(),
            d < self.view_commits().len(),
        ensures
            r == is_ancestor(self.view_commits(), a as int, d as int),
    {
        if a > d {
            return false;
        }
        if a == d {
            return true;
        }
        let ghost g = self.view_commits();
        let total = self.commits.len();
        assert(d < total);
        let n = d - a + 1;
        let mut marks: Vec<bool> = Vec::new();
        let mut z: usize = 0;
        while z < n
            invariant
                z <= n,
                marks@.len() == z,
                forall|k: int| 0 <= k < z ==> !#[trigger] marks@[k],
            decreases n - z,
        {
            marks.push(false);
            z = z + 1;
        }
        marks.set(d - a, true);
        let mut i = d;
        while i > a
            invariant
                a < d < g.len(),
                a <= i <= d,
                n == d - a + 1,
                g == graph_view(self.commits@),
                graph_ok(g),
                marks@.len() == n,
                forall|m: int| i < m <= d ==> #[trigger] marks@[m - a] == is_ancestor(g, m, d as int),
                forall|m: int|
                    a <= m <= i ==> #[trigger] marks@[m - a] == reached_after(g, i as int, m, d as int),
            decreases i,
        {
            assert(marks@[i - a] == reached_after(g, i as int, i as int, d as int));
            assert(marks@[i - a] == is_ancestor(g, i as int, d as int));
            proof {
                lemma_commit_facts(g, i as int);
            }
            let ghost before = marks@;
            let mi = marks[i - a];
            if mi {
                let parents = &self.commits[i].parents;
                assert(parents_view(parents@) == g[i as int].parents);
                let mut k: usize = 0;
                while k < parents.len()
                    invariant
                        k <= parents@.len(),
                        a < i <= d < g.len(),
                        n == d - a + 1,
                        marks@.len() == n,
                        parents_view(parents@) == g[i as int].parents,
                        parents_before(g[i as int].parents, i as int),
                        forall|m: int| i <= m <= d ==> #[trigger] marks@[m - a] == before[m - a],
                        forall|m: int|
                            a <= m < i ==> #[trigger] marks@[m - a] == (before[m - a] || exists|q: int|
                                0 <= q < k && #[trigger] g[i as int].parents[q] == ParentView::Mono(m)),
                    decreases parents.len() - k,
                {
                    assert(g[i as int].parents[k as int] == parent_view(parents@[k as int]));
                    match &parents[k] {
                        MonoRepoParent::Mono(p) => {
                            assert(g[i as int].parents[k as int] == ParentView::Mono(*p as int));
                            assert(0 <= *p < i);
                            if *p >= a {
                                marks.set(*p - a, true);
                            }
                        },
                        MonoRepoParent::OriginalSubmod(_) => {},
                    }
                    assert forall|m: int| a <= m < i implies #[trigger] marks@[m - a] == (before[m
                        - a] || exists|q: int|
                        0 <= q < k + 1 && #[trigger] g[i as int].parents[q] == ParentView::Mono(m)) by {
                        if g[i as int].parents[k as int] == ParentView::Mono(m) {
                            assert(marks@[m - a]);
                        }
                    };
                    k = k + 1;
                }
            }
            assert forall|m: int| a <= m <= i - 1 implies #[trigger] marks@[m - a] == reached_after(
                g,
                i - 1,
                m,
                d as int,
            ) by {
                if reached_after(g, i - 1, m, d as int) && !reached_after(g, i as int, m, d as int) {
                    let w = choose|w: int|
                        i - 1 < w <= d && #[trigger] is_mono_parent(g, w, m) && is_ancestor(g, w, d as int);
                    assert(w == i);
                    let q = choose|q: int|
                        0 <= q < g[i as int].parents.len() && #[trigger] g[i as int].parents[q]
                            == ParentView::Mono(m);
                    assert(mi);
                }
                if mi && exists|q: int|
                    0 <= q < g[i as int].parents.len() && #[trigger] g[i as int].parents[q]
                        == ParentView::Mono(m) {
                    assert(is_mono_parent(g, i as int, m));
                    assert(reached_after(g, i - 1, m, d as int));
                }
                if reached_after(g, i as int, m, d as int) && m != d {
                    let w = choose|w: int|
                        i < w <= d && #[trigger] is_mono_parent(g, w, m) && is_ancestor(g, w, d as int);
                    assert(reached_after(g, i - 1, m, d as int));
                }
            };
            i = i - 1;
        }
        let ghost za = a as int;
        assert(marks@[za - za] == reached_after(g, za, za, d as int));
        assert(reached_after(g, za, za, d as int) == is_ancestor(g, za, d as int));
        marks[0]
    }
}

/// The change of `path` is among the changes.
pub open spec fn bumps_path(bumps: Seq<(Seq<u8>, BumpView)>, path: Seq<u8>) -> bool {
    bump_at(bumps, path) is Some
}

/// The commits where the submodule at `path` was last changed, on every
/// line of history of `c`: `c` itself if it changes the path, else those of
/// its parents of the monorepo, in order, when it holds the path.
pub open spec fn last_bumps(g: Seq<MonoCommitView>, c: int, path: Seq<u8>) -> Seq<int>
    decreases c, 1int,
{
    if !(0 <= c < g.len()) {
        Seq::empty()
    } else if bumps_path(g[c].bumps, path) {
        seq![c]
    } else if g[c].paths.contains(path) {
        parents_last_bumps(g, c, path, g[c].parents.len() as int)
    } else {
        Seq::empty()
    }
}

/// [`last_bumps`] of the first `k` parents of `c`, one after the other.
pub open spec fn parents_last_bumps(g: Seq<MonoCommitView>, c: int, path: Seq<u8>, k: int) -> Seq<
    int,
>
    decreases c, 0int, k,
{
    if k <= 0 || !(0 <= c < g.len()) || k > g[c].parents.len() {
        Seq::empty()
    } else {
        let before = parents_last_bumps(g, c, path, k - 1);
        match g[c].parents[k - 1] {
            ParentView::Mono(p) => if 0 <= p < c {
                before + last_bumps(g, p, path)
            } else {
                before
            },
            _ => before,
        }
    }
}

/// The parents of the monorepo of the commits, in order, each once.
pub open spec fn mono_parents_of(g: Seq<MonoCommitView>, cs: Seq<int>) -> Seq<int>
    decreases cs.len(),
{
    if cs.len() == 0 {
        Seq::empty()
    } else {
        let before = mono_parents_of(g, cs.drop_last());
        add_mono_parents(before, g[cs.last()].parents)
    }
}

pub open spec fn add_mono_parents(seen: Seq<int>, parents: Seq<ParentView>) -> Seq<int>
    decreases parents.len(),
{
    if parents.len() == 0 {
        seen
    } else {
        let s = add_mono_parents(seen, parents.drop_last());
        match parents.last() {
            ParentView::Mono(p) => if s.contains(p) {
                s
            } else {
                s.push(p)
            },
            _ => s,
        }
    }
}

impl MonoRepoGraph {
    /// The commits where the submodule at `path` was last changed, on every
    /// line of history of `c`; a commit reached on several lines is listed
    /// for each.
    pub fn get_bumps(&self, c: usize, path: &GitPath) -> (r: Vec<usize>)
        requires
            self.wf(),
            c < self.view_commits().len(),
        ensures
            r@.map_values(|x: usize| x as int) == last_bumps(self.view_commits(), c as int, path@),
    {
        let ghost g = self.view_commits();
        let total = self.commits.len();
        let mut memo: Vec<Vec<usize>> = Vec::new();
        let mut j: usize = 0;
        while j <= c
            invariant
                c < g.len(),
                c < total,
                j <= c + 1,
                g == graph_view(self.commits@),
                graph_ok(g),
                memo@.len() == j,
                forall|q: int| 0 <= q < j ==> (#[trigger] memo@[q])@.map_values(|x: usize| x as int)
                    == last_bumps(g, q, path@),
            decreases c + 1 - j,
        {
            let commit = &self.commits[j];
            proof {
                lemma_commit_facts(g, j as int);
            }
            let mut res: Vec<usize> = Vec::new();
            if find_bump(&commit.submodule_bumps, path).is_some() {
                res.push(j);
                assert(res@.map_values(|x: usize| x as int) =~= seq![j as int]);
            } else if find_path(&commit.submodule_paths, path).is_some() {
                let mut k: usize = 0;
                while k < commit.parents.len()
                    invariant
                        k <= commit.parents@.len(),
                        j < g.len(),
                        g == graph_view(self.commits@),
                        *commit == self.commits@[j as int],
                        parents_view(commit.parents@) == g[j as int].parents,
                        parents_before(g[j as int].parents, j as int),
                        memo@.len() == j,
                        forall|q: int| 0 <= q < j ==> (#[trigger] memo@[q])@.map_values(
                            |x: usize| x as int,
                        ) == last_bumps(g, q, path@),
                        res@.map_values(|x: usize| x as int) == parents_last_bumps(
                            g,
                            j as int,
                            path@,
                            k as int,
                        ),
                    decreases commit.parents.len() - k,
                {
                    assert(g[j as int].parents[k as int] == parent_view(commit.parents@[k as int]));
                    let ghost before = res@.map_values(|x: usize| x as int);
                    match &commit.parents[k] {
                        MonoRepoParent::Mono(p) => {
                            assert(0 <= *p < j);
                            let from = &memo[*p];
                            let mut t: usize = 0;
                            while t < from.len()
                                invariant
                                    t <= from@.len(),
                                    res@.map_values(|x: usize| x as int) == before + from@.map_values(
                                        |x: usize| x as int,
                                    ).take(t as int),
                                decreases from.len() - t,
                            {
                                let ghost r0 = res@.map_values(|x: usize| x as int);
                                res.push(from[t]);
                                assert(res@.map_values(|x: usize| x as int) =~= r0.push(
                                    from@[t as int] as int,
                                ));
                                assert(from@.map_values(|x: usize| x as int).take(t + 1)
                                    =~= from@.map_values(|x: usize| x as int).take(t as int).push(
                                    from@[t as int] as int,
                                ));
                                t = t + 1;
                            }
                            assert(from@.map_values(|x: usize| x as int).take(from@.len() as int)
                                =~= from@.map_values(|x: usize| x as int));
                        },
                        MonoRepoParent::OriginalSubmod(_) => {},
                    }
                    k = k + 1;
                }
            } else {
                assert(res@.map_values(|x: usize| x as int) =~= Seq::<int>::empty());
            }
            memo.push(res);
            assert(memo@[j as int]@.map_values(|x: usize| x as int) == last_bumps(g, j as int, path@));
            j = j + 1;
        }
        let r = copy_indices(&memo[c]);
        r
    }

    /// The parents of the monorepo of the commits where the submodule at
    /// `path` was last changed, in order, each once.
    pub fn get_parents_of_last_bumps(&self, c: usize, path: &GitPath) -> (r: Vec<usize>)
        requires
            self.wf(),
            c < self.view_commits().len(),
        ensures
            r@.map_values(|x: usize| x as int) == mono_parents_of(
                self.view_commits(),
                last_bumps(self.view_commits(), c as int, path@),
            ),
            forall|k: int| 0 <= k < r@.len() ==> #[trigger] r@[k] < self.view_commits().len(),
    {
        let ghost g = self.view_commits();
        let bumps = self.get_bumps(c, path);
        let ghost bv = bumps@.map_values(|x: usize| x as int);
        proof {
            lemma_last_bumps_in_range(g, c as int, path@);
        }
        let mut out: Vec<usize> = Vec::new();
        let mut i: usize = 0;
        while i < bumps.len()
            invariant
                i <= bumps@.len(),
                g == graph_view(self.commits@),
                bv == bumps@.map_values(|x: usize| x as int),
                forall|k: int| 0 <= k < bv.len() ==> 0 <= #[trigger] bv[k] < g.len(),
                out@.map_values(|x: usize| x as int) == mono_parents_of(g, bv.take(i as int)),
                graph_ok(g),
                forall|k: int| 0 <= k < out@.len() ==> #[trigger] out@[k] < g.len(),
            decreases bumps.len() - i,
        {
            assert(bv.take(i + 1).drop_last() =~= bv.take(i as int));
            assert(bv.take(i + 1).last() == bv[i as int]);
            let b = bumps[i];
            assert(0 <= bv[i as int] < g.len());
            let parents = &self.commits[b].parents;
            let ghost pv = parents_view(parents@);
            assert(pv == g[b as int].parents);
            let ghost start = out@.map_values(|x: usize| x as int);
            proof {
                lemma_commit_facts(g, b as int);
            }
            let mut k: usize = 0;
            while k < parents.len()
                invariant
                    k <= parents@.len(),
                    pv == parents_view(parents@),
                    parents_before(pv, b as int),
                    b < g.len(),
                    forall|t: int| 0 <= t < out@.len() ==> #[trigger] out@[t] < g.len(),
                    out@.map_values(|x: usize| x as int) == add_mono_parents(start, pv.take(k as int)),
                decreases parents.len() - k,
            {
                assert(pv.take(k + 1).drop_last() =~= pv.take(k as int));
                assert(pv.take(k + 1).last() == parent_view(parents@[k as int]));
                match &parents[k] {
                    MonoRepoParent::Mono(p) => {
                        let ghost ov = out@.map_values(|x: usize| x as int);
                        let mut seen = false;
                        let mut t: usize = 0;
                        while t < out.len()
                            invariant
                                t <= out@.len(),
                                ov == out@.map_values(|x: usize| x as int),
                                seen == (exists|u: int| 0 <= u < t && #[trigger] ov[u] == *p as int),
                            decreases out.len() - t,
                        {
                            assert(ov[t as int] == out@[t as int] as int);
                            if out[t] == *p {
                                seen = true;
                            }
                            t = t + 1;
                        }
                        assert(seen == ov.contains(*p as int));
                        assert(pv[k as int] == ParentView::Mono(*p as int));
                        if !seen {
                            out.push(*p);
                            assert(out@.map_values(|x: usize| x as int) =~= ov.push(*p as int));
                        }
                    },
                    MonoRepoParent::OriginalSubmod(_) => {},
                }
                k = k + 1;
            }
            assert(pv.take(pv.len() as int) =~= pv);
            i = i + 1;
        }
        assert(bv.take(bumps@.len() as int) =~= bv);
        out
    }
}

fn copy_indices(v: &Vec<usize>) -> (r: Vec<usize>)
    ensures
        r@ == v@,
{
    let mut r: Vec<usize> = Vec::new();
    let mut i: usize = 0;
    while i < v.len()
        invariant
            i <= v@.len(),
            r@ == v@.take(i as int),
        decreases v.len() - i,
    {
        r.push(v[i]);
        assert(r@ =~= v@.take(i + 1));
        i = i + 1;
    }
    assert(v@.take(v@.len() as int) =~= v@);
    r
}

/// The commits that [`last_bumps`] lists are commits of the graph.
proof fn lemma_last_bumps_in_range(g: Seq<MonoCommitView>, c: int, path: Seq<u8>)
    ensures
        forall|k: int|
            0 <= k < last_bumps(g, c, path).len() ==> 0 <= #[trigger] last_bumps(g, c, path)[k] < g.len(),
    decreases c, 1int,
{
    if 0 <= c < g.len() {
        if bumps_path(g[c].bumps, path) {
            assert(last_bumps(g, c, path) =~= seq![c]);
        } else if g[c].paths.contains(path) {
            lemma_parents_last_bumps_in_range(g, c, path, g[c].parents.len() as int);
            assert(last_bumps(g, c, path) == parents_last_bumps(
                g,
                c,
                path,
                g[c].parents.len() as int,
            ));
        } else {
            assert(last_bumps(g, c, path) =~= Seq::<int>::empty());
        }
    }
}

proof fn lemma_parents_last_bumps_in_range(g: Seq<MonoCommitView>, c: int, path: Seq<u8>, k: int)
    ensures
        forall|j: int|
            0 <= j < parents_last_bumps(g, c, path, k).len() ==> 0 <= #[trigger] parents_last_bumps(
                g,
                c,
                path,
                k,
            )[j] < g.len(),
    decreases c, 0int, k,
{
    if !(k <= 0 || !(0 <= c < g.len()) || k > g[c].parents.len()) {
        lemma_parents_last_bumps_in_range(g, c, path, k - 1);
        match g[c].parents[k - 1] {
            ParentView::Mono(p) => if 0 <= p < c {
                lemma_last_bumps_in_range(g, p, path);
                let a = parents_last_bumps(g, c, path, k - 1);
                let b = last_bumps(g, p, path);
                assert(parents_last_bumps(g, c, path, k) == a + b);
                assert forall|j: int| 0 <= j < (a + b).len() implies 0 <= #[trigger] (a + b)[j]
                    < g.len() by {
                    if j < a.len() {
                        assert((a + b)[j] == a[j]);
                    } else {
                        assert((a + b)[j] == b[j - a.len()]);
                    }
                };
            } else {
                assert(parents_last_bumps(g, c, path, k) == parents_last_bumps(g, c, path, k - 1));
            },
            _ => {
                assert(parents_last_bumps(g, c, path, k) == parents_last_bumps(g, c, path, k - 1));
            },
        }
    } else {
        assert(parents_last_bumps(g, c, path, k) =~= Seq::<int>::empty());
    }
}

} // verus!

verus! {

proof fn lemma_add_mono_parents_in_range(seen: Seq<int>, parents: Seq<ParentView>, n: int)
    requires
        forall|k: int| 0 <= k < seen.len() ==> 0 <= #[trigger] seen[k] < n,
        parents_before(parents, n),
    ensures
        forall|k: int|
            0 <= k < add_mono_parents(seen, parents).len() ==> 0 <= #[trigger] add_mono_parents(
                seen,
                parents,
            )[k] < n,
    decreases parents.len(),
{
    if parents.len() > 0 {
        let init = parents.drop_last();
        assert(parents_before(init, n)) by {
            assert forall|k: int| 0 <= k < init.len() implies (#[trigger] init[k] matches ParentView::Mono(p)
                ==> 0 <= p < n) by {
                assert(init[k] == parents[k]);
            };
        };
        lemma_add_mono_parents_in_range(seen, init, n);
        assert(parents.last() == parents[parents.len() - 1]);
        let s = add_mono_parents(seen, init);
        match parents.last() {
            ParentView::Mono(p) => {
                assert(0 <= p < n);
                if !s.contains(p) {
                    assert forall|k: int| 0 <= k < s.push(p).len() implies 0 <= #[trigger] s.push(
                        p,
                    )[k] < n by {
                        if k < s.len() {
                            assert(s.push(p)[k] == s[k]);
                        }
                    };
                }
            },
            _ => {},
        }
    }
}

/// The parents of the monorepo of commits of the graph are commits of the
/// graph.
pub proof fn lemma_mono_parents_in_range(g: Seq<MonoCommitView>, cs: Seq<int>)
    requires
        graph_ok(g),
        forall|k: int| 0 <= k < cs.len() ==> 0 <= #[trigger] cs[k] < g.len(),
    ensures
        forall|k: int|
            0 <= k < mono_parents_of(g, cs).len() ==> 0 <= #[trigger] mono_parents_of(g, cs)[k]
                < g.len(),
    decreases cs.len(),
{
    if cs.len() > 0 {
        let init = cs.drop_last();
        assert forall|k: int| 0 <= k < init.len() implies 0 <= #[trigger] init[k] < g.len() by {
            assert(init[k] == cs[k]);
        };
        lemma_mono_parents_in_range(g, init);
        let c = cs.last();
        assert(c == cs[cs.len() - 1]);
        lemma_commit_facts(g, c);
        let ps = g[c].parents;
        assert(parents_before(ps, g.len() as int)) by {
            assert forall|k: int| 0 <= k < ps.len() implies (#[trigger] ps[k] matches ParentView::Mono(p)
                ==> 0 <= p < g.len()) by {
                assert(parents_before(ps, c));
            };
        };
        lemma_add_mono_parents_in_range(mono_parents_of(g, init), ps, g.len() as int);
    }
}

/// The commits that the walk goes on to from `c` are commits of the graph.
pub proof fn lemma_next_commits_in_range(g: Seq<MonoCommitView>, c: int, path: Seq<u8>)
    requires
        graph_ok(g),
    ensures
        forall|k: int|
            0 <= k < mono_parents_of(g, last_bumps(g, c, path)).len() ==> 0
                <= #[trigger] mono_parents_of(g, last_bumps(g, c, path))[k] < g.len(),
{
    lemma_last_bumps_in_range(g, c, path);
    lemma_mono_parents_in_range(g, last_bumps(g, c, path));
}

} // verus!
