//! The commits of a repository as the loader keeps them: each with its id,
//! its parents and its depth, the length of the longest path to a root.
use crate::fast_export::change_view;
use crate::fast_export::changes_view;
use crate::fast_export::parse_oid;
use crate::fast_export::parse_oid_exec;
use crate::fast_export::ChangeView;
use crate::fast_export::ChangedFile;
use crate::fast_export::FastExportCommit;
use crate::git::GitPath;
use crate::gitmodules::str_from_utf8;
use crate::mono::copy_paths;
use crate::mono::find_path;
use crate::mono::paths_view;
use crate::repo_name::SubRepoName;
use vstd::prelude::*;
use vstd::utf8::decode_utf8;
use vstd::utf8::valid_utf8;

verus! {

/// A submodule that a commit adds or changes: the subrepo it belongs to,
/// when `.gitmodules` resolves it, and its commit.
#[derive(Debug, Clone, PartialEq, Eq)]
pub struct ThinSubmoduleContent {
    pub repo_name: Option<SubRepoName>,
    pub commit_id: Vec<u8>,
}

/// A change of a submodule in a commit.
#[derive(Debug, Clone, PartialEq, Eq)]
pub enum ThinSubmodule {
    AddedOrModified(ThinSubmoduleContent),
    Removed,
}

/// A commit of a repository, its parents given by their index.
#[derive(Debug)]
pub struct ThinCommit {
    pub commit_id: Vec<u8>,
    pub tree_id: Vec<u8>,
    /// The number of commits on the longest path to a root; it decreases
    /// strictly along the parents.
    pub depth: usize,
    pub parents: Vec<usize>,
    /// The `.gitmodules` file of the commit.
    pub dot_gitmodules: Option<ExportedFileEntry>,
    /// The submodules that change compared to the first parent, each path
    /// once; added ones included.
    pub submodule_bumps: Vec<(GitPath, ThinSubmodule)>,
    /// The paths of all the submodules of the commit, each once.
    pub submodule_paths: Vec<GitPath>,
}

pub enum ThinSubView {
    AddedOrModified { repo_name: Option<Seq<char>>, commit_id: Seq<u8> },
    Removed,
}

pub open spec fn thin_sub_view(b: ThinSubmodule) -> ThinSubView {
    match b {
        ThinSubmodule::AddedOrModified(c) => ThinSubView::AddedOrModified {
            repo_name: match c.repo_name {
                Some(n) => Some(n@),
                None => None,
            },
            commit_id: c.commit_id@,
        },
        ThinSubmodule::Removed => ThinSubView::Removed,
    }
}

pub open spec fn thin_bumps_view(s: Seq<(GitPath, ThinSubmodule)>) -> Seq<(Seq<u8>, ThinSubView)> {
    s.map_values(|b: (GitPath, ThinSubmodule)| (b.0@, thin_sub_view(b.1)))
}

/// Each path is changed at most once.
pub open spec fn unique_thin_bumps(bumps: Seq<(Seq<u8>, ThinSubView)>) -> bool {
    forall|i: int, j: int| 0 <= i < j < bumps.len() ==> #[trigger] bumps[i].0 != #[trigger] bumps[j].0
}

/// The paths after the changes: an added or modified submodule is there, a
/// removed one is not.
pub open spec fn apply_thin_bumps(base: Set<Seq<u8>>, bumps: Seq<(Seq<u8>, ThinSubView)>) -> Set<Seq<u8>>
    decreases bumps.len(),
{
    if bumps.len() == 0 {
        base
    } else {
        let s = apply_thin_bumps(base, bumps.drop_last());
        match bumps.last().1 {
            ThinSubView::AddedOrModified { .. } => s.insert(bumps.last().0),
            ThinSubView::Removed => s.remove(bumps.last().0),
        }
    }
}

/// The submodule paths a commit starts from: those of its first parent.
pub open spec fn thin_base_paths(cs: Seq<ThinCommit>, parents: Seq<usize>) -> Set<Seq<u8>> {
    if parents.len() > 0 {
        paths_view(cs[parents[0] as int].submodule_paths@).to_set()
    } else {
        Set::empty()
    }
}

/// One more than the depth of the deepest parent, 0 without parents.
pub open spec fn parents_depth(cs: Seq<ThinCommit>, ps: Seq<usize>) -> int
    decreases ps.len(),
{
    if ps.len() == 0 {
        0
    } else {
        let d = parents_depth(cs, ps.drop_last());
        let e = cs[ps.last() as int].depth + 1;
        if e > d {
            e
        } else {
            d
        }
    }
}

/// The submodule paths of a commit follow from those of its first parent
/// and its changes, which change each path once.
pub open spec fn thin_paths_ok(prev: Seq<ThinCommit>, c: ThinCommit) -> bool {
    &&& unique_thin_bumps(thin_bumps_view(c.submodule_bumps@))
    &&& paths_view(c.submodule_paths@).no_duplicates()
    &&& paths_view(c.submodule_paths@).to_set() == apply_thin_bumps(
        thin_base_paths(prev, c.parents@),
        thin_bumps_view(c.submodule_bumps@),
    )
}

/// Each commit comes after its parents and has the depth and the submodule
/// paths they give it.
pub open spec fn thin_ok(cs: Seq<ThinCommit>) -> bool {
    &&& forall|i: int|
        0 <= i < cs.len() ==> {
            &&& forall|k: int|
                0 <= k < cs[i].parents@.len() ==> #[trigger] cs[i].parents@[k] < i
            &&& cs[i].depth == parents_depth(cs, cs[i].parents@)
            &&& cs[i].depth <= i
        }
    &&& forall|i: int| 0 <= i < cs.len() ==> #[trigger] thin_paths_ok(cs, cs[i])
}

proof fn lemma_parents_depth(cs: Seq<ThinCommit>, ps: Seq<usize>, k: int)
    requires
        0 <= k < ps.len(),
    ensures
        cs[ps[k] as int].depth + 1 <= parents_depth(cs, ps),
    decreases ps.len(),
{
    if k < ps.len() - 1 {
        assert(ps.drop_last()[k] == ps[k]);
        lemma_parents_depth(cs, ps.drop_last(), k);
    }
}

proof fn lemma_parents_depth_prefix(cs: Seq<ThinCommit>, more: ThinCommit, ps: Seq<usize>)
    requires
        forall|k: int| 0 <= k < ps.len() ==> #[trigger] ps[k] < cs.len(),
    ensures
        parents_depth(cs.push(more), ps) == parents_depth(cs, ps),
    decreases ps.len(),
{
    if ps.len() > 0 {
        assert forall|k: int| 0 <= k < ps.drop_last().len() implies #[trigger] ps.drop_last()[k]
            < cs.len() by {
            assert(ps.drop_last()[k] == ps[k]);
        };
        lemma_parents_depth_prefix(cs, more, ps.drop_last());
        assert(cs.push(more)[ps.last() as int] == cs[ps.last() as int]);
    }
}

/// `cs[i]` holds the parent `p`.
pub open spec fn has_parent(cs: Seq<ThinCommit>, i: usize, p: usize) -> bool {
    cs[i as int].parents@.contains(p)
}

/// Each commit in the order is new, comes once, and comes after those of
/// its parents that were not loaded before.
pub open spec fn load_order_ok(cs: Seq<ThinCommit>, before: Seq<bool>, order: Seq<usize>) -> bool {
    &&& forall|k: int| 0 <= k < order.len() ==> #[trigger] order[k] < cs.len() && !before[order[k] as int]
    &&& forall|a: int, b: int| 0 <= a < b < order.len() ==> order[a] != order[b]
    &&& forall|k: int, q: int|
        #![trigger order[k], cs[order[k] as int].parents@[q]]
        0 <= k < order.len() && 0 <= q < cs[order[k] as int].parents@.len() ==> {
            let p = cs[order[k] as int].parents@[q];
            before[p as int] || exists|j: int| 0 <= j < k && order[j] == p
        }
}

/// What is loaded afterwards: what was before and what the order loads.
pub open spec fn loaded_after(before: Seq<bool>, order: Seq<usize>, after: Seq<bool>) -> bool {
    &&& after.len() == before.len()
    &&& forall|i: int| 0 <= i < after.len() ==> #[trigger] after[i] == (before[i] || order.contains(i as usize))
}

/// Each commit of the order from `start` on is the parent of a later one or
/// one of `roots`.
pub open spec fn each_needed(cs: Seq<ThinCommit>, order: Seq<usize>, start: int, roots: Seq<usize>) -> bool {
    forall|k: int|
        start <= k < order.len() ==> roots.contains(#[trigger] order[k]) || exists|j: int|
            k < j < order.len() && has_parent(cs, order[j], order[k])
}

/// Marking `c` loaded as it is added to the order keeps the marks right.
proof fn lemma_loaded_pushed(before: Seq<bool>, o1: Seq<usize>, l1: Seq<bool>, c: usize)
    requires
        loaded_after(before, o1, l1),
        c < before.len() <= usize::MAX,
    ensures
        loaded_after(before, o1.push(c), l1.update(c as int, true)),
{
    let o = o1.push(c);
    let loaded = l1.update(c as int, true);
    assert forall|i: int| 0 <= i < loaded.len() implies #[trigger] loaded[i] == (before[i] || o.contains(
        i as usize,
    )) by {
        if i == c {
            assert(o[o1.len() as int] == c);
        } else {
            assert(l1[i] == (before[i] || o1.contains(i as usize)));
            if o1.contains(i as usize) {
                let j = choose|j: int| 0 <= j < o1.len() && o1[j] == i as usize;
                assert(o[j] == o1[j]);
            }
            if o.contains(i as usize) {
                let j = choose|j: int| 0 <= j < o.len() && o[j] == i as usize;
                assert(j < o1.len());
                assert(o1[j] == o[j]);
            }
        }
    };
}

/// Adding `c` after its parents' ancestors keeps the order right.
proof fn lemma_root_pushed(
    cs: Seq<ThinCommit>,
    before: Seq<bool>,
    o1: Seq<usize>,
    l1: Seq<bool>,
    c: usize,
    start: int,
    order0: Seq<usize>,
)
    requires
        thin_ok(cs),
        c < cs.len(),
        cs.len() <= usize::MAX,
        before.len() == cs.len(),
        !before[c as int],
        !order0.contains(c),
        0 <= start <= o1.len(),
        load_order_ok(cs, before, o1),
        loaded_after(before, o1, l1),
        o1.take(start) == order0,
        forall|r: int|
            0 <= r < cs[c as int].parents@.len() ==> l1[#[trigger] cs[c as int].parents@[r] as int],
        forall|k: int| start <= k < o1.len() ==> cs[#[trigger] o1[k] as int].depth < cs[c as int].depth,
        each_needed(cs, o1, start, cs[c as int].parents@),
    ensures
        ({
            let o = o1.push(c);
            &&& load_order_ok(cs, before, o)
            &&& loaded_after(before, o, l1.update(c as int, true))
            &&& o.take(start) == order0
            &&& each_needed(cs, o, start, seq![c])
            &&& forall|k: int| start <= k < o.len() ==> cs[#[trigger] o[k] as int].depth <= cs[c as int].depth
        }),
{
    let o = o1.push(c);
    let loaded = l1.update(c as int, true);
    let parents = cs[c as int].parents@;
    assert(o.take(start) =~= o1.take(start));
    assert(!o1.contains(c)) by {
        if o1.contains(c) {
            let j = choose|j: int| 0 <= j < o1.len() && o1[j] == c;
            if j < start {
                assert(order0[j] == c);
            } else {
                assert(cs[o1[j] as int].depth < cs[c as int].depth);
            }
        }
    };
    assert forall|k: int| 0 <= k < o.len() implies #[trigger] o[k] < cs.len() && !before[o[k] as int] by {
        if k < o1.len() {
            assert(o[k] == o1[k]);
        }
    };
    assert forall|a: int, b: int| 0 <= a < b < o.len() implies o[a] != o[b] by {
        if b == o1.len() {
            assert(o[a] == o1[a]);
            assert(o1.contains(o1[a]));
        } else {
            assert(o[a] == o1[a] && o[b] == o1[b]);
        }
    };
    assert forall|k: int, r: int|
        #![trigger o[k], cs[o[k] as int].parents@[r]]
        0 <= k < o.len() && 0 <= r < cs[o[k] as int].parents@.len() implies {
        let p = cs[o[k] as int].parents@[r];
        before[p as int] || exists|j: int| 0 <= j < k && o[j] == p
    } by {
        let p = cs[o[k] as int].parents@[r];
        if k < o1.len() {
            assert(o[k] == o1[k]);
            if !before[p as int] {
                let j = choose|j: int| 0 <= j < k && o1[j] == p;
                assert(o[j] == o1[j]);
            }
        } else {
            assert(o[k] == c);
            assert(parents[r] == p);
            assert(l1[p as int]);
            if !before[p as int] {
                assert(o1.contains(p));
                let j = choose|j: int| 0 <= j < o1.len() && o1[j] == p;
                assert(o[j] == o1[j]);
            }
        }
    };
    lemma_loaded_pushed(before, o1, l1, c);
    assert forall|k: int| start <= k < o.len() implies seq![c].contains(#[trigger] o[k]) || exists|j: int|
        k < j < o.len() && has_parent(cs, o[j], o[k]) by {
        if k < o1.len() {
            assert(o[k] == o1[k]);
            if parents.contains(o1[k]) {
                assert(o[o1.len() as int] == c);
                assert(has_parent(cs, o[o1.len() as int], o[k]));
            } else {
                let j = choose|j: int| k < j < o1.len() && has_parent(cs, o1[j], o1[k]);
                assert(o[j] == o1[j]);
            }
        } else {
            assert(seq![c][0] == c);
        }
    };
    assert forall|k: int| start <= k < o.len() implies cs[#[trigger] o[k] as int].depth <= cs[c as int].depth by {
        if k < o1.len() {
            assert(o[k] == o1[k]);
        }
    };
}

/// `j` is a parent of `m`.
pub open spec fn is_thin_parent(cs: Seq<ThinCommit>, m: int, j: int) -> bool {
    0 <= m < cs.len() && exists|k: int|
        0 <= k < cs[m].parents@.len() && #[trigger] cs[m].parents@[k] as int == j
}

/// `a` is `d` or one of its ancestors: a parent of `d` or of one of its
/// ancestors.
pub open spec fn thin_ancestor(cs: Seq<ThinCommit>, a: int, d: int) -> bool
    decreases d - a,
{
    a == d || (a < d && exists|m: int|
        a < m <= d && #[trigger] is_thin_parent(cs, m, a) && thin_ancestor(cs, m, d))
}

/// `m` is `d` or a parent of one of the ancestors of `d` after `i`.
pub open spec fn thin_reached_after(cs: Seq<ThinCommit>, i: int, m: int, d: int) -> bool {
    m == d || exists|n: int| i < n <= d && #[trigger] is_thin_parent(cs, n, m) && thin_ancestor(cs, n, d)
}

proof fn lemma_ancestor_le(cs: Seq<ThinCommit>, a: int, d: int)
    requires
        thin_ancestor(cs, a, d),
    ensures
        a <= d,
{
}

proof fn lemma_needed_is_ancestor(cs: Seq<ThinCommit>, order: Seq<usize>, tips: Seq<usize>, k: int)
    requires
        thin_ok(cs),
        forall|q: int| 0 <= q < order.len() ==> #[trigger] order[q] < cs.len(),
        each_needed(cs, order, 0, tips),
        0 <= k < order.len(),
    ensures
        exists|t: int| 0 <= t < tips.len() && thin_ancestor(cs, order[k] as int, #[trigger] tips[t] as int),
    decreases order.len() - k,
{
    if tips.contains(order[k]) {
        let t = choose|t: int| 0 <= t < tips.len() && tips[t] == order[k];
        assert(thin_ancestor(cs, order[k] as int, tips[t] as int));
    } else {
        let j = choose|j: int| k < j < order.len() && has_parent(cs, order[j], order[k]);
        lemma_needed_is_ancestor(cs, order, tips, j);
        let t = choose|t: int| 0 <= t < tips.len() && thin_ancestor(cs, order[j] as int, #[trigger] tips[t] as int);
        let m = order[j] as int;
        let q = choose|q: int| 0 <= q < cs[m].parents@.len() && cs[m].parents@[q] == order[k];
        assert(cs[m].parents@[q] < m);
        assert(is_thin_parent(cs, m, order[k] as int));
        lemma_ancestor_le(cs, m, tips[t] as int);
        assert(thin_ancestor(cs, order[k] as int, tips[t] as int));
    }
}

/// Every commit in a load order made from tips is one of their ancestors
/// (a tip included).
pub proof fn law_load_order_within_ancestors(
    cs: Seq<ThinCommit>,
    before: Seq<bool>,
    order: Seq<usize>,
    tips: Seq<usize>,
)
    requires
        thin_ok(cs),
        load_order_ok(cs, before, order),
        each_needed(cs, order, 0, tips),
    ensures
        forall|k: int|
            0 <= k < order.len() ==> #[trigger] from_tips(cs, order[k], tips),
{
    assert forall|k: int| 0 <= k < order.len() implies #[trigger] from_tips(cs, order[k], tips) by {
        lemma_needed_is_ancestor(cs, order, tips, k);
    };
}

/// `c` is one of the tips or an ancestor of one.
pub open spec fn from_tips(cs: Seq<ThinCommit>, c: usize, tips: Seq<usize>) -> bool {
    exists|t: int| 0 <= t < tips.len() && thin_ancestor(cs, c as int, #[trigger] tips[t] as int)
}

/// A set of loaded commits that holds the parents of each of its commits.
pub open spec fn closed_under_parents(cs: Seq<ThinCommit>, loaded: Seq<bool>) -> bool {
    forall|i: int, q: int|
        0 <= i < cs.len() && loaded[i] && 0 <= q < cs[i].parents@.len() ==> loaded[#[trigger] cs[i].parents@[q] as int]
}

#[verifier::rlimit(30)]
proof fn lemma_ancestor_loaded(
    cs: Seq<ThinCommit>,
    before: Seq<bool>,
    order: Seq<usize>,
    after: Seq<bool>,
    a: int,
    d: int,
)
    requires
        thin_ok(cs),
        cs.len() <= usize::MAX,
        before.len() == cs.len(),
        closed_under_parents(cs, before),
        load_order_ok(cs, before, order),
        loaded_after(before, order, after),
        0 <= a <= d < cs.len(),
        after[d],
        thin_ancestor(cs, a, d),
    ensures
        after[a],
    decreases d - a,
{
    if a != d {
        let m = choose|m: int| a < m <= d && #[trigger] is_thin_parent(cs, m, a) && thin_ancestor(cs, m, d);
        lemma_ancestor_loaded(cs, before, order, after, m, d);
        let q = choose|q: int| 0 <= q < cs[m].parents@.len() && #[trigger] cs[m].parents@[q] as int == a;
        let p = cs[m].parents@[q];
        if before[m] {
            assert(before[p as int]);
        } else {
            assert(after[m] == (before[m] || order.contains(m as usize)));
            let k = choose|k: int| 0 <= k < order.len() && order[k] == m as usize;
            assert(order[k] as int == m);
            if !before[a] {
                assert(cs[order[k] as int].parents@[q] == p);
                let j = choose|j: int| 0 <= j < k && order[j] == p;
                assert(order.contains(p));
                assert(after[a] == (before[a] || order.contains(a as usize)));
            }
        }
    }
}

/// When the loaded commits held the parents of each of theirs, loading the
/// tips leaves every ancestor of every tip loaded.
pub proof fn law_ancestors_of_tips_loaded(
    cs: Seq<ThinCommit>,
    before: Seq<bool>,
    order: Seq<usize>,
    after: Seq<bool>,
    tips: Seq<usize>,
)
    requires
        thin_ok(cs),
        cs.len() <= usize::MAX,
        before.len() == cs.len(),
        closed_under_parents(cs, before),
        load_order_ok(cs, before, order),
        loaded_after(before, order, after),
        forall|k: int| 0 <= k < tips.len() ==> #[trigger] tips[k] < cs.len() && after[tips[k] as int],
    ensures
        forall|k: int, a: int|
            0 <= k < tips.len() && 0 <= a < cs.len() && #[trigger] thin_ancestor(cs, a, tips[k] as int)
                ==> after[a],
{
    assert forall|k: int, a: int|
        0 <= k < tips.len() && 0 <= a < cs.len() && #[trigger] thin_ancestor(cs, a, tips[k] as int) implies after[a] by {
        lemma_ancestor_le(cs, a, tips[k] as int);
        lemma_ancestor_loaded(cs, before, order, after, a, tips[k] as int);
    };
}

/// The change of `path` among the changes.
pub open spec fn thin_bump_at(bumps: Seq<(Seq<u8>, ThinSubView)>, path: Seq<u8>) -> Option<ThinSubView>
    decreases bumps.len(),
{
    if bumps.len() == 0 {
        None
    } else if bumps[0].0 == path {
        Some(bumps[0].1)
    } else {
        thin_bump_at(bumps.drop_first(), path)
    }
}

/// The change of the submodule at `path` that commit `c` holds, found
/// through its first parents.
pub open spec fn thin_submodule_at(g: Seq<ThinCommit>, c: int, path: Seq<u8>) -> Option<ThinSubView>
    decreases c,
{
    if 0 <= c < g.len() {
        match thin_bump_at(thin_bumps_view(g[c].submodule_bumps@), path) {
            Some(b) => Some(b),
            None => if g[c].parents@.len() > 0 && g[c].parents@[0] < c {
                thin_submodule_at(g, g[c].parents@[0] as int, path)
            } else {
                None
            },
        }
    } else {
        None
    }
}

proof fn lemma_thin_bump_found(bv: Seq<(Seq<u8>, ThinSubView)>, path: Seq<u8>, b: int)
    requires
        0 <= b < bv.len(),
        bv[b].0 == path,
        forall|q: int| 0 <= q < b ==> (#[trigger] bv[q]).0 != path,
    ensures
        thin_bump_at(bv, path) == Some(bv[b].1),
    decreases b,
{
    if b > 0 {
        assert forall|q: int| 0 <= q < b - 1 implies (#[trigger] bv.drop_first()[q]).0 != path by {
            assert(bv.drop_first()[q] == bv[q + 1]);
        };
        lemma_thin_bump_found(bv.drop_first(), path, b - 1);
        assert(bv[0].0 != path);
    }
}

proof fn lemma_thin_bump_absent(bv: Seq<(Seq<u8>, ThinSubView)>, path: Seq<u8>)
    requires
        forall|q: int| 0 <= q < bv.len() ==> (#[trigger] bv[q]).0 != path,
    ensures
        thin_bump_at(bv, path) is None,
    decreases bv.len(),
{
    if bv.len() > 0 {
        assert forall|q: int| 0 <= q < bv.drop_first().len() implies (#[trigger] bv.drop_first()[q]).0
            != path by {
            assert(bv.drop_first()[q] == bv[q + 1]);
        };
        lemma_thin_bump_absent(bv.drop_first(), path);
        assert(bv[0].0 != path);
    }
}

/// The commits of a repository, each after its parents.
pub struct ThinCommitGraph {
    commits: Vec<ThinCommit>,
}

impl ThinCommitGraph {
    pub closed spec fn view_commits(&self) -> Seq<ThinCommit> {
        self.commits@
    }

    pub closed spec fn wf(&self) -> bool {
        thin_ok(self.commits@)
    }

    /// A graph without commits.
    pub fn new() -> (r: Self)
        ensures
            r.wf(),
            r.view_commits().len() == 0,
    {
        ThinCommitGraph { commits: Vec::new() }
    }

    /// The number of commits.
    pub fn len(&self) -> (r: usize)
        ensures
            r == self.view_commits().len(),
    {
        self.commits.len()
    }

    /// The commit at `i`.
    pub fn commit(&self, i: usize) -> (r: &ThinCommit)
        requires
            i < self.view_commits().len(),
        ensures
            *r == self.view_commits()[i as int],
    {
        &self.commits[i]
    }

    /// Adds a commit with these parents and changes and gives its index:
    /// its depth is one more than that of its deepest parent, 0 without
    /// parents, and it holds the submodule paths of its first parent with the
    /// added or modified ones added and the removed ones taken away.
    pub fn new_rc(
        &mut self,
        commit_id: Vec<u8>,
        tree_id: Vec<u8>,
        parents: Vec<usize>,
        dot_gitmodules: Option<ExportedFileEntry>,
        submodule_bumps: Vec<(GitPath, ThinSubmodule)>,
    ) -> (r: usize)
        requires
            old(self).wf(),
            old(self).view_commits().len() < usize::MAX,
            forall|k: int| 0 <= k < parents@.len() ==> #[trigger] parents@[k] < old(
                self,
            ).view_commits().len(),
            unique_thin_bumps(thin_bumps_view(submodule_bumps@)),
        ensures
            final(self).wf(),
            r == old(self).view_commits().len(),
            final(self).view_commits().len() == r + 1,
            final(self).view_commits().take(r as int) == old(self).view_commits(),
            ({
                let c = final(self).view_commits()[r as int];
                let prev = old(self).view_commits();
                &&& c.commit_id == commit_id
                &&& c.tree_id == tree_id
                &&& c.parents == parents
                &&& c.dot_gitmodules == dot_gitmodules
                &&& c.submodule_bumps == submodule_bumps
                &&& c.depth == parents_depth(prev, parents@)
                &&& paths_view(c.submodule_paths@).no_duplicates()
                &&& paths_view(c.submodule_paths@).to_set() == apply_thin_bumps(
                    thin_base_paths(prev, parents@),
                    thin_bumps_view(submodule_bumps@),
                )
            }),
    {
        let ghost cs = self.commits@;
        let mut depth: usize = 0;
        let mut k: usize = 0;
        while k < parents.len()
            invariant
                k <= parents@.len(),
                cs == self.commits@,
                forall|q: int| 0 <= q < cs.len() ==> #[trigger] cs[q].depth <= q,
                cs.len() < usize::MAX,
                forall|q: int| 0 <= q < parents@.len() ==> #[trigger] parents@[q] < cs.len(),
                depth == parents_depth(cs, parents@.take(k as int)),
                depth <= cs.len(),
            decreases parents.len() - k,
        {
            assert(parents@.take(k + 1).drop_last() =~= parents@.take(k as int));
            assert(parents@.take(k + 1).last() == parents@[k as int]);
            let p = parents[k];
            assert(cs[p as int].depth <= p);
            let d = self.commits[p].depth + 1;
            if d > depth {
                depth = d;
            }
            k = k + 1;
        }
        assert(parents@.take(parents@.len() as int) =~= parents@);
        let ghost base = thin_base_paths(cs, parents@);
        let ghost bv = thin_bumps_view(submodule_bumps@);
        let mut paths: Vec<GitPath> = Vec::new();
        if parents.len() > 0 {
            proof {
                assert(thin_paths_ok(cs, cs[parents@[0] as int]));
            }
            paths = copy_paths(&self.commits[parents[0]].submodule_paths);
        }
        assert(paths_view(paths@).to_set() =~= base);
        let mut b: usize = 0;
        while b < submodule_bumps.len()
            invariant
                b <= submodule_bumps@.len(),
                bv == thin_bumps_view(submodule_bumps@),
                paths_view(paths@).no_duplicates(),
                paths_view(paths@).to_set() == apply_thin_bumps(base, bv.take(b as int)),
            decreases submodule_bumps.len() - b,
        {
            assert(bv.take(b + 1).drop_last() =~= bv.take(b as int));
            assert(bv.take(b + 1).last() == bv[b as int]);
            let ghost before = paths_view(paths@);
            let path = &submodule_bumps[b].0;
            match &submodule_bumps[b].1 {
                ThinSubmodule::AddedOrModified(_) => {
                    if find_path(&paths, path).is_none() {
                        paths.push(path.duplicate());
                        assert(paths_view(paths@) =~= before.push(path@));
                        proof {
                            before.lemma_push_to_set_commute(path@);
                        }
                    } else {
                        assert(before.to_set() =~= before.to_set().insert(path@));
                    }
                },
                ThinSubmodule::Removed => {
                    match find_path(&paths, path) {
                        Some(idx) => {
                            paths.remove(idx);
                            assert(paths_view(paths@) =~= before.remove(idx as int));
                            assert forall|x: Seq<u8>|
                                #![trigger paths_view(paths@).to_set().contains(x)]
                                paths_view(paths@).to_set().contains(x) == before.to_set().remove(
                                    path@,
                                ).contains(x) by {
                                let after = paths_view(paths@);
                                if after.contains(x) {
                                    let j = choose|j: int| 0 <= j < after.len() && after[j] == x;
                                    if j < idx {
                                        assert(before[j] == x);
                                    } else {
                                        assert(before[j + 1] == x);
                                    }
                                }
                                if before.contains(x) && x != path@ {
                                    let j = choose|j: int| 0 <= j < before.len() && before[j] == x;
                                    if j < idx {
                                        assert(after[j] == x);
                                    } else {
                                        assert(j != idx);
                                        assert(after[j - 1] == x);
                                    }
                                }
                            };
                            assert(paths_view(paths@).to_set() =~= before.to_set().remove(path@));
                        },
                        None => {
                            assert(before.to_set() =~= before.to_set().remove(path@));
                        },
                    }
                },
            }
            b = b + 1;
        }
        assert(bv.take(submodule_bumps@.len() as int) =~= bv);
        let c = ThinCommit {
            commit_id,
            tree_id,
            depth,
            parents,
            dot_gitmodules,
            submodule_bumps,
            submodule_paths: paths,
        };
        let r = self.commits.len();
        self.commits.push(c);
        proof {
            let g = self.commits@;
            assert(g =~= cs.push(c));
            assert(g.take(r as int) =~= cs);
            assert forall|i: int| 0 <= i < g.len() implies {
                &&& forall|q: int|
                    0 <= q < g[i].parents@.len() ==> #[trigger] g[i].parents@[q] < i
                &&& g[i].depth == parents_depth(g, g[i].parents@)
                &&& g[i].depth <= i
            } by {
                if i < r {
                    assert(g[i] == cs[i]);
                    assert forall|q: int| 0 <= q < cs[i].parents@.len() implies #[trigger] cs[i].parents@[q]
                        < cs.len() by {
                        assert(cs[i].parents@[q] < i);
                    };
                    lemma_parents_depth_prefix(cs, c, cs[i].parents@);
                } else {
                    lemma_parents_depth_prefix(cs, c, parents@);
                }
            };
            assert forall|i: int| 0 <= i < g.len() implies #[trigger] thin_paths_ok(g, g[i]) by {
                let ci = g[i];
                if i < r {
                    assert(g[i] == cs[i]);
                    assert(thin_paths_ok(cs, cs[i]));
                    if cs[i].parents@.len() > 0 {
                        assert(cs[i].parents@[0] < i);
                        assert(g[cs[i].parents@[0] as int] == cs[cs[i].parents@[0] as int]);
                    }
                    assert(thin_base_paths(g, ci.parents@) == thin_base_paths(cs, ci.parents@));
                } else {
                    if parents@.len() > 0 {
                        assert(g[parents@[0] as int] == cs[parents@[0] as int]);
                    }
                    assert(thin_base_paths(g, ci.parents@) == thin_base_paths(cs, ci.parents@));
                }
            };
        }
        r
    }

    /// The change of the submodule at `path` that `c` holds: its own, else
    /// the one its first parent holds; nothing without one.
    pub fn get_submodule(&self, c: usize, path: &GitPath) -> (r: Option<&ThinSubmodule>)
        requires
            self.wf(),
            c < self.view_commits().len(),
        ensures
            match thin_submodule_at(self.view_commits(), c as int, path@) {
                Some(b) => r matches Some(x) && thin_sub_view(*x) == b,
                None => r is None,
            },
    {
        let ghost g = self.commits@;
        let mut cur = c;
        loop
            invariant
                g == self.commits@,
                thin_ok(g),
                cur < g.len(),
                thin_submodule_at(g, cur as int, path@) == thin_submodule_at(g, c as int, path@),
            decreases cur,
        {
            let commit = &self.commits[cur];
            let ghost bv = thin_bumps_view(commit.submodule_bumps@);
            let mut b: usize = 0;
            while b < commit.submodule_bumps.len()
                invariant
                    b <= commit.submodule_bumps@.len(),
                    bv == thin_bumps_view(commit.submodule_bumps@),
                    g == self.commits@,
                    cur < g.len(),
                    *commit == g[cur as int],
                    thin_submodule_at(g, cur as int, path@) == thin_submodule_at(g, c as int, path@),
                    forall|q: int| 0 <= q < b ==> (#[trigger] bv[q]).0 != path@,
                decreases commit.submodule_bumps.len() - b,
            {
                if commit.submodule_bumps[b].0.same(path) {
                    proof {
                        lemma_thin_bump_found(bv, path@, b as int);
                        assert(bv[b as int].1 == thin_sub_view(commit.submodule_bumps@[b as int].1));
                    }
                    return Some(&commit.submodule_bumps[b].1);
                }
                b = b + 1;
            }
            proof {
                lemma_thin_bump_absent(bv, path@);
            }
            if commit.parents.len() == 0 {
                return None;
            }
            cur = commit.parents[0];
        }
    }

    /// Whether commit `d` is commit `a` or one of its descendants.
    pub fn is_descendant_of(&self, d: usize, a: usize) -> (r: bool)
        requires
            self.wf(),
            a < self.view_commits().len(),
            d < self.view_commits().len(),
        ensures
            r == thin_ancestor(self.view_commits(), a as int, d as int),
    {
        if a > d {
            return false;
        }
        if a == d {
            return true;
        }
        let ghost g = self.view_commits();
        let total = self.commits.len();
        assert(d < total);
        let n = d - a + 1;
        let mut marks: Vec<bool> = Vec::new();
        let mut z: usize = 0;
        while z < n
            invariant
                z <= n,
                marks@.len() == z,
                forall|k: int| 0 <= k < z ==> !#[trigger] marks@[k],
            decreases n - z,
        {
            marks.push(false);
            z = z + 1;
        }
        marks.set(d - a, true);
        let mut i = d;
        while i > a
            invariant
                a < d < g.len(),
                a <= i <= d,
                n == d - a + 1,
                g == self.commits@,
                thin_ok(g),
                marks@.len() == n,
                forall|m: int| i < m <= d ==> #[trigger] marks@[m - a] == thin_ancestor(g, m, d as int),
                forall|m: int|
                    a <= m <= i ==> #[trigger] marks@[m - a] == thin_reached_after(g, i as int, m, d as int),
            decreases i,
        {
            assert(marks@[i - a] == thin_reached_after(g, i as int, i as int, d as int));
            assert(marks@[i - a] == thin_ancestor(g, i as int, d as int));
            let ghost before = marks@;
            let mi = marks[i - a];
            if mi {
                let parents = &self.commits[i].parents;
                let mut k: usize = 0;
                while k < parents.len()
                    invariant
                        k <= parents@.len(),
                        a < i <= d < g.len(),
                        n == d - a + 1,
                        marks@.len() == n,
                        parents@ == g[i as int].parents@,
                        forall|q: int| 0 <= q < parents@.len() ==> #[trigger] parents@[q] < i,
                        forall|m: int| i <= m <= d ==> #[trigger] marks@[m - a] == before[m - a],
                        forall|m: int|
                            a <= m < i ==> #[trigger] marks@[m - a] == (before[m - a] || exists|q: int|
                                0 <= q < k && #[trigger] g[i as int].parents@[q] as int == m),
                    decreases parents.len() - k,
                {
                    let p = parents[k];
                    assert(p < i);
                    if p >= a {
                        marks.set(p - a, true);
                    }
                    assert forall|m: int| a <= m < i implies #[trigger] marks@[m - a] == (before[m
                        - a] || exists|q: int|
                        0 <= q < k + 1 && #[trigger] g[i as int].parents@[q] as int == m) by {
                        if g[i as int].parents@[k as int] as int == m {
                            assert(marks@[m - a]);
                        }
                    };
                    k = k + 1;
                }
            }
            assert forall|m: int| a <= m <= i - 1 implies #[trigger] marks@[m - a] == thin_reached_after(
                g,
                i - 1,
                m,
                d as int,
            ) by {
                if thin_reached_after(g, i - 1, m, d as int) && !thin_reached_after(g, i as int, m, d as int) {
                    let w = choose|w: int|
                        i - 1 < w <= d && #[trigger] is_thin_parent(g, w, m) && thin_ancestor(g, w, d as int);
                    assert(w == i);
                    let q = choose|q: int|
                        0 <= q < g[i as int].parents@.len() && #[trigger] g[i as int].parents@[q] as int == m;
                    assert(mi);
                }
                if mi && exists|q: int|
                    0 <= q < g[i as int].parents@.len() && #[trigger] g[i as int].parents@[q] as int == m {
                    assert(is_thin_parent(g, i as int, m));
                    assert(thin_reached_after(g, i - 1, m, d as int));
                }
                if thin_reached_after(g, i as int, m, d as int) && m != d {
                    let w = choose|w: int|
                        i < w <= d && #[trigger] is_thin_parent(g, w, m) && thin_ancestor(g, w, d as int);
                    assert(thin_reached_after(g, i - 1, m, d as int));
                }
            };
            i = i - 1;
        }
        let ghost za = a as int;
        assert(marks@[za - za] == thin_reached_after(g, za, za, d as int));
        assert(thin_reached_after(g, za, za, d as int) == thin_ancestor(g, za, d as int));
        marks[0]
    }

    /// Adds `c` and its ancestors that are not loaded to the order, each
    /// after its parents, and marks them loaded.
    fn load_with_ancestors(
        &self,
        c: usize,
        loaded: &mut Vec<bool>,
        order: &mut Vec<usize>,
        Ghost(before): Ghost<Seq<bool>>,
    )
        requires
            self.wf(),
            c < self.view_commits().len(),
            before.len() == self.view_commits().len(),
            load_order_ok(self.view_commits(), before, old(order)@),
            loaded_after(before, old(order)@, old(loaded)@),
        ensures
            load_order_ok(self.view_commits(), before, final(order)@),
            loaded_after(before, final(order)@, final(loaded)@),
            final(order)@.take(old(order)@.len() as int) == old(order)@,
            final(order)@.len() >= old(order)@.len(),
            final(loaded)@[c as int],
            each_needed(self.view_commits(), final(order)@, old(order)@.len() as int, seq![c]),
            forall|k: int|
                #![trigger final(order)@[k]]
                old(order)@.len() <= k < final(order)@.len() ==> self.view_commits()[final(order)@[k] as int].depth
                    <= self.view_commits()[c as int].depth,
        decreases self.view_commits()[c as int].depth,
    {
        let ghost cs = self.commits@;
        let ghost start = order@.len();
        let ghost order0 = order@;
        if loaded[c] {
            assert(order@.take(start as int) =~= order0);
            return;
        }
        let parents = &self.commits[c].parents;
        assert(forall|q: int| 0 <= q < parents@.len() ==> #[trigger] parents@[q] < c);
        let mut q: usize = 0;
        while q < parents.len()
            invariant
                self.wf(),
                cs == self.commits@,
                c < cs.len(),
                parents@ == cs[c as int].parents@,
                q <= parents@.len(),
                before.len() == cs.len(),
                !before[c as int],
                !order0.contains(c),
                load_order_ok(cs, before, order@),
                loaded_after(before, order@, loaded@),
                order@.take(start as int) == order0,
                order@.len() >= start,
                forall|r: int| 0 <= r < q ==> loaded@[#[trigger] parents@[r] as int],
                forall|k: int|
                    start <= k < order@.len() ==> cs[#[trigger] order@[k] as int].depth < cs[c as int].depth,
                each_needed(cs, order@, start as int, parents@),
            decreases parents.len() - q,
        {
            let p = parents[q];
            proof {
                lemma_parents_depth(cs, parents@, q as int);
            }
            let ghost mid = order@;
            let ghost lmid = loaded@;
            self.load_with_ancestors(p, loaded, order, Ghost(before));
            proof {
                let o = order@;
                assert forall|k: int| start <= k < o.len() implies cs[#[trigger] o[k] as int].depth
                    < cs[c as int].depth by {
                    if k < mid.len() {
                        assert(o[k] == o.take(mid.len() as int)[k]);
                    }
                };
                assert forall|r: int| 0 <= r < q + 1 implies loaded@[#[trigger] parents@[r] as int] by {
                    if r < q {
                        assert(lmid[parents@[r] as int]);
                        if !before[parents@[r] as int] {
                            assert(mid.contains(parents@[r]));
                            let j = choose|j: int| 0 <= j < mid.len() && mid[j] == parents@[r];
                            assert(o[j] == o.take(mid.len() as int)[j]);
                            assert(o.contains(parents@[r]));
                        }
                    }
                };
                assert(o.take(start as int) =~= o.take(mid.len() as int).take(start as int));
                assert forall|k: int| start <= k < o.len() implies parents@.contains(#[trigger] o[k])
                    || exists|j: int| k < j < o.len() && has_parent(cs, o[j], o[k]) by {
                    if k < mid.len() {
                        assert(o[k] == mid[k]);
                        if !parents@.contains(mid[k]) {
                            let j = choose|j: int| k < j < mid.len() && has_parent(cs, mid[j], mid[k]);
                            assert(o[j] == mid[j]);
                        }
                    } else if o[k] == p {
                        assert(parents@[q as int] == p);
                    } else {
                        assert(!seq![p].contains(o[k]));
                    }
                };
            }
            q = q + 1;
        }
        let ghost o1 = order@;
        let ghost l1 = loaded@;
        let n = self.commits.len();
        assert(n == cs.len());
        order.push(c);
        loaded.set(c, true);
        proof {
            assert(order@ =~= o1.push(c));
            lemma_root_pushed(cs, before, o1, l1, c, start as int, order0);
        }
    }

    /// The order in which to load the commits of `tips` and their ancestors
    /// that are not loaded yet: each once, after its parents. `loaded` marks
    /// the loaded commits, before and after.
    pub fn cached_load_order(&self, loaded: &mut Vec<bool>, tips: &Vec<usize>) -> (order: Vec<usize>)
        requires
            self.wf(),
            old(loaded)@.len() == self.view_commits().len(),
            forall|k: int| 0 <= k < tips@.len() ==> #[trigger] tips@[k] < self.view_commits().len(),
        ensures
            load_order_ok(self.view_commits(), old(loaded)@, order@),
            loaded_after(old(loaded)@, order@, final(loaded)@),
            forall|k: int| 0 <= k < tips@.len() ==> final(loaded)@[#[trigger] tips@[k] as int],
            each_needed(self.view_commits(), order@, 0, tips@),
    {
        let ghost before = loaded@;
        let ghost cs = self.commits@;
        let mut order: Vec<usize> = Vec::new();
        assert(loaded_after(before, order@, loaded@)) by {
            assert forall|i: int| 0 <= i < loaded@.len() implies #[trigger] loaded@[i] == (before[i]
                || order@.contains(i as usize)) by {};
        };
        let mut t: usize = 0;
        while t < tips.len()
            invariant
                self.wf(),
                cs == self.commits@,
                before.len() == cs.len(),
                forall|k: int| 0 <= k < tips@.len() ==> #[trigger] tips@[k] < cs.len(),
                t <= tips@.len(),
                load_order_ok(cs, before, order@),
                loaded_after(before, order@, loaded@),
                forall|k: int| 0 <= k < t ==> loaded@[#[trigger] tips@[k] as int],
                each_needed(cs, order@, 0, tips@),
            decreases tips.len() - t,
        {
            let ghost mid = order@;
            let ghost lmid = loaded@;
            self.load_with_ancestors(tips[t], loaded, &mut order, Ghost(before));
            proof {
                let o = order@;
                assert forall|k: int| 0 <= k < t + 1 implies loaded@[#[trigger] tips@[k] as int] by {
                    if k < t {
                        assert(lmid[tips@[k] as int]);
                        if !before[tips@[k] as int] {
                            let j = choose|j: int| 0 <= j < mid.len() && mid[j] == tips@[k];
                            assert(o[j] == o.take(mid.len() as int)[j]);
                            assert(o.contains(tips@[k]));
                        }
                    }
                };
                assert forall|k: int| 0 <= k < o.len() implies tips@.contains(#[trigger] o[k])
                    || exists|j: int| k < j < o.len() && has_parent(cs, o[j], o[k]) by {
                    if k < mid.len() {
                        assert(o[k] == o.take(mid.len() as int)[k]);
                        if !tips@.contains(mid[k]) {
                            let j = choose|j: int| k < j < mid.len() && has_parent(cs, mid[j], mid[k]);
                            assert(o[j] == o.take(mid.len() as int)[j]);
                        }
                    } else if !(exists|j: int| k < j < o.len() && has_parent(cs, o[j], o[k])) {
                        assert(seq![tips@[t as int]].contains(o[k]));
                        assert(tips@[t as int] == o[k]);
                    }
                };
            }
            t = t + 1;
        }
        order
    }
}


/// A file of a commit as `git fast-export` reports it: its mode and blob.
#[derive(Debug, Clone, PartialEq, Eq)]
pub struct ExportedFileEntry {
    pub mode: u32,
    pub id: Vec<u8>,
}

/// Why the `.gitmodules` change of a commit cannot be read.
#[derive(Debug, PartialEq, Eq)]
pub enum DotGitModulesError {
    /// The blob id is not an object id.
    BadBlobId,
    /// The mode is not UTF-8.
    BadModeEncoding(Vec<u8>),
    /// The mode is not an octal number that fits in 32 bits.
    BadMode(String),
}

pub open spec fn octal_value(s: Seq<u8>) -> int
    decreases s.len(),
{
    if s.len() == 0 {
        0
    } else {
        8 * octal_value(s.drop_last()) + (s.last() - 48)
    }
}

pub open spec fn octal_digits(s: Seq<u8>) -> bool {
    s.len() > 0 && forall|i: int| 0 <= i < s.len() ==> 48 <= #[trigger] s[i] <= 55
}

/// An unsigned 32-bit number written in base 8, as `u32::from_str_radix`
/// reads it: octal digits, after an optional `+`.
pub open spec fn parse_octal_u32(s: Seq<u8>) -> Option<u32> {
    let digits = if s.len() > 0 && s[0] == 43u8 {
        s.skip(1)
    } else {
        s
    };
    if octal_digits(digits) && octal_value(digits) <= u32::MAX {
        Some(octal_value(digits) as u32)
    } else {
        None
    }
}

proof fn lemma_octal_grows(s: Seq<u8>, k: int)
    requires
        0 <= k <= s.len(),
        forall|i: int| 0 <= i < s.len() ==> 48 <= #[trigger] s[i] <= 55,
    ensures
        0 <= octal_value(s.take(k)) <= octal_value(s),
    decreases s.len() - k,
{
    if k < s.len() {
        lemma_octal_grows(s, k + 1);
        assert(s.take(k + 1).drop_last() =~= s.take(k));
        lemma_octal_nonneg(s.take(k + 1));
    } else {
        assert(s.take(k) =~= s);
        lemma_octal_nonneg(s);
    }
}

proof fn lemma_octal_nonneg(s: Seq<u8>)
    requires
        forall|i: int| 0 <= i < s.len() ==> 48 <= #[trigger] s[i] <= 55,
    ensures
        octal_value(s) >= 0,
    decreases s.len(),
{
    if s.len() > 0 {
        assert forall|i: int| 0 <= i < s.drop_last().len() implies 48 <= #[trigger] s.drop_last()[i]
            <= 55 by {
            assert(s.drop_last()[i] == s[i]);
        };
        lemma_octal_nonneg(s.drop_last());
    }
}

/// Reads an unsigned 32-bit number written in base 8.
pub fn parse_octal_u32_exec(s: &[u8]) -> (r: Option<u32>)
    ensures
        r == parse_octal_u32(s@),
{
    let start: usize = if s.len() > 0 && s[0] == 43u8 {
        1
    } else {
        0
    };
    let ghost digits = if s@.len() > 0 && s@[0] == 43u8 {
        s@.skip(1)
    } else {
        s@
    };
    assert(digits =~= s@.skip(start as int));
    if start >= s.len() {
        return None;
    }
    let mut value: u64 = 0;
    let mut i: usize = start;
    while i < s.len()
        invariant
            start <= i <= s@.len(),
            start < s@.len(),
            digits == s@.skip(start as int),
            digits == if s@.len() > 0 && s@[0] == 43u8 {
                s@.skip(1)
            } else {
                s@
            },
            forall|j: int| start <= j < i ==> 48 <= #[trigger] s@[j] <= 55,
            value == octal_value(digits.take(i - start)),
            value <= u32::MAX,
        decreases s.len() - i,
    {
        let b = s[i];
        if b < 48 || b > 55 {
            proof {
                assert(digits[i - start] == b);
                assert(!octal_digits(digits));
            }
            return None;
        }
        assert(digits.take(i - start + 1).drop_last() =~= digits.take(i - start));
        assert(digits.take(i - start + 1).last() == b);
        let next = value * 8 + (b - 48) as u64;
        if next > 4294967295u64 {
            proof {
                assert(octal_value(digits.take(i - start + 1)) == next);
                if octal_digits(digits) {
                    lemma_octal_grows(digits, i - start + 1);
                }
                assert(parse_octal_u32(s@) is None);
            }
            return None;
        }
        value = next;
        i = i + 1;
    }
    proof {
        assert(digits.take(i - start) =~= digits);
        assert forall|j: int| 0 <= j < digits.len() implies 48 <= #[trigger] digits[j] <= 55 by {
            assert(digits[j] == s@[j + start]);
        };
    }
    Some(value as u32)
}

pub open spec fn dot_gitmodules_path() -> Seq<u8> {
    seq![46u8, 103u8, 105u8, 116u8, 109u8, 111u8, 100u8, 117u8, 108u8, 101u8, 115u8]
}

pub open spec fn change_path(c: ChangeView) -> Seq<u8> {
    match c {
        ChangeView::Deleted { path } => path,
        ChangeView::Modified { path, .. } => path,
    }
}

/// The first change of `.gitmodules`, if any.
pub open spec fn first_dot_gitmodules_change(cs: Seq<ChangeView>) -> Option<ChangeView>
    decreases cs.len(),
{
    if cs.len() == 0 {
        None
    } else if change_path(cs[0]) == dot_gitmodules_path() {
        Some(cs[0])
    } else {
        first_dot_gitmodules_change(cs.drop_first())
    }
}

pub open spec fn entry_view(e: ExportedFileEntry) -> (u32, Seq<u8>) {
    (e.mode, e.id@)
}

pub enum DotGitModulesErrorView {
    BadBlobId,
    BadModeEncoding(Seq<u8>),
    BadMode(Seq<char>),
}

pub open spec fn dot_gitmodules_error_view(e: DotGitModulesError) -> DotGitModulesErrorView {
    match e {
        DotGitModulesError::BadBlobId => DotGitModulesErrorView::BadBlobId,
        DotGitModulesError::BadModeEncoding(m) => DotGitModulesErrorView::BadModeEncoding(m@),
        DotGitModulesError::BadMode(m) => DotGitModulesErrorView::BadMode(m@),
    }
}

/// What a commit does to `.gitmodules`, by its first change of it: nothing
/// (`None`), removes it (`Some(None)`) or writes it with a mode and blob.
pub open spec fn spec_dot_gitmodules_update(cs: Seq<ChangeView>) -> Result<
    Option<Option<(u32, Seq<u8>)>>,
    DotGitModulesErrorView,
> {
    match first_dot_gitmodules_change(cs) {
        None => Ok(None),
        Some(ChangeView::Deleted { .. }) => Ok(Some(None)),
        Some(ChangeView::Modified { mode, hash, .. }) => match parse_oid(hash) {
            None => Err(DotGitModulesErrorView::BadBlobId),
            Some(id) => if !valid_utf8(mode) {
                Err(DotGitModulesErrorView::BadModeEncoding(mode))
            } else {
                match parse_octal_u32(mode) {
                    None => Err(DotGitModulesErrorView::BadMode(decode_utf8(mode))),
                    Some(m) => Ok(Some(Some((m, id)))),
                }
            },
        },
    }
}

fn is_dot_gitmodules(p: &[u8]) -> (r: bool)
    ensures
        r == (p@ == dot_gitmodules_path()),
{
    let name: [u8; 11] = [46u8, 103u8, 105u8, 116u8, 109u8, 111u8, 100u8, 117u8, 108u8, 101u8, 115u8];
    let r = crate::git::bytes_eq(p, name.as_slice());
    assert(name@ =~= dot_gitmodules_path());
    r
}

/// Finds the change of `.gitmodules` in an exported commit, if any.
pub fn get_dot_gitmodules_update(commit: &FastExportCommit) -> (r: Result<
    Option<Option<ExportedFileEntry>>,
    DotGitModulesError,
>)
    ensures
        match spec_dot_gitmodules_update(changes_view(commit.file_changes@)) {
            Ok(None) => r matches Ok(None),
            Ok(Some(None)) => r matches Ok(Some(None)),
            Ok(Some(Some(e))) => r matches Ok(Some(Some(x))) && entry_view(x) == e,
            Err(e) => r matches Err(x) && dot_gitmodules_error_view(x) == e,
        },
{
    let ghost cs = changes_view(commit.file_changes@);
    let mut i: usize = 0;
    assert(cs.skip(0) =~= cs);
    while i < commit.file_changes.len()
        invariant
            i <= commit.file_changes@.len(),
            cs == changes_view(commit.file_changes@),
            first_dot_gitmodules_change(cs) == first_dot_gitmodules_change(cs.skip(i as int)),
        decreases commit.file_changes.len() - i,
    {
        let ghost rest = cs.skip(i as int);
        assert(rest[0] == change_view(commit.file_changes@[i as int]));
        assert(rest.drop_first() =~= cs.skip(i + 1));
        match &commit.file_changes[i] {
            ChangedFile::Deleted(d) => {
                if is_dot_gitmodules(d.path.as_slice()) {
                    return Ok(Some(None));
                }
            },
            ChangedFile::Modified(m) => {
                if is_dot_gitmodules(m.path.as_slice()) {
                    let id = match parse_oid_exec(m.hash.as_slice()) {
                        Some(id) => id,
                        None => {
                            return Err(DotGitModulesError::BadBlobId);
                        },
                    };
                    let mode_str = match str_from_utf8(m.mode.as_slice()) {
                        Some(t) => t,
                        None => {
                            return Err(
                                DotGitModulesError::BadModeEncoding(
                                    crate::git::bytes_to_vec(m.mode.as_slice()),
                                ),
                            );
                        },
                    };
                    return match parse_octal_u32_exec(m.mode.as_slice()) {
                        Some(mode) => Ok(Some(Some(ExportedFileEntry { mode, id }))),
                        None => Err(DotGitModulesError::BadMode(mode_str.to_string())),
                    };
                }
            },
        }
        i = i + 1;
    }
    assert(cs.skip(i as int) =~= Seq::<ChangeView>::empty());
    Ok(None)
}

} // verus!
