//! Ordering of the changes that Gerrit submits together.
//!
//! Gerrit returns a partially ordered list of commits: topics are clearly
//! delineated and commits are in dependency order within each repository,
//! but across repositories there is no order.
//!
//! ```text
//!     Repos:    A     B     C     D
//!     New       A3 -------------- D3
//!      |                          D2
//!      v        A2 -- B2 -- C1 -- D1
//!               A1    B1
//!     Old
//! ```
//!
//! Gerrit reports the commits submitted together as
//! `[A3**, A2*, A1, B2*, B1, C1*, D3**, D2, D1*]`, where the asterisks mark
//! commits with topics. These are split into an ordered list of atomic
//! commits and topics, each a list of repositories with their commits:
//! `[{[A3], [D3]}, {[D2]}, {[A2], [B2], [C1], [D1]}, {[A1]}, {[B1]}]`.
//! The commits of one repository are popped in turn; a topic is popped once
//! every repository that has commits in it has the topic at its head.
use crate::text::chars_of;
use crate::text::chars_eq;
use crate::text::string_of;
use vstd::prelude::*;

verus! {

/// How the commits of a topic are split into supercommits.
#[derive(Debug, Clone, Copy, PartialEq, Eq)]
pub enum SupercommitSplitStrategy {
    ForceSquash,
    SquashIfPossible,
    Recreate,
}

impl Default for SupercommitSplitStrategy {
    fn default() -> (r: Self)
        ensures
            r == SupercommitSplitStrategy::Recreate,
    {
        SupercommitSplitStrategy::Recreate
    }
}

pub open spec fn strategy_text(s: SupercommitSplitStrategy) -> Seq<char> {
    match s {
        SupercommitSplitStrategy::ForceSquash => seq!['f', 'o', 'r', 'c', 'e', '-', 's', 'q', 'u', 'a', 's', 'h'],
        SupercommitSplitStrategy::SquashIfPossible => seq!['s', 'q', 'u', 'a', 's', 'h', '-', 'i', 'f', '-', 'p', 'o', 's', 's', 'i', 'b', 'l', 'e'],
        SupercommitSplitStrategy::Recreate => seq!['r', 'e', 'c', 'r', 'e', 'a', 't', 'e'],
    }
}

impl SupercommitSplitStrategy {
    /// The kebab-case name of the strategy.
    pub fn as_str(&self) -> (r: &'static str)
        ensures
            r@ == strategy_text(*self),
    {
        match self {
            SupercommitSplitStrategy::ForceSquash => {
                proof {
                    reveal_strlit("force-squash");
                }
                "force-squash"
            },
            SupercommitSplitStrategy::SquashIfPossible => {
                proof {
                    reveal_strlit("squash-if-possible");
                }
                "squash-if-possible"
            },
            SupercommitSplitStrategy::Recreate => {
                proof {
                    reveal_strlit("recreate");
                }
                "recreate"
            },
        }
    }
}

/// What identifies the repository of a change.
pub trait RepoKey: View + Sized {
    /// Whether two changes are in the same repository.
    fn same_repo(&self, other: &Self) -> (r: bool)
        ensures
            r == (self@ == other@),
    ;

    /// An equal copy.
    fn duplicate(&self) -> (r: Self)
        ensures
            r@ == self@,
    ;
}

impl RepoKey for i32 {
    fn same_repo(&self, other: &Self) -> (r: bool) {
        *self == *other
    }

    fn duplicate(&self) -> (r: Self) {
        *self
    }
}

impl RepoKey for String {
    fn same_repo(&self, other: &Self) -> (r: bool) {
        let a = chars_of(self.as_str());
        let b = chars_of(other.as_str());
        chars_eq(&a, &b)
    }

    fn duplicate(&self) -> (r: Self) {
        self.clone()
    }
}

/// The data of a change that the ordering reads.
#[derive(Clone, Debug, PartialEq)]
pub struct SubmittedTogether<T> {
    pub id: String,
    pub topic: Option<String>,
    pub repo: T,
}

/// The id, topic and repository of a change.
pub type ItemView<V> = (Seq<char>, Option<Seq<char>>, V);

pub open spec fn opt_text(o: Option<String>) -> Option<Seq<char>> {
    match o {
        Some(s) => Some(s@),
        None => None,
    }
}

impl<T: View> View for SubmittedTogether<T> {
    type V = ItemView<T::V>;

    open spec fn view(&self) -> ItemView<T::V> {
        (self.id@, opt_text(self.topic), self.repo@)
    }
}

impl<T: RepoKey> SubmittedTogether<T> {
    pub fn new(id: String, topic: Option<String>, repo: T) -> (r: Self)
        ensures
            r.id == id,
            r.topic == topic,
            r.repo == repo,
    {
        SubmittedTogether { id, topic, repo }
    }

    /// An equal copy.
    pub fn duplicate(&self) -> (r: Self)
        ensures
            r@ == self@,
    {
        SubmittedTogether {
            id: self.id.clone(),
            topic: match &self.topic {
                Some(t) => Some(t.clone()),
                None => None,
            },
            repo: self.repo.duplicate(),
        }
    }
}

/// The runs of consecutive changes in the same repository, as indices.
pub open spec fn repo_runs<V>(items: Seq<ItemView<V>>) -> Seq<Seq<int>>
    decreases items.len(),
{
    if items.len() == 0 {
        Seq::empty()
    } else {
        let r = repo_runs(items.drop_last());
        let i = items.len() - 1;
        if i == 0 || items[i].2 != items[i - 1].2 {
            r.push(seq![i])
        } else {
            r.update(r.len() - 1, r.last().push(i))
        }
    }
}

/// Two runs are in the same repository: the input is not grouped by
/// repository.
pub open spec fn scrambled<V>(items: Seq<ItemView<V>>, rs: Seq<Seq<int>>) -> bool {
    exists|a: int, b: int|
        0 <= a < b < rs.len() && #[trigger] items[rs[a][0]].2 == #[trigger] items[rs[b][0]].2
}

/// The first run in the repository `v`.
pub open spec fn slot_of<V>(items: Seq<ItemView<V>>, rs: Seq<Seq<int>>, v: V) -> Option<int>
    decreases rs.len(),
{
    if rs.len() == 0 {
        None
    } else {
        match slot_of(items, rs.drop_last(), v) {
            Some(k) => Some(k),
            None => if items[rs.last()[0]].2 == v {
                Some(rs.len() - 1)
            } else {
                None
            },
        }
    }
}

/// The next change of run `k`, `pos[k]` of its changes having been taken.
pub open spec fn head(rs: Seq<Seq<int>>, pos: Seq<int>, k: int) -> Option<int> {
    if 0 <= pos[k] < rs[k].len() {
        Some(rs[k][pos[k]])
    } else {
        None
    }
}

/// Every change has been taken.
pub open spec fn exhausted(rs: Seq<Seq<int>>, pos: Seq<int>) -> bool {
    forall|k: int| 0 <= k < rs.len() ==> pos[k] >= rs[k].len()
}

/// Every change of topic `t` is in a repository whose next change has
/// topic `t`.
pub open spec fn topic_ready<V>(
    items: Seq<ItemView<V>>,
    rs: Seq<Seq<int>>,
    pos: Seq<int>,
    t: Seq<char>,
) -> bool {
    forall|j: int|
        0 <= j < items.len() && #[trigger] items[j].1 == Some(t) ==> match slot_of(
            items,
            rs,
            items[j].2,
        ) {
            Some(k) => head(rs, pos, k) matches Some(h) && items[h].1 == Some(t),
            None => false,
        }
}

/// The indices of the changes with topic `t`, in order.
pub open spec fn topic_indices<V>(items: Seq<ItemView<V>>, t: Seq<char>) -> Seq<int>
    decreases items.len(),
{
    if items.len() == 0 {
        Seq::empty()
    } else {
        let f = topic_indices(items.drop_last(), t);
        if items.last().1 == Some(t) {
            f.push(items.len() - 1)
        } else {
            f
        }
    }
}

/// Takes, for each change of a topic in turn, the next change of its
/// repository, which must have the same topic. Gives the new positions and
/// the changes taken, grouped in runs of one repository as the topic's
/// changes are. `None` when a repository has no matching change next.
pub open spec fn pop_topic<V>(
    items: Seq<ItemView<V>>,
    rs: Seq<Seq<int>>,
    pos: Seq<int>,
    fl: Seq<int>,
) -> Option<(Seq<int>, Seq<Seq<int>>)>
    decreases fl.len(),
{
    if fl.len() == 0 {
        Some((pos, Seq::empty()))
    } else {
        match pop_topic(items, rs, pos, fl.drop_last()) {
            None => None,
            Some((p, runs)) => {
                let j = fl.last();
                match slot_of(items, rs, items[j].2) {
                    None => None,
                    Some(k) => match head(rs, p, k) {
                        None => None,
                        Some(h) => if items[h].1 != items[j].1 {
                            None
                        } else {
                            let runs2 = if fl.len() == 1 || items[j].2 != items[fl[fl.len()
                                - 2]].2 {
                                runs.push(seq![h])
                            } else {
                                runs.update(runs.len() - 1, runs.last().push(h))
                            };
                            Some((p.update(k, p[k] + 1), runs2))
                        },
                    },
                }
            },
        }
    }
}

/// The state of the ordering: how many changes of each run have been taken,
/// the run to look at next (modulo the number of runs), and the topics and
/// atomic commits found, as lists of runs of indices.
pub type ReorderState = (Seq<int>, int, Seq<Seq<Seq<int>>>);

pub enum ReorderStep {
    Break,
    Next(ReorderState),
    Fail,
}

/// One turn of the ordering.
pub open spec fn reorder_step<V>(
    items: Seq<ItemView<V>>,
    rs: Seq<Seq<int>>,
    st: ReorderState,
) -> ReorderStep {
    let (pos, index, res) = st;
    if exhausted(rs, pos) {
        ReorderStep::Break
    } else {
        let slot = index % (rs.len() as int);
        match head(rs, pos, slot) {
            None => ReorderStep::Next((pos, index + 1, res)),
            Some(h) => match items[h].1 {
                None => ReorderStep::Next(
                    (pos.update(slot, pos[slot] + 1), index, res.push(seq![seq![h]])),
                ),
                Some(t) => if !topic_ready(items, rs, pos, t) {
                    ReorderStep::Next((pos, index + 1, res))
                } else {
                    match pop_topic(items, rs, pos, topic_indices(items, t)) {
                        None => ReorderStep::Fail,
                        Some((p, runs)) => ReorderStep::Next((p, index + 1, res.push(runs))),
                    }
                },
            },
        }
    }
}

pub enum ReorderEnd {
    Done(ReorderState),
    Truncated(ReorderState),
    Failed,
}

/// The ordering run for at most `fuel` turns.
pub open spec fn reorder_run<V>(
    items: Seq<ItemView<V>>,
    rs: Seq<Seq<int>>,
    st: ReorderState,
    fuel: nat,
) -> ReorderEnd
    decreases fuel,
{
    if fuel == 0 {
        ReorderEnd::Truncated(st)
    } else {
        match reorder_step(items, rs, st) {
            ReorderStep::Break => ReorderEnd::Done(st),
            ReorderStep::Fail => ReorderEnd::Failed,
            ReorderStep::Next(s) => reorder_run(items, rs, s, (fuel - 1) as nat),
        }
    }
}

/// The most turns the ordering takes.
pub open spec fn iteration_limit() -> nat {
    1000
}

pub open spec fn reorder_start(rs: Seq<Seq<int>>) -> ReorderState {
    (Seq::new(rs.len(), |k: int| 0int), 0, Seq::empty())
}

/// Why changes could not be ordered.
#[derive(Debug, PartialEq, Eq)]
pub enum ReorderError {
    /// The changes of a repository are not all next to each other.
    ScrambledRepo,
    /// A change without the topic stands among the changes of a topic in a
    /// repository.
    NonTopicCommit,
    /// The ordering used up its turns with changes left unplaced, as with
    /// topics that are ordered one way in one repository and the other way
    /// in another.
    IterationLimit,
}

/// The ordering, as indices into the changes.
pub open spec fn spec_reorder<V>(items: Seq<ItemView<V>>) -> Result<Seq<Seq<Seq<int>>>, ReorderError> {
    let rs = repo_runs(items);
    if items.len() == 0 {
        Ok(Seq::empty())
    } else if scrambled(items, rs) {
        Err(ReorderError::ScrambledRepo)
    } else {
        match reorder_run(items, rs, reorder_start(rs), iteration_limit()) {
            ReorderEnd::Done(st) => Ok(st.2),
            ReorderEnd::Truncated(st) => if exhausted(rs, st.0) {
                Ok(st.2)
            } else {
                Err(ReorderError::IterationLimit)
            },
            ReorderEnd::Failed => Err(ReorderError::NonTopicCommit),
        }
    }
}

/// Every index in the runs is that of a change.
pub open spec fn runs_in(runs: Seq<Seq<int>>, n: int) -> bool {
    forall|b: int, c: int| 0 <= b < runs.len() && 0 <= c < runs[b].len() ==> 0 <= #[trigger] runs[b][c] < n
}

/// Every index in the topics is that of a change.
pub open spec fn topics_in(res: Seq<Seq<Seq<int>>>, n: int) -> bool {
    forall|a: int| 0 <= a < res.len() ==> runs_in(#[trigger] res[a], n)
}

pub open spec fn item_views<T: View>(s: Seq<SubmittedTogether<T>>) -> Seq<ItemView<T::V>> {
    s.map_values(|x: SubmittedTogether<T>| x@)
}

pub open spec fn ints(v: Seq<usize>) -> Seq<int> {
    v.map_values(|x: usize| x as int)
}

pub open spec fn ints2(v: Seq<Vec<usize>>) -> Seq<Seq<int>> {
    v.map_values(|w: Vec<usize>| ints(w@))
}

pub open spec fn ints3(v: Seq<Vec<Vec<usize>>>) -> Seq<Seq<Seq<int>>> {
    v.map_values(|w: Vec<Vec<usize>>| ints2(w@))
}

/// The runs are non-empty and hold indices of changes.
pub open spec fn runs_wf(rs: Seq<Seq<int>>, n: int) -> bool {
    forall|k: int|
        0 <= k < rs.len() ==> #[trigger] rs[k].len() > 0 && forall|m: int|
            0 <= m < rs[k].len() ==> 0 <= #[trigger] rs[k][m] < n
}

pub proof fn lemma_repo_runs_wf<V>(items: Seq<ItemView<V>>)
    ensures
        runs_wf(repo_runs(items), items.len() as int),
        items.len() > 0 ==> repo_runs(items).len() > 0,
    decreases items.len(),
{
    if items.len() > 0 {
        lemma_repo_runs_wf(items.drop_last());
        let r = repo_runs(items.drop_last());
        let rs = repo_runs(items);
        assert forall|k: int| 0 <= k < rs.len() implies #[trigger] rs[k].len() > 0 && forall|m: int|
            0 <= m < rs[k].len() ==> 0 <= #[trigger] rs[k][m] < items.len() by {
            if k < r.len() {
                assert forall|m: int| 0 <= m < rs[k].len() implies 0 <= #[trigger] rs[k][m]
                    < items.len() by {
                    if m < r[k].len() {
                        assert(rs[k][m] == r[k][m]);
                    }
                };
            }
        };
    }
}

fn topic_is(o: &Option<String>, t: &Vec<char>) -> (r: bool)
    ensures
        r == (opt_text(*o) == Some(t@)),
{
    match o {
        Some(s) => {
            let c = chars_of(s.as_str());
            chars_eq(&c, t)
        },
        None => false,
    }
}

fn same_topic(a: &Option<String>, b: &Option<String>) -> (r: bool)
    ensures
        r == (opt_text(*a) == opt_text(*b)),
{
    match (a, b) {
        (Some(x), Some(y)) => {
            let cx = chars_of(x.as_str());
            let cy = chars_of(y.as_str());
            chars_eq(&cx, &cy)
        },
        (None, None) => true,
        _ => false,
    }
}

fn build_runs<T: RepoKey>(cons: &[SubmittedTogether<T>]) -> (rs: Vec<Vec<usize>>)
    ensures
        ints2(rs@) == repo_runs(item_views(cons@)),
{
    let ghost items = item_views(cons@);
    let mut rs: Vec<Vec<usize>> = Vec::new();
    let mut i: usize = 0;
    while i < cons.len()
        invariant
            i <= cons@.len(),
            items == item_views(cons@),
            ints2(rs@) == repo_runs(items.take(i as int)),
        decreases cons.len() - i,
    {
        let ghost t = items.take(i + 1);
        assert(t.drop_last() =~= items.take(i as int));
        assert(t[i as int] == cons@[i as int]@);
        proof {
            if i > 0 {
                assert(t[i - 1] == cons@[i - 1]@);
                lemma_repo_runs_wf(items.take(i as int));
            }
        }
        let ghost r0 = ints2(rs@);
        if i == 0 || !cons[i].repo.same_repo(&cons[i - 1].repo) {
            let mut v: Vec<usize> = Vec::new();
            v.push(i);
            rs.push(v);
            assert(ints(v@) =~= seq![i as int]);
            assert(ints2(rs@) =~= r0.push(seq![i as int]));
        } else {
            let mut last = rs.pop().unwrap();
            let ghost l0 = ints(last@);
            last.push(i);
            assert(ints(last@) =~= l0.push(i as int));
            rs.push(last);
            assert(ints2(rs@) =~= r0.update(r0.len() - 1, r0.last().push(i as int)));
        }
        i = i + 1;
    }
    assert(items.take(cons@.len() as int) =~= items);
    rs
}

fn is_scrambled<T: RepoKey>(cons: &[SubmittedTogether<T>], rs: &Vec<Vec<usize>>) -> (r: bool)
    requires
        runs_wf(ints2(rs@), cons@.len() as int),
    ensures
        r == scrambled(item_views(cons@), ints2(rs@)),
{
    let ghost items = item_views(cons@);
    let ghost rv = ints2(rs@);
    let mut b: usize = 0;
    while b < rs.len()
        invariant
            b <= rs@.len(),
            items == item_views(cons@),
            rv == ints2(rs@),
            runs_wf(rv, cons@.len() as int),
            forall|x: int, y: int|
                0 <= x < y < b ==> #[trigger] items[rv[x][0]].2 != #[trigger] items[rv[y][0]].2,
        decreases rs.len() - b,
    {
        assert(rv[b as int].len() > 0);
        assert(rv[b as int][0] == rs@[b as int]@[0] as int);
        let ib = rs[b][0];
        assert(rv[b as int][0] < cons@.len());
        assert(items[ib as int] == cons@[ib as int]@);
        let mut a: usize = 0;
        while a < b
            invariant
                a <= b < rs@.len(),
                ib == rv[b as int][0],
                ib < cons@.len(),
                items == item_views(cons@),
                rv == ints2(rs@),
                runs_wf(rv, cons@.len() as int),
                forall|x: int, y: int|
                    0 <= x < y < b ==> #[trigger] items[rv[x][0]].2 != #[trigger] items[rv[y][0]].2,
                forall|x: int| 0 <= x < a ==> #[trigger] items[rv[x][0]].2 != items[rv[b as int][0]].2,
            decreases b - a,
        {
            assert(rv[a as int].len() > 0);
            assert(rv[a as int][0] == rs@[a as int]@[0] as int);
            let ia = rs[a][0];
            assert(items[ia as int] == cons@[ia as int]@);
            assert(items[ib as int] == cons@[ib as int]@);
            if cons[ia].repo.same_repo(&cons[ib].repo) {
                assert(items[rv[a as int][0]].2 == items[rv[b as int][0]].2);
                return true;
            }
            a = a + 1;
        }
        b = b + 1;
    }
    false
}

proof fn lemma_slot_of_range<V>(items: Seq<ItemView<V>>, rs: Seq<Seq<int>>, v: V)
    ensures
        slot_of(items, rs, v) matches Some(k) ==> 0 <= k < rs.len(),
    decreases rs.len(),
{
    if rs.len() > 0 {
        lemma_slot_of_range(items, rs.drop_last(), v);
    }
}

proof fn lemma_slot_of_prefix<V>(items: Seq<ItemView<V>>, rs: Seq<Seq<int>>, v: V, m: int, k: int)
    requires
        0 <= m <= rs.len(),
        slot_of(items, rs.take(m), v) == Some(k),
    ensures
        slot_of(items, rs, v) == Some(k),
    decreases rs.len() - m,
{
    if m < rs.len() {
        assert(rs.take(m + 1).drop_last() =~= rs.take(m));
        lemma_slot_of_prefix(items, rs, v, m + 1, k);
    } else {
        assert(rs.take(m) =~= rs);
    }
}

/// The first run in the repository of change `j`.
fn slot_of_exec<T: RepoKey>(cons: &[SubmittedTogether<T>], rs: &Vec<Vec<usize>>, j: usize) -> (r:
    Option<usize>)
    requires
        j < cons@.len(),
        runs_wf(ints2(rs@), cons@.len() as int),
    ensures
        match r {
            Some(k) => slot_of(item_views(cons@), ints2(rs@), cons@[j as int]@.2) == Some(k as int)
                && k < rs@.len(),
            None => slot_of(item_views(cons@), ints2(rs@), cons@[j as int]@.2) is None,
        },
{
    let ghost items = item_views(cons@);
    let ghost rv = ints2(rs@);
    let ghost v = cons@[j as int]@.2;
    let mut k: usize = 0;
    assert(rv.take(0) =~= Seq::<Seq<int>>::empty());
    while k < rs.len()
        invariant
            k <= rs@.len(),
            items == item_views(cons@),
            rv == ints2(rs@),
            v == cons@[j as int]@.2,
            j < cons@.len(),
            runs_wf(rv, cons@.len() as int),
            slot_of(items, rv.take(k as int), v) is None,
        decreases rs.len() - k,
    {
        assert(rv.take(k + 1).drop_last() =~= rv.take(k as int));
        assert(rv[k as int].len() > 0);
        assert(rv[k as int][0] == rs@[k as int]@[0] as int);
        let i0 = rs[k][0];
        assert(items[i0 as int] == cons@[i0 as int]@);
        assert(rv.take(k + 1).last() == rv[k as int]);
        if cons[i0].repo.same_repo(&cons[j].repo) {
            proof {
                assert(slot_of(items, rv.take(k + 1), v) == Some(k as int));
                lemma_slot_of_prefix(items, rv, v, k + 1, k as int);
            }
            return Some(k);
        }
        k = k + 1;
    }
    assert(rv.take(rs@.len() as int) =~= rv);
    None
}

/// The next change of run `k`.
fn head_exec(rs: &Vec<Vec<usize>>, pos: &Vec<usize>, k: usize) -> (r: Option<usize>)
    requires
        k < rs@.len(),
        pos@.len() == rs@.len(),
    ensures
        match r {
            Some(h) => head(ints2(rs@), ints(pos@), k as int) == Some(h as int),
            None => head(ints2(rs@), ints(pos@), k as int) is None,
        },
{
    assert(ints2(rs@)[k as int] == ints(rs@[k as int]@));
    assert(ints(pos@)[k as int] == pos@[k as int] as int);
    if pos[k] < rs[k].len() {
        Some(rs[k][pos[k]])
    } else {
        None
    }
}

fn exhausted_exec(rs: &Vec<Vec<usize>>, pos: &Vec<usize>) -> (r: bool)
    requires
        pos@.len() == rs@.len(),
    ensures
        r == exhausted(ints2(rs@), ints(pos@)),
{
    let mut k: usize = 0;
    while k < rs.len()
        invariant
            k <= rs@.len(),
            pos@.len() == rs@.len(),
            forall|x: int| 0 <= x < k ==> ints(pos@)[x] >= #[trigger] ints2(rs@)[x].len(),
        decreases rs.len() - k,
    {
        assert(ints2(rs@)[k as int] == ints(rs@[k as int]@));
        assert(ints(pos@)[k as int] == pos@[k as int] as int);
        if pos[k] < rs[k].len() {
            assert(ints(pos@)[k as int] < ints2(rs@)[k as int].len());
            return false;
        }
        k = k + 1;
    }
    true
}

/// The indices of the changes of topic `t`.
fn topic_indices_exec<T: RepoKey>(cons: &[SubmittedTogether<T>], t: &Vec<char>) -> (r: Vec<usize>)
    ensures
        ints(r@) == topic_indices(item_views(cons@), t@),
        forall|m: int| 0 <= m < r@.len() ==> r@[m] < cons@.len(),
{
    let ghost items = item_views(cons@);
    let mut r: Vec<usize> = Vec::new();
    let mut i: usize = 0;
    while i < cons.len()
        invariant
            i <= cons@.len(),
            items == item_views(cons@),
            ints(r@) == topic_indices(items.take(i as int), t@),
            forall|m: int| 0 <= m < r@.len() ==> r@[m] < cons@.len(),
        decreases cons.len() - i,
    {
        assert(items.take(i + 1).drop_last() =~= items.take(i as int));
        assert(items.take(i + 1).last() == cons@[i as int]@);
        if topic_is(&cons[i].topic, t) {
            let ghost r0 = ints(r@);
            r.push(i);
            assert(ints(r@) =~= r0.push(i as int));
        }
        i = i + 1;
    }
    assert(items.take(cons@.len() as int) =~= items);
    r
}

/// Whether every change of topic `t` is in a repository whose next change
/// has topic `t`.
fn topic_ready_exec<T: RepoKey>(
    cons: &[SubmittedTogether<T>],
    rs: &Vec<Vec<usize>>,
    pos: &Vec<usize>,
    t: &Vec<char>,
) -> (r: bool)
    requires
        runs_wf(ints2(rs@), cons@.len() as int),
        pos@.len() == rs@.len(),
    ensures
        r == topic_ready(item_views(cons@), ints2(rs@), ints(pos@), t@),
{
    let ghost items = item_views(cons@);
    let mut j: usize = 0;
    while j < cons.len()
        invariant
            j <= cons@.len(),
            items == item_views(cons@),
            runs_wf(ints2(rs@), cons@.len() as int),
            pos@.len() == rs@.len(),
            forall|x: int|
                0 <= x < j && #[trigger] items[x].1 == Some(t@) ==> match slot_of(
                    items,
                    ints2(rs@),
                    items[x].2,
                ) {
                    Some(k) => head(ints2(rs@), ints(pos@), k) matches Some(h) && items[h].1
                        == Some(t@),
                    None => false,
                },
        decreases cons.len() - j,
    {
        assert(items[j as int] == cons@[j as int]@);
        if topic_is(&cons[j].topic, t) {
            assert(items[j as int].1 == Some(t@));
            let ghost rv = ints2(rs@);
            let ghost pv = ints(pos@);
            match slot_of_exec(cons, rs, j) {
                None => {
                    return false;
                },
                Some(k) => {
                    assert(slot_of(items, rv, items[j as int].2) == Some(k as int));
                    match head_exec(rs, pos, k) {
                        None => {
                            assert(head(rv, pv, k as int) is None);
                            return false;
                        },
                        Some(h) => {
                            proof {
                                assert(rv[k as int].len() > 0);
                                assert(h as int == rv[k as int][pv[k as int]]);
                                assert(0 <= h < cons@.len());
                            }
                            assert(items[h as int] == cons@[h as int]@);
                            if !topic_is(&cons[h].topic, t) {
                                assert(items[h as int].1 != Some(t@));
                                return false;
                            }
                            assert(items[h as int].1 == Some(t@));
                        },
                    }
                },
            }
        }
        j = j + 1;
    }
    true
}

proof fn lemma_pop_topic_none<V>(
    items: Seq<ItemView<V>>,
    rs: Seq<Seq<int>>,
    pos: Seq<int>,
    fl: Seq<int>,
    m: int,
)
    requires
        0 <= m <= fl.len(),
        pop_topic(items, rs, pos, fl.take(m)) is None,
    ensures
        pop_topic(items, rs, pos, fl) is None,
    decreases fl.len() - m,
{
    if m < fl.len() {
        assert(fl.take(m + 1).drop_last() =~= fl.take(m));
        lemma_pop_topic_none(items, rs, pos, fl, m + 1);
    } else {
        assert(fl.take(m) =~= fl);
    }
}

/// Pops the changes of a topic, the indices of whose changes are `fl`.
fn pop_topic_exec<T: RepoKey>(
    cons: &[SubmittedTogether<T>],
    rs: &Vec<Vec<usize>>,
    pos: &mut Vec<usize>,
    fl: &Vec<usize>,
) -> (r: Option<Vec<Vec<usize>>>)
    requires
        runs_wf(ints2(rs@), cons@.len() as int),
        old(pos)@.len() == rs@.len(),
        forall|k: int| 0 <= k < rs@.len() ==> old(pos)@[k] <= rs@[k]@.len(),
        forall|m: int| 0 <= m < fl@.len() ==> fl@[m] < cons@.len(),
    ensures
        final(pos)@.len() == rs@.len(),
        forall|k: int| 0 <= k < rs@.len() ==> final(pos)@[k] <= rs@[k]@.len(),
        r matches Some(x) ==> runs_in(ints2(x@), cons@.len() as int),
        match pop_topic(item_views(cons@), ints2(rs@), ints(old(pos)@), ints(fl@)) {
            Some((p, runs)) => r matches Some(x) && ints2(x@) == runs && ints(final(pos)@) == p,
            None => r is None,
        },
{
    let ghost items = item_views(cons@);
    let ghost rv = ints2(rs@);
    let ghost p0 = ints(pos@);
    let ghost fv = ints(fl@);
    let mut runs: Vec<Vec<usize>> = Vec::new();
    let mut i: usize = 0;
    assert(fv.take(0) =~= Seq::<int>::empty());
    assert(ints2(runs@) =~= Seq::<Seq<int>>::empty());
    while i < fl.len()
        invariant
            i <= fl@.len(),
            items == item_views(cons@),
            rv == ints2(rs@),
            fv == ints(fl@),
            p0 == ints(old(pos)@),
            runs_wf(rv, cons@.len() as int),
            pos@.len() == rs@.len(),
            forall|k: int| 0 <= k < rs@.len() ==> pos@[k] <= rs@[k]@.len(),
            forall|m: int| 0 <= m < fl@.len() ==> fl@[m] < cons@.len(),
            pop_topic(items, rv, p0, fv.take(i as int)) == Some((ints(pos@), ints2(runs@))),
            runs_in(ints2(runs@), cons@.len() as int),
        decreases fl.len() - i,
    {
        let ghost t = fv.take(i + 1);
        assert(t.drop_last() =~= fv.take(i as int));
        assert(t.last() == fl@[i as int] as int);
        let j = fl[i];
        assert(items[j as int] == cons@[j as int]@);
        let k = match slot_of_exec(cons, rs, j) {
            Some(k) => k,
            None => {
                proof {
                    assert(pop_topic(items, rv, p0, fv.take(i + 1)) is None);
                    lemma_pop_topic_none(items, rv, p0, fv, i + 1);
                }
                return None;
            },
        };
        let h = match head_exec(rs, pos, k) {
            Some(h) => h,
            None => {
                proof {
                    assert(pop_topic(items, rv, p0, fv.take(i + 1)) is None);
                    lemma_pop_topic_none(items, rv, p0, fv, i + 1);
                }
                return None;
            },
        };
        proof {
            assert(rv[k as int].len() > 0);
            assert(h as int == rv[k as int][ints(pos@)[k as int]]);
            assert(0 <= h < cons@.len());
        }
        assert(items[h as int] == cons@[h as int]@);
        if !same_topic(&cons[h].topic, &cons[j].topic) {
            proof {
                assert(pop_topic(items, rv, p0, fv.take(i + 1)) is None);
                lemma_pop_topic_none(items, rv, p0, fv, i + 1);
            }
            return None;
        }
        let ghost r0 = ints2(runs@);
        let new_run = if i == 0 {
            true
        } else {
            let prev = fl[i - 1];
            assert(items[prev as int] == cons@[prev as int]@);
            assert(t[t.len() - 2] == prev as int);
            !cons[j].repo.same_repo(&cons[prev].repo)
        };
        if new_run {
            let mut v: Vec<usize> = Vec::new();
            v.push(h);
            runs.push(v);
            assert(ints(v@) =~= seq![h as int]);
            assert(ints2(runs@) =~= r0.push(seq![h as int]));
        } else {
            assert(runs@.len() > 0) by {
                assert(r0.len() == runs@.len());
                lemma_pop_topic_runs_nonempty(items, rv, p0, fv.take(i as int));
            };
            let mut last = runs.pop().unwrap();
            let ghost l0 = ints(last@);
            last.push(h);
            assert(ints(last@) =~= l0.push(h as int));
            runs.push(last);
            assert(ints2(runs@) =~= r0.update(r0.len() - 1, r0.last().push(h as int)));
        }
        let ghost pb = ints(pos@);
        assert(pb[k as int] < rv[k as int].len());
        assert(pb[k as int] == pos@[k as int] as int);
        assert(rv[k as int].len() == rs@[k as int]@.len());
        let c = pos[k];
        let lim = rs[k].len();
        assert(c < lim);
        pos.set(k, c + 1);
        assert(ints(pos@) =~= pb.update(k as int, pb[k as int] + 1));
        i = i + 1;
    }
    assert(fv.take(fl@.len() as int) =~= fv);
    Some(runs)
}

proof fn lemma_pop_topic_runs_nonempty<V>(
    items: Seq<ItemView<V>>,
    rs: Seq<Seq<int>>,
    pos: Seq<int>,
    fl: Seq<int>,
)
    ensures
        pop_topic(items, rs, pos, fl) matches Some((p, runs)) ==> (fl.len() > 0 <==> runs.len()
            > 0),
    decreases fl.len(),
{
    if fl.len() > 0 {
        lemma_pop_topic_runs_nonempty(items, rs, pos, fl.drop_last());
    }
}

/// The changes at the indices.
pub open spec fn index_views<V>(items: Seq<ItemView<V>>, res: Seq<Seq<Seq<int>>>) -> Seq<
    Seq<Seq<ItemView<V>>>,
> {
    res.map_values(
        |t: Seq<Seq<int>>| t.map_values(|run: Seq<int>| run.map_values(|i: int| items[i])),
    )
}

pub open spec fn views3<T: View>(out: Seq<Vec<Vec<SubmittedTogether<T>>>>) -> Seq<
    Seq<Seq<ItemView<T::V>>>,
> {
    out.map_values(
        |t: Vec<Vec<SubmittedTogether<T>>>| t@.map_values(
            |run: Vec<SubmittedTogether<T>>| item_views(run@),
        ),
    )
}

fn copy_run<T: RepoKey>(cons: &[SubmittedTogether<T>], run: &Vec<usize>) -> (out: Vec<
    SubmittedTogether<T>,
>)
    requires
        forall|c: int| 0 <= c < run@.len() ==> run@[c] < cons@.len(),
    ensures
        item_views(out@) == ints(run@).map_values(|i: int| item_views(cons@)[i]),
{
    let ghost items = item_views(cons@);
    let mut out: Vec<SubmittedTogether<T>> = Vec::new();
    let mut c: usize = 0;
    while c < run.len()
        invariant
            c <= run@.len(),
            items == item_views(cons@),
            forall|x: int| 0 <= x < run@.len() ==> run@[x] < cons@.len(),
            item_views(out@) == ints(run@).take(c as int).map_values(|i: int| items[i]),
        decreases run.len() - c,
    {
        let i = run[c];
        let ghost o0 = item_views(out@);
        out.push(cons[i].duplicate());
        assert(items[i as int] == cons@[i as int]@);
        assert(item_views(out@) =~= o0.push(items[i as int]));
        assert(ints(run@).take(c + 1).map_values(|i: int| items[i]) =~= ints(run@).take(
            c as int,
        ).map_values(|i: int| items[i]).push(items[i as int]));
        c = c + 1;
    }
    assert(ints(run@).take(run@.len() as int) =~= ints(run@));
    out
}

fn copy_topic<T: RepoKey>(cons: &[SubmittedTogether<T>], topic: &Vec<Vec<usize>>) -> (out: Vec<
    Vec<SubmittedTogether<T>>,
>)
    requires
        runs_in(ints2(topic@), cons@.len() as int),
    ensures
        out@.map_values(|run: Vec<SubmittedTogether<T>>| item_views(run@)) == ints2(
            topic@,
        ).map_values(|run: Seq<int>| run.map_values(|i: int| item_views(cons@)[i])),
{
    let ghost items = item_views(cons@);
    let ghost tv = ints2(topic@);
    let mut out: Vec<Vec<SubmittedTogether<T>>> = Vec::new();
    let mut b: usize = 0;
    while b < topic.len()
        invariant
            b <= topic@.len(),
            items == item_views(cons@),
            tv == ints2(topic@),
            runs_in(tv, cons@.len() as int),
            out@.map_values(|run: Vec<SubmittedTogether<T>>| item_views(run@)) == tv.take(
                b as int,
            ).map_values(|run: Seq<int>| run.map_values(|i: int| items[i])),
        decreases topic.len() - b,
    {
        proof {
            assert forall|c: int| 0 <= c < topic@[b as int]@.len() implies topic@[b as int]@[c]
                < cons@.len() by {
                assert(tv[b as int][c] == topic@[b as int]@[c] as int);
            };
        }
        let run = copy_run(cons, &topic[b]);
        let ghost o0 = out@.map_values(|run: Vec<SubmittedTogether<T>>| item_views(run@));
        out.push(run);
        assert(out@.map_values(|run: Vec<SubmittedTogether<T>>| item_views(run@)) =~= o0.push(
            item_views(run@),
        ));
        assert(tv.take(b + 1).map_values(|run: Seq<int>| run.map_values(|i: int| items[i]))
            =~= tv.take(b as int).map_values(|run: Seq<int>| run.map_values(|i: int| items[i])).push(
            tv[b as int].map_values(|i: int| items[i]),
        ));
        b = b + 1;
    }
    assert(tv.take(topic@.len() as int) =~= tv);
    out
}

fn copy_all<T: RepoKey>(cons: &[SubmittedTogether<T>], res: &Vec<Vec<Vec<usize>>>) -> (out: Vec<
    Vec<Vec<SubmittedTogether<T>>>,
>)
    requires
        topics_in(ints3(res@), cons@.len() as int),
    ensures
        views3(out@) == index_views(item_views(cons@), ints3(res@)),
{
    let ghost items = item_views(cons@);
    let ghost rv = ints3(res@);
    let mut out: Vec<Vec<Vec<SubmittedTogether<T>>>> = Vec::new();
    let mut a: usize = 0;
    while a < res.len()
        invariant
            a <= res@.len(),
            items == item_views(cons@),
            rv == ints3(res@),
            topics_in(rv, cons@.len() as int),
            views3(out@) == index_views(items, rv.take(a as int)),
        decreases res.len() - a,
    {
        assert(rv[a as int] == ints2(res@[a as int]@));
        assert(runs_in(rv[a as int], cons@.len() as int));
        let t = copy_topic(cons, &res[a]);
        let ghost o0 = views3(out@);
        out.push(t);
        assert(views3(out@) =~= o0.push(
            t@.map_values(|run: Vec<SubmittedTogether<T>>| item_views(run@)),
        ));
        assert(index_views(items, rv.take(a + 1)) =~= index_views(items, rv.take(a as int)).push(
            rv[a as int].map_values(|run: Seq<int>| run.map_values(|i: int| items[i])),
        ));
        a = a + 1;
    }
    assert(rv.take(res@.len() as int) =~= rv);
    out
}

/// Orders changes submitted together into atomic commits and topics, each
/// a list of repositories with their changes.
///
/// The changes of each repository must stand together, newest first; that
/// order is kept within each repository.
pub fn reorder_submitted_together<T: RepoKey>(cons: &[SubmittedTogether<T>]) -> (r: Result<
    Vec<Vec<Vec<SubmittedTogether<T>>>>,
    ReorderError,
>)
    ensures
        match spec_reorder(item_views(cons@)) {
            Ok(res) => r matches Ok(out) && views3(out@) == index_views(item_views(cons@), res),
            Err(e) => r matches Err(x) && x == e,
        },
{
    let ghost items = item_views(cons@);
    if cons.len() == 0 {
        let out: Vec<Vec<Vec<SubmittedTogether<T>>>> = Vec::new();
        assert(views3(out@) =~= index_views(items, Seq::empty()));
        return Ok(out);
    }
    let rs = build_runs(cons);
    let ghost rv = ints2(rs@);
    proof {
        lemma_repo_runs_wf(items);
    }
    if is_scrambled(cons, &rs) {
        return Err(ReorderError::ScrambledRepo);
    }
    let mut pos: Vec<usize> = Vec::new();
    let mut k: usize = 0;
    while k < rs.len()
        invariant
            k <= rs@.len(),
            pos@.len() == k,
            forall|x: int| 0 <= x < k ==> pos@[x] == 0,
        decreases rs.len() - k,
    {
        pos.push(0);
        k = k + 1;
    }
    let mut index: usize = 0;
    let mut res: Vec<Vec<Vec<usize>>> = Vec::new();
    let mut limit: usize = 1000;
    let ghost target = reorder_run(items, rv, reorder_start(rv), iteration_limit());
    assert(ints(pos@) =~= reorder_start(rv).0);
    assert(!scrambled(items, rv));
    assert(ints3(res@) =~= Seq::<Seq<Seq<int>>>::empty());
    loop
        invariant
            items == item_views(cons@),
            rv == ints2(rs@),
            rv == repo_runs(items),
            rs@.len() > 0,
            runs_wf(rv, cons@.len() as int),
            pos@.len() == rs@.len(),
            forall|x: int| 0 <= x < rs@.len() ==> pos@[x] <= rs@[x]@.len(),
            index + limit <= 1000,
            topics_in(ints3(res@), cons@.len() as int),
            reorder_run(items, rv, (ints(pos@), index as int, ints3(res@)), limit as nat)
                == target,
            spec_reorder(items) == match target {
                ReorderEnd::Done(st) => Ok(st.2),
                ReorderEnd::Truncated(st) => if exhausted(rv, st.0) {
                    Ok(st.2)
                } else {
                    Err(ReorderError::IterationLimit)
                },
                ReorderEnd::Failed => Err(ReorderError::NonTopicCommit),
            },
        ensures
            topics_in(ints3(res@), cons@.len() as int),
            target == ReorderEnd::Done((ints(pos@), index as int, ints3(res@))) || target
                == ReorderEnd::Truncated((ints(pos@), index as int, ints3(res@))),
            !exhausted(rv, ints(pos@)) ==> target == ReorderEnd::Truncated(
                (ints(pos@), index as int, ints3(res@)),
            ),
        decreases limit,
    {
        if limit == 0 {
            break ;
        }
        if exhausted_exec(&rs, &pos) {
            break ;
        }
        let ghost st = (ints(pos@), index as int, ints3(res@));
        let ghost fuel = limit as nat;
        assert(reorder_run(items, rv, st, fuel) == match reorder_step(items, rv, st) {
            ReorderStep::Break => ReorderEnd::Done(st),
            ReorderStep::Fail => ReorderEnd::Failed,
            ReorderStep::Next(s) => reorder_run(items, rv, s, (fuel - 1) as nat),
        });
        limit = limit - 1;
        let slot = index % rs.len();
        assert(slot as int == (index as int) % (rv.len() as int));
        match head_exec(&rs, &pos, slot) {
            None => {
                index = index + 1;
            },
            Some(h) => {
                proof {
                    assert(rv[slot as int].len() > 0);
                    assert(h as int == rv[slot as int][ints(pos@)[slot as int]]);
                    assert(0 <= h < cons@.len());
                }
                assert(items[h as int] == cons@[h as int]@);
                match &cons[h].topic {
                    None => {
                        let ghost pb = ints(pos@);
                        let ghost r0 = ints3(res@);
                        let c = pos[slot];
                        let lim = rs[slot].len();
                        assert(pb[slot as int] == c as int);
                        assert(c < lim);
                        pos.set(slot, c + 1);
                        assert(ints(pos@) =~= pb.update(slot as int, pb[slot as int] + 1));
                        let mut run: Vec<usize> = Vec::new();
                        run.push(h);
                        let mut topic: Vec<Vec<usize>> = Vec::new();
                        topic.push(run);
                        res.push(topic);
                        assert(ints(run@) =~= seq![h as int]);
                        assert(ints2(topic@) =~= seq![seq![h as int]]);
                        assert(ints3(res@) =~= r0.push(seq![seq![h as int]]));
                        assert(topics_in(ints3(res@), cons@.len() as int)) by {
                            assert forall|a: int| 0 <= a < ints3(res@).len() implies runs_in(
                                #[trigger] ints3(res@)[a],
                                cons@.len() as int,
                            ) by {
                                if a < r0.len() {
                                    assert(ints3(res@)[a] == r0[a]);
                                }
                            };
                        };
                    },
                    Some(t) => {
                        let tc = chars_of(t.as_str());
                        assert(items[h as int].1 == Some(tc@));
                        if !topic_ready_exec(cons, &rs, &pos, &tc) {
                            index = index + 1;
                        } else {
                            let fl = topic_indices_exec(cons, &tc);
                            let ghost r0 = ints3(res@);
                            match pop_topic_exec(cons, &rs, &mut pos, &fl) {
                                None => {
                                    return Err(ReorderError::NonTopicCommit);
                                },
                                Some(runs) => {
                                    let ghost rn = ints2(runs@);
                                    res.push(runs);
                                    assert(ints3(res@) =~= r0.push(rn));
                                    assert(topics_in(ints3(res@), cons@.len() as int)) by {
                                        assert forall|a: int|
                                            0 <= a < ints3(res@).len() implies runs_in(
                                            #[trigger] ints3(res@)[a],
                                            cons@.len() as int,
                                        ) by {
                                            if a < r0.len() {
                                                assert(ints3(res@)[a] == r0[a]);
                                            }
                                        };
                                    };
                                    index = index + 1;
                                },
                            }
                        }
                    },
                }
            },
        }
    }
    if !exhausted_exec(&rs, &pos) {
        return Err(ReorderError::IterationLimit);
    }
    let out = copy_all(cons, &res);
    Ok(out)
}

/// Converts every element of a vector with `From`.
pub trait VecInto<D>: Sized {
    fn vec_into(self) -> Vec<D>;
}

impl<E, D: From<E>> VecInto<D> for Vec<E> {
    fn vec_into(self) -> (r: Vec<D>)
        ensures
            r@.len() == self@.len(),
            forall|i: int| 0 <= i < self@.len() ==> call_ensures(D::from, (self@[i],), #[trigger] r@[i]),
    {
        let ghost orig = self@;
        let mut rest = self;
        let mut out: Vec<D> = Vec::new();
        while rest.len() > 0
            invariant
                out@.len() + rest@.len() == orig.len(),
                rest@ == orig.subrange(out@.len() as int, orig.len() as int),
                forall|k: int| 0 <= k < out@.len() ==> call_ensures(D::from, (orig[k],), #[trigger] out@[k]),
            decreases rest@.len(),
        {
            let e = rest.remove(0);
            assert(e == orig[out@.len() as int]);
            out.push(D::from(e));
            assert(rest@ =~= orig.subrange(out@.len() as int, orig.len() as int));
        }
        out
    }
}

} // verus!
