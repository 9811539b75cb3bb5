//! What ordering changes submitted together keeps: every change of a
//! repository comes out once, in the order in which it came in.
use crate::message_round_trip::flat;
use crate::submitted_together::head;
use crate::submitted_together::pop_topic;
use crate::submitted_together::repo_runs;
use crate::submitted_together::runs_wf;
use crate::submitted_together::slot_of;
use crate::submitted_together::ItemView;
use crate::submitted_together::exhausted;
use crate::submitted_together::lemma_repo_runs_wf;
use crate::submitted_together::reorder_run;
use crate::submitted_together::reorder_start;
use crate::submitted_together::reorder_step;
use crate::submitted_together::spec_reorder;
use crate::submitted_together::topic_indices;
use crate::submitted_together::topic_ready;
use crate::submitted_together::iteration_limit;
use crate::submitted_together::ReorderEnd;
use crate::submitted_together::ReorderState;
use crate::submitted_together::ReorderStep;
use vstd::prelude::*;

verus! {

/// The changes taken, in order.
pub open spec fn taken(res: Seq<Seq<Seq<int>>>) -> Seq<int>
    decreases res.len(),
{
    if res.len() == 0 {
        Seq::empty()
    } else {
        taken(res.drop_last()) + flat(res.last())
    }
}

/// The changes of `s` that are in the run `r`, in order.
pub open spec fn of_run(s: Seq<int>, r: Seq<int>) -> Seq<int> {
    s.filter(|i: int| r.contains(i))
}

/// The index of the first change of run `k`.
pub open spec fn run_start(rs: Seq<Seq<int>>, k: int) -> int {
    flat(rs.take(k)).len() as int
}

/// The runs are consecutive ranges of the indices, one after the other.
pub open spec fn runs_consecutive(rs: Seq<Seq<int>>) -> bool {
    &&& forall|k: int| 0 <= k < rs.len() ==> (#[trigger] rs[k]).len() > 0
    &&& forall|k: int, m: int| 0 <= k < rs.len() && 0 <= m < rs[k].len() ==> (#[trigger] rs[k][m]) == run_start(rs, k) + m
}

proof fn lemma_flat_take_push<T>(gs: Seq<Seq<T>>, k: int)
    requires
        0 <= k < gs.len(),
    ensures
        flat(gs.take(k + 1)) == flat(gs.take(k)) + gs[k],
{
    assert(gs.take(k + 1).drop_last() =~= gs.take(k));
    assert(gs.take(k + 1).last() == gs[k]);
}

pub proof fn lemma_repo_runs_consecutive<V>(items: Seq<ItemView<V>>)
    ensures
        runs_consecutive(repo_runs(items)),
        flat(repo_runs(items)).len() == items.len(),
    decreases items.len(),
{
    let rs = repo_runs(items);
    if items.len() > 0 {
        let d = items.drop_last();
        lemma_repo_runs_consecutive(d);
        let r = repo_runs(d);
        let i = items.len() - 1;
        if i == 0 || items[i].2 != items[i - 1].2 {
            assert(rs == r.push(seq![i]));
            assert(rs.take(r.len() as int) =~= r);
            assert forall|k: int| 0 <= k < rs.len() implies (#[trigger] rs[k]).len() > 0 by {
                if k < r.len() {
                    assert(rs[k] == r[k]);
                }
            };
            assert forall|k: int, m: int| 0 <= k < rs.len() && 0 <= m < rs[k].len() implies (#[trigger] rs[k][m]) == run_start(rs, k) + m by {
                if k < r.len() {
                    assert(rs[k] == r[k]);
                    assert(rs.take(k) =~= r.take(k));
                } else {
                    assert(rs.take(k) =~= r);
                }
            };
            assert(rs.drop_last() =~= r);
        } else {
            let l = r.last();
            let rl = r.len() - 1;
            assert(r.len() > 0) by {
                if r.len() == 0 {
                    assert(flat(r) =~= Seq::<int>::empty());
                }
            };
            assert(rs == r.update(rl, l.push(i)));
            assert(r.drop_last() =~= rs.drop_last());
            assert(flat(r) == flat(r.drop_last()) + l);
            assert(flat(rs) == flat(rs.drop_last()) + l.push(i));
            assert forall|k: int| 0 <= k < rs.len() implies (#[trigger] rs[k]).len() > 0 by {
                if k < rl {
                    assert(rs[k] == r[k]);
                }
            };
            assert forall|k: int, m: int| 0 <= k < rs.len() && 0 <= m < rs[k].len() implies (#[trigger] rs[k][m]) == run_start(rs, k) + m by {
                assert(rs.take(k) =~= r.take(k));
                if k < rl {
                    assert(rs[k] == r[k]);
                } else if m < l.len() {
                    assert(rs[k][m] == r[k][m]);
                } else {
                    assert(r.take(rl) =~= r.drop_last());
                    assert(r[rl][0] == run_start(r, rl));
                    assert(flat(r).len() == flat(r.drop_last()).len() + l.len());
                }
            };
        }
    } else {
        assert(flat(rs) =~= Seq::<int>::empty());
    }
}

proof fn lemma_run_start_step(rs: Seq<Seq<int>>, k: int)
    requires
        0 <= k < rs.len(),
    ensures
        run_start(rs, k + 1) == run_start(rs, k) + rs[k].len(),
{
    lemma_flat_take_push(rs, k);
}

proof fn lemma_run_start_mono(rs: Seq<Seq<int>>, k: int, j: int)
    requires
        0 <= k < j <= rs.len(),
    ensures
        run_start(rs, k) + rs[k].len() <= run_start(rs, j),
    decreases j - k,
{
    lemma_run_start_step(rs, k);
    if j > k + 1 {
        lemma_run_start_mono(rs, k + 1, j);
    }
}

/// A change is in run `k` exactly when it is in its range of indices.
proof fn lemma_in_run(rs: Seq<Seq<int>>, k: int, x: int)
    requires
        runs_consecutive(rs),
        0 <= k < rs.len(),
    ensures
        rs[k].contains(x) <==> run_start(rs, k) <= x < run_start(rs, k) + rs[k].len(),
{
    if run_start(rs, k) <= x < run_start(rs, k) + rs[k].len() {
        assert(rs[k][x - run_start(rs, k)] == x);
    }
}

/// No change is in two runs.
proof fn lemma_runs_disjoint(rs: Seq<Seq<int>>, k: int, j: int, x: int)
    requires
        runs_consecutive(rs),
        0 <= k < rs.len(),
        0 <= j < rs.len(),
        rs[k].contains(x),
        rs[j].contains(x),
    ensures
        k == j,
{
    lemma_in_run(rs, k, x);
    lemma_in_run(rs, j, x);
    if k < j {
        lemma_run_start_mono(rs, k, j);
    } else if j < k {
        lemma_run_start_mono(rs, j, k);
    }
}

proof fn lemma_slot_of_range<V>(items: Seq<ItemView<V>>, rs: Seq<Seq<int>>, v: V)
    ensures
        slot_of(items, rs, v) matches Some(k) ==> 0 <= k < rs.len(),
    decreases rs.len(),
{
    if rs.len() > 0 {
        lemma_slot_of_range(items, rs.drop_last(), v);
    }
}

/// Taking one more change `h`, of run `k`.
proof fn lemma_of_run_push(rs: Seq<Seq<int>>, s: Seq<int>, h: int, k: int, q: int)
    requires
        runs_consecutive(rs),
        0 <= k < rs.len(),
        0 <= q < rs.len(),
        rs[k].contains(h),
    ensures
        of_run(s.push(h), rs[q]) == if q == k {
            of_run(s, rs[q]).push(h)
        } else {
            of_run(s, rs[q])
        },
{
    let pred = |i: int| rs[q].contains(i);
    let t = s.push(h);
    reveal(Seq::filter);
    assert(t.drop_last() =~= s);
    assert(t.last() == h);
    assert(t.filter(pred) == if pred(t.last()) {
        t.drop_last().filter(pred).push(t.last())
    } else {
        t.drop_last().filter(pred)
    });
    if q != k && rs[q].contains(h) {
        lemma_runs_disjoint(rs, k, q, h);
    }
}

pub open spec fn positions_ok(rs: Seq<Seq<int>>, pos: Seq<int>) -> bool {
    pos.len() == rs.len() && forall|k: int| 0 <= k < rs.len() ==> 0 <= #[trigger] pos[k] <= rs[k].len()
}

proof fn lemma_pop_topic<V>(items: Seq<ItemView<V>>, rs: Seq<Seq<int>>, pos: Seq<int>, fl: Seq<int>, n: int)
    requires
        runs_consecutive(rs),
        runs_wf(rs, n),
        positions_ok(rs, pos),
    ensures
        pop_topic(items, rs, pos, fl) matches Some((p, runs)) ==> {
            &&& positions_ok(rs, p)
            &&& forall|k: int| 0 <= k < rs.len() ==> pos[k] <= #[trigger] p[k]
            &&& forall|k: int| 0 <= k < rs.len() ==> of_run(flat(runs), #[trigger] rs[k]) == rs[k].subrange(pos[k], p[k])
            &&& fl.len() > 0 ==> runs.len() > 0
            &&& forall|j: int| 0 <= j < flat(runs).len() ==> 0 <= #[trigger] flat(runs)[j] < n
        },
    decreases fl.len(),
{
    if fl.len() == 0 {
        assert forall|k: int| 0 <= k < rs.len() implies of_run(flat(Seq::<Seq<int>>::empty()), #[trigger] rs[k]) == rs[k].subrange(pos[k], pos[k]) by {
            assert(flat(Seq::<Seq<int>>::empty()) =~= Seq::<int>::empty());
            assert(rs[k].subrange(pos[k], pos[k]) =~= Seq::<int>::empty());
        };
    } else {
        lemma_pop_topic(items, rs, pos, fl.drop_last(), n);
        match pop_topic(items, rs, pos, fl.drop_last()) {
            None => {},
            Some((p0, runs0)) => {
                let j = fl.last();
                lemma_slot_of_range(items, rs, items[j].2);
                match slot_of(items, rs, items[j].2) {
                    None => {},
                    Some(k) => match head(rs, p0, k) {
                        None => {},
                        Some(h) => if items[h].1 != items[j].1 {
                        } else {
                            assert(h == rs[k][p0[k]]);
                            let runs2 = if fl.len() == 1 || items[j].2 != items[fl[fl.len() - 2]].2 {
                                runs0.push(seq![h])
                            } else {
                                runs0.update(runs0.len() - 1, runs0.last().push(h))
                            };
                            assert(pop_topic(items, rs, pos, fl) == Some((p0.update(k, p0[k] + 1), runs2)));
                            assert(flat(runs2) == flat(runs0).push(h)) by {
                                if fl.len() == 1 || items[j].2 != items[fl[fl.len() - 2]].2 {
                                    assert(runs2.drop_last() =~= runs0);
                                    let one: Seq<int> = seq![h];
                                    assert(flat(runs0) + one =~= flat(runs0).push(h));
                                } else {
                                    assert(runs0.len() > 0);
                                    assert(runs2.drop_last() =~= runs0.drop_last());
                                    assert(flat(runs0) == flat(runs0.drop_last()) + runs0.last());
                                    assert(flat(runs2) =~= flat(runs0).push(h));
                                }
                            };
                            assert(rs[k].contains(h)) by {
                                assert(rs[k][p0[k]] == h);
                            };
                            assert(0 <= h < n);
                            assert forall|i: int| 0 <= i < flat(runs2).len() implies 0 <= #[trigger] flat(runs2)[i] < n by {
                                if i < flat(runs0).len() {
                                    assert(flat(runs2)[i] == flat(runs0)[i]);
                                }
                            };
                            let p = p0.update(k, p0[k] + 1);
                            assert forall|q: int| 0 <= q < rs.len() implies of_run(flat(runs2), #[trigger] rs[q]) == rs[q].subrange(pos[q], p[q]) by {
                                lemma_of_run_push(rs, flat(runs0), h, k, q);
                                if q == k {
                                    assert(rs[q].subrange(pos[q], p[q]) =~= rs[q].subrange(pos[q], p0[q]).push(h));
                                }
                            };
                        },
                    },
                }
            },
        }
    }
}

/// What the ordering keeps in each state: the changes taken from each run
/// are its first ones, in order, and every change taken is a change.
pub open spec fn state_inv(rs: Seq<Seq<int>>, n: int, st: ReorderState) -> bool {
    &&& positions_ok(rs, st.0)
    &&& st.1 >= 0
    &&& forall|k: int| 0 <= k < rs.len() ==> of_run(taken(st.2), #[trigger] rs[k]) == rs[k].take(st.0[k])
    &&& forall|j: int| 0 <= j < taken(st.2).len() ==> 0 <= #[trigger] taken(st.2)[j] < n
}

proof fn lemma_of_run_concat(a: Seq<int>, b: Seq<int>, r: Seq<int>)
    ensures
        of_run(a + b, r) == of_run(a, r) + of_run(b, r),
{
    Seq::filter_distributes_over_add(a, b, |i: int| r.contains(i));
}

proof fn lemma_taken_push(res: Seq<Seq<Seq<int>>>, x: Seq<Seq<int>>)
    ensures
        taken(res.push(x)) == taken(res) + flat(x),
{
    assert(res.push(x).drop_last() =~= res);
}

proof fn lemma_step_inv<V>(items: Seq<ItemView<V>>, rs: Seq<Seq<int>>, st: ReorderState)
    requires
        runs_consecutive(rs),
        runs_wf(rs, items.len() as int),
        rs.len() > 0,
        state_inv(rs, items.len() as int, st),
    ensures
        reorder_step(items, rs, st) matches ReorderStep::Next(s2) ==> state_inv(rs, items.len() as int, s2),
{
    let n = items.len() as int;
    let (pos, index, res) = st;
    if !exhausted(rs, pos) {
        let slot = index % (rs.len() as int);
        assert(0 <= slot < rs.len());
        match head(rs, pos, slot) {
            None => {},
            Some(h) => {
                assert(h == rs[slot][pos[slot]]);
                assert(rs[slot].contains(h));
                assert(0 <= h < n);
                match items[h].1 {
                    None => {
                        let x: Seq<Seq<int>> = seq![seq![h]];
                        lemma_taken_push(res, x);
                        assert(x.drop_last() =~= Seq::<Seq<int>>::empty());
                        assert(flat(x.drop_last()) =~= Seq::<int>::empty());
                        assert(x.last() == seq![h]);
                        assert(flat(x) =~= seq![h]);
                        let t2 = taken(res.push(x));
                        assert(t2 =~= taken(res).push(h));
                        let p2 = pos.update(slot, pos[slot] + 1);
                        assert forall|k: int| 0 <= k < rs.len() implies of_run(t2, #[trigger] rs[k]) == rs[k].take(p2[k]) by {
                            lemma_of_run_push(rs, taken(res), h, slot, k);
                            if k == slot {
                                assert(rs[k].take(p2[k]) =~= rs[k].take(pos[k]).push(h));
                            }
                        };
                        assert forall|j: int| 0 <= j < t2.len() implies 0 <= #[trigger] t2[j] < n by {
                            if j < taken(res).len() {
                                assert(t2[j] == taken(res)[j]);
                            }
                        };
                    },
                    Some(t) => {
                        let fl = crate::submitted_together::topic_indices(items, t);
                        lemma_pop_topic(items, rs, pos, fl, n);
                        match pop_topic(items, rs, pos, fl) {
                            None => {},
                            Some((p, runs)) => {
                                lemma_taken_push(res, runs);
                                let t2 = taken(res.push(runs));
                                assert forall|k: int| 0 <= k < rs.len() implies of_run(t2, #[trigger] rs[k]) == rs[k].take(p[k]) by {
                                    lemma_of_run_concat(taken(res), flat(runs), rs[k]);
                                    assert(rs[k].take(pos[k]) + rs[k].subrange(pos[k], p[k]) =~= rs[k].take(p[k]));
                                };
                                assert forall|j: int| 0 <= j < t2.len() implies 0 <= #[trigger] t2[j] < n by {
                                    if j < taken(res).len() {
                                        assert(t2[j] == taken(res)[j]);
                                    } else {
                                        assert(t2[j] == flat(runs)[j - taken(res).len()]);
                                    }
                                };
                            },
                        }
                    },
                }
            },
        }
    }
}


proof fn lemma_run_inv<V>(items: Seq<ItemView<V>>, rs: Seq<Seq<int>>, st: ReorderState, fuel: nat)
    requires
        runs_consecutive(rs),
        runs_wf(rs, items.len() as int),
        rs.len() > 0,
        state_inv(rs, items.len() as int, st),
    ensures
        reorder_run(items, rs, st, fuel) matches ReorderEnd::Done(s) ==> state_inv(rs, items.len() as int, s)
            && exhausted(rs, s.0),
        reorder_run(items, rs, st, fuel) matches ReorderEnd::Truncated(s) ==> state_inv(
            rs,
            items.len() as int,
            s,
        ),
    decreases fuel,
{
    if fuel > 0 {
        lemma_step_inv(items, rs, st);
        match reorder_step(items, rs, st) {
            ReorderStep::Next(s2) => {
                lemma_run_inv(items, rs, s2, (fuel - 1) as nat);
            },
            _ => {},
        }
    }
}

/// Ordering changes submitted together gives out the changes of each
/// repository once each, in the order in which they came in, and no other
/// change: `repo_runs(items)[k]` are the changes of one repository.
pub proof fn law_reorder_keeps_each_repository<V>(items: Seq<ItemView<V>>)
    ensures
        spec_reorder(items) matches Ok(res) ==> {
            &&& forall|k: int|
                0 <= k < repo_runs(items).len() ==> of_run(taken(res), #[trigger] repo_runs(items)[k])
                    == repo_runs(items)[k]
            &&& forall|j: int| 0 <= j < taken(res).len() ==> 0 <= #[trigger] taken(res)[j] < items.len()
        },
{
    let rs = repo_runs(items);
    let n = items.len() as int;
    if items.len() == 0 {
        assert(taken(Seq::<Seq<Seq<int>>>::empty()) =~= Seq::<int>::empty());
        assert(rs =~= Seq::<Seq<int>>::empty());
    } else {
        lemma_repo_runs_wf(items);
        lemma_repo_runs_consecutive(items);
        let st = reorder_start(rs);
        assert(taken(st.2) =~= Seq::<int>::empty());
        assert forall|k: int| 0 <= k < rs.len() implies of_run(taken(st.2), #[trigger] rs[k]) == rs[k].take(st.0[k]) by {
            reveal(Seq::filter);
            assert(rs[k].take(0) =~= Seq::<int>::empty());
        };
        lemma_run_inv(items, rs, st, iteration_limit());
        match reorder_run(items, rs, st, iteration_limit()) {
            ReorderEnd::Done(s) | ReorderEnd::Truncated(s) => {
                if exhausted(rs, s.0) {
                    assert forall|k: int| 0 <= k < rs.len() implies of_run(taken(s.2), #[trigger] rs[k]) == rs[k] by {
                        assert(s.0[k] >= rs[k].len());
                        assert(rs[k].take(s.0[k]) =~= rs[k]);
                    };
                }
            },
            ReorderEnd::Failed => {},
        }
    }
}


/// The indices with topic `t` are those of the changes with topic `t`.
proof fn lemma_topic_indices<V>(items: Seq<ItemView<V>>, t: Seq<char>)
    ensures
        forall|i: int|
            0 <= i < topic_indices(items, t).len() ==> 0 <= #[trigger] topic_indices(items, t)[i]
                < items.len() && items[topic_indices(items, t)[i]].1 == Some(t),
        forall|j: int|
            0 <= j < items.len() && #[trigger] items[j].1 == Some(t) ==> topic_indices(
                items,
                t,
            ).contains(j),
    decreases items.len(),
{
    if items.len() > 0 {
        let d = items.drop_last();
        lemma_topic_indices(d, t);
        let f = topic_indices(d, t);
        let n = items.len() - 1;
        assert forall|j: int| 0 <= j < items.len() && #[trigger] items[j].1 == Some(t) implies topic_indices(items, t).contains(j) by {
            if j < n {
                assert(d[j] == items[j]);
                let w = choose|w: int| 0 <= w < f.len() && f[w] == j;
                if items.last().1 == Some(t) {
                    assert(topic_indices(items, t)[w] == j);
                }
            } else {
                assert(topic_indices(items, t) == f.push(n));
                assert(topic_indices(items, t)[f.len() as int] == j);
            }
        };
        assert forall|i: int| 0 <= i < topic_indices(items, t).len() implies 0 <= #[trigger] topic_indices(items, t)[i]
            < items.len() && items[topic_indices(items, t)[i]].1 == Some(t) by {
            if i < f.len() {
                assert(topic_indices(items, t)[i] == f[i]);
                assert(d[f[i]] == items[f[i]]);
            }
        };
    }
}

/// The changes that taking a topic's changes gives out carry, one by one,
/// the topics of the changes it was asked for.
proof fn lemma_pop_topic_topics<V>(items: Seq<ItemView<V>>, rs: Seq<Seq<int>>, pos: Seq<int>, fl: Seq<int>)
    ensures
        pop_topic(items, rs, pos, fl) matches Some((p, runs)) ==> {
            &&& flat(runs).len() == fl.len()
            &&& forall|j: int| 0 <= j < fl.len() ==> items[#[trigger] flat(runs)[j]].1 == items[fl[j]].1
        },
    decreases fl.len(),
{
    if fl.len() == 0 {
        assert(flat(Seq::<Seq<int>>::empty()) =~= Seq::<int>::empty());
    } else {
        lemma_pop_topic_topics(items, rs, pos, fl.drop_last());
        match pop_topic(items, rs, pos, fl.drop_last()) {
            None => {},
            Some((p0, runs0)) => {
                let j = fl.last();
                match slot_of(items, rs, items[j].2) {
                    None => {},
                    Some(k) => match head(rs, p0, k) {
                        None => {},
                        Some(h) => if items[h].1 != items[j].1 {
                        } else {
                            let runs2 = if fl.len() == 1 || items[j].2 != items[fl[fl.len() - 2]].2 {
                                runs0.push(seq![h])
                            } else {
                                runs0.update(runs0.len() - 1, runs0.last().push(h))
                            };
                            assert(pop_topic(items, rs, pos, fl) == Some((p0.update(k, p0[k] + 1), runs2)));
                            assert(flat(runs2) == flat(runs0).push(h)) by {
                                if fl.len() == 1 || items[j].2 != items[fl[fl.len() - 2]].2 {
                                    assert(runs2.drop_last() =~= runs0);
                                    let one: Seq<int> = seq![h];
                                    assert(flat(runs0) + one =~= flat(runs0).push(h));
                                } else {
                                    assert(runs0.len() > 0) by {
                                        if runs0.len() == 0 {
                                            assert(flat(runs0) =~= Seq::<int>::empty());
                                        }
                                    };
                                    assert(runs2.drop_last() =~= runs0.drop_last());
                                    assert(flat(runs0) == flat(runs0.drop_last()) + runs0.last());
                                    assert(flat(runs2) =~= flat(runs0).push(h));
                                }
                            };
                            assert forall|i: int| 0 <= i < fl.len() implies items[#[trigger] flat(runs2)[i]].1 == items[fl[i]].1 by {
                                if i < fl.len() - 1 {
                                    assert(flat(runs2)[i] == flat(runs0)[i]);
                                    assert(fl.drop_last()[i] == fl[i]);
                                }
                            };
                        },
                    },
                }
            },
        }
    }
}

/// An entry holding all the changes of topic `t`: as many changes as carry
/// that topic, each of them carrying it.
pub open spec fn topic_entry<V>(items: Seq<ItemView<V>>, e: Seq<Seq<int>>, t: Seq<char>) -> bool {
    &&& flat(e).len() > 0
    &&& flat(e).len() == topic_indices(items, t).len()
    &&& forall|j: int| 0 <= j < flat(e).len() ==> items[#[trigger] flat(e)[j]].1 == Some(t)
}

/// An entry of the ordering is one change without a topic, or the changes
/// of one topic.
pub open spec fn whole_entry<V>(items: Seq<ItemView<V>>, e: Seq<Seq<int>>) -> bool {
    ||| e.len() == 1 && e[0].len() == 1 && items[e[0][0]].1 is None
    ||| exists|t: Seq<char>| #[trigger] topic_entry(items, e, t)
}

pub open spec fn entries_whole<V>(items: Seq<ItemView<V>>, res: Seq<Seq<Seq<int>>>) -> bool {
    forall|e: int| 0 <= e < res.len() ==> whole_entry(items, #[trigger] res[e])
}

proof fn lemma_step_whole<V>(items: Seq<ItemView<V>>, rs: Seq<Seq<int>>, st: ReorderState)
    requires
        runs_consecutive(rs),
        runs_wf(rs, items.len() as int),
        rs.len() > 0,
        positions_ok(rs, st.0),
        entries_whole(items, st.2),
    ensures
        reorder_step(items, rs, st) matches ReorderStep::Next(s2) ==> positions_ok(rs, s2.0)
            && entries_whole(items, s2.2),
{
    let (pos, index, res) = st;
    if !exhausted(rs, pos) {
        let slot = index % (rs.len() as int);
        match head(rs, pos, slot) {
            None => {},
            Some(h) => {
                assert(h == rs[slot][pos[slot]]);
                assert(0 <= h < items.len());
                match items[h].1 {
                    None => {
                        let x: Seq<Seq<int>> = seq![seq![h]];
                        assert(whole_entry(items, x));
                        assert forall|e: int| 0 <= e < res.push(x).len() implies whole_entry(items, #[trigger] res.push(x)[e]) by {
                            if e < res.len() {
                                assert(res.push(x)[e] == res[e]);
                            }
                        };
                    },
                    Some(t) => {
                        if topic_ready(items, rs, pos, t) {
                            let fl = topic_indices(items, t);
                            lemma_pop_topic(items, rs, pos, fl, items.len() as int);
                            lemma_pop_topic_topics(items, rs, pos, fl);
                            lemma_topic_indices(items, t);
                            match pop_topic(items, rs, pos, fl) {
                                None => {},
                                Some((p, runs)) => {
                                    assert(fl.contains(h));
                                    assert forall|j: int| 0 <= j < flat(runs).len() implies items[#[trigger] flat(runs)[j]].1 == Some(t) by {
                                        assert(items[flat(runs)[j]].1 == items[fl[j]].1);
                                    };
                                    assert(topic_entry(items, runs, t));
                                    assert(whole_entry(items, runs));
                                    assert forall|e: int| 0 <= e < res.push(runs).len() implies whole_entry(items, #[trigger] res.push(runs)[e]) by {
                                        if e < res.len() {
                                            assert(res.push(runs)[e] == res[e]);
                                        }
                                    };
                                },
                            }
                        }
                    },
                }
            },
        }
    }
}

proof fn lemma_run_whole<V>(items: Seq<ItemView<V>>, rs: Seq<Seq<int>>, st: ReorderState, fuel: nat)
    requires
        runs_consecutive(rs),
        runs_wf(rs, items.len() as int),
        rs.len() > 0,
        positions_ok(rs, st.0),
        entries_whole(items, st.2),
    ensures
        reorder_run(items, rs, st, fuel) matches ReorderEnd::Done(s) ==> entries_whole(items, s.2),
        reorder_run(items, rs, st, fuel) matches ReorderEnd::Truncated(s) ==> entries_whole(items, s.2),
    decreases fuel,
{
    if fuel > 0 {
        lemma_step_whole(items, rs, st);
        match reorder_step(items, rs, st) {
            ReorderStep::Next(s2) => {
                lemma_run_whole(items, rs, s2, (fuel - 1) as nat);
            },
            _ => {},
        }
    }
}

/// Ordering changes submitted together keeps topics whole: each entry of
/// the result is either one change without a topic, or changes that all
/// carry one topic, as many as carry it. With
/// `law_reorder_keeps_each_repository`, which gives out each change once,
/// an entry of a topic holds exactly the changes of that topic.
pub proof fn law_reorder_keeps_topics_whole<V>(items: Seq<ItemView<V>>)
    ensures
        spec_reorder(items) matches Ok(res) ==> forall|e: int|
            0 <= e < res.len() ==> whole_entry(items, #[trigger] res[e]),
{
    let rs = repo_runs(items);
    if items.len() > 0 {
        lemma_repo_runs_wf(items);
        lemma_repo_runs_consecutive(items);
        let st = reorder_start(rs);
        assert(positions_ok(rs, st.0));
        lemma_run_whole(items, rs, st, iteration_limit());
    }
}

} // verus!
