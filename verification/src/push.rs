//! Preparing the messages of commits pushed from the monorepo.
use crate::fast_export::change_view;
use crate::fast_export::ChangeView;
use crate::fast_export::ChangedFile;
use crate::git::GitPath;
use crate::git::bytes_eq;
use crate::git::bytes_to_vec;
use crate::mono::opt_bytes;
use crate::mono::orig_id;
use crate::mono::MonoRepoGraph;
use crate::mono::spec_get_some_submodule;
use crate::mono::top_bump_of;
use crate::mono::ExpandedView;
use crate::mono::MonoCommitView;
use crate::order::byte_strings_view;
use crate::order::contains_bytes;
use crate::order::bytes_lt;
use crate::order::lemma_bytes_le_antisymmetric;
use crate::order::lemma_bytes_le_total;
use crate::order::lemma_bytes_le_transitive;
use crate::order::strictly_sorted;
use crate::repo_name::RepoName;
use crate::repo_name::SubRepoName;
use crate::text::chars_of;
use crate::text::has_prefix;
use crate::text::has_suffix;
use crate::text::lines_chars;
use crate::text::lines_of;
use crate::text::push_all;
use crate::text::push_str;
use crate::text::starts_with;
use crate::text::string_of;
use crate::text::strings_view;
use crate::text::sub_chars;
use crate::text::vv;
use vstd::prelude::*;

verus! {

pub open spec fn topic_prefix() -> Seq<char> {
    seq!['T', 'o', 'p', 'i', 'c', ':', ' ']
}

pub open spec fn submodule_marker() -> Seq<char> {
    seq!['^', '-', '-', ' ']
}

/// The kept lines, each followed by `\n`, and the last topic, after the
/// given lines: a `Topic: <name>` line sets the topic and a
/// `^-- <path> <commit>` line is dropped.
pub open spec fn push_message_fold(lines: Seq<Seq<char>>) -> (Seq<char>, Option<Seq<char>>)
    decreases lines.len(),
{
    if lines.len() == 0 {
        (Seq::empty(), None)
    } else {
        let (text, topic) = push_message_fold(lines.drop_last());
        let line = lines.last();
        if has_prefix(line, topic_prefix()) {
            (text, Some(line.skip(7)))
        } else if has_prefix(line, submodule_marker()) {
            (text, topic)
        } else {
            (text + line + seq!['\n'], topic)
        }
    }
}

/// `s` without the last of each trailing `\n\n`, so that it ends in at most
/// one `\n`.
pub open spec fn drop_double_newline_end(s: Seq<char>) -> Seq<char>
    decreases s.len(),
{
    if has_suffix(s, seq!['\n', '\n']) {
        drop_double_newline_end(s.drop_last())
    } else {
        s
    }
}

/// The message to push and its topic: `Topic:` lines give the topic and
/// are removed, as are the `^-- ` lines that name submodule commits.
pub open spec fn spec_rewrite_push_message(message: Seq<char>) -> (Seq<char>, Option<Seq<char>>) {
    let (text, topic) = push_message_fold(lines_of(message));
    (drop_double_newline_end(text), topic)
}

/// Removes the `Topic:` and `^-- ` lines of a commit message, giving the
/// message to push and the topic.
pub fn rewrite_push_message(message: &str) -> (r: (String, Option<String>))
    ensures
        ({
            let (text, topic) = spec_rewrite_push_message(message@);
            &&& r.0@ == text
            &&& match topic {
                Some(t) => r.1 matches Some(x) && x@ == t,
                None => r.1 is None,
            }
        }),
{
    let m = chars_of(message);
    let lines = lines_chars(&m);
    let ghost ls = lines_of(message@);
    let tp = chars_of("Topic: ");
    let sm = chars_of("^-- ");
    proof {
        reveal_strlit("Topic: ");
        reveal_strlit("^-- ");
        assert(tp@ =~= topic_prefix());
        assert(sm@ =~= submodule_marker());
        assert(ls.take(0) =~= Seq::<Seq<char>>::empty());
    }
    let mut text: Vec<char> = Vec::new();
    let mut topic: Option<Vec<char>> = None;
    let mut i: usize = 0;
    while i < lines.len()
        invariant
            i <= lines@.len(),
            vv(lines@) == ls,
            tp@ == topic_prefix(),
            sm@ == submodule_marker(),
            push_message_fold(ls.take(i as int)).0 == text@,
            match push_message_fold(ls.take(i as int)).1 {
                Some(t) => topic matches Some(x) && x@ == t,
                None => topic is None,
            },
        decreases lines.len() - i,
    {
        assert(ls.take(i + 1).drop_last() =~= ls.take(i as int));
        assert(ls.take(i + 1).last() == lines@[i as int]@);
        let line = &lines[i];
        if starts_with(line, &tp) {
            let t = sub_chars(line, 7, line.len());
            assert(t@ =~= line@.skip(7));
            topic = Some(t);
        } else if starts_with(line, &sm) {
        } else {
            push_all(&mut text, line);
            text.push('\n');
        }
        i = i + 1;
    }
    assert(ls.take(lines@.len() as int) =~= ls);
    let ghost full = text@;
    while text.len() >= 2 && text[text.len() - 1] == '\n' && text[text.len() - 2] == '\n'
        invariant
            drop_double_newline_end(text@) == drop_double_newline_end(full),
        decreases text.len(),
    {
        let ghost before = text@;
        assert(before.subrange(before.len() - 2, before.len() as int) =~= seq!['\n', '\n']);
        text.pop();
        assert(text@ =~= before.drop_last());
    }
    proof {
        let s = text@;
        if has_suffix(s, seq!['\n', '\n']) {
            assert(s.subrange(s.len() - 2, s.len() as int)[0] == s[s.len() - 2]);
            assert(s.subrange(s.len() - 2, s.len() as int)[1] == s[s.len() - 1]);
        }
    }
    let topic_out = match topic {
        Some(t) => Some(string_of(&t)),
        None => None,
    };
    (string_of(&text), topic_out)
}

/// What is pushed for a commit of the monorepo to one repository.
#[derive(Debug)]
pub struct PushMetadata {
    pub repo_name: RepoName,
    pub push_url: String,
    pub topic: Option<String>,
    pub commit_id: Vec<u8>,
    pub parents: Vec<Vec<u8>>,
}

impl PushMetadata {
    /// The extra arguments of `git push`: the topic as a push option.
    pub fn extra_args(&self) -> (r: Vec<String>)
        ensures
            strings_view(r@) == match self.topic {
                Some(t) => seq!["-o"@, "topic="@ + t@],
                None => Seq::empty(),
            },
    {
        let mut args: Vec<String> = Vec::new();
        match &self.topic {
            Some(topic) => {
                push_str(&mut args, "-o");
                let mut t = chars_of("topic=");
                push_all(&mut t, &chars_of(topic.as_str()));
                let ghost a0 = strings_view(args@);
                args.push(string_of(&t));
                assert(strings_view(args@) =~= a0.push(t@));
            },
            None => {
                assert(strings_view(args@) =~= Seq::<Seq<char>>::empty());
            },
        }
        args
    }
}

/// A file change of a monorepo commit, with the repository it belongs to:
/// where that repository is in the monorepo, its name and push URL, and the
/// change with its path inside that repository.
#[derive(Debug)]
pub struct ResolvedChange {
    pub submod_path: GitPath,
    pub repo_name: RepoName,
    pub push_url: String,
    pub change: ChangedFile,
}

/// The commit to push to one repository for a commit of the monorepo.
#[derive(Debug)]
pub struct PushGroup {
    pub submod_path: GitPath,
    pub repo_name: RepoName,
    pub push_url: String,
    pub file_changes: Vec<ChangedFile>,
    /// The commits of the repository that the parents of the monorepo
    /// commit hold, each once.
    pub parents: Vec<Vec<u8>>,
}

/// Why a commit of the monorepo cannot be split for pushing.
#[derive(Debug, PartialEq, Eq)]
pub enum SplitPushError {
    /// It changes no file, so there is no repository to push it to.
    EmptyCommit,
    /// It changes several repositories but has no topic.
    MultipleReposWithoutTopic,
    /// None of its parents holds content of the top repository.
    NoTopParent,
    /// None of its parents holds the submodule.
    SubmoduleNotInParents { name: SubRepoName, path: GitPath },
}

/// The changes at `path`, in order.
pub open spec fn changes_at(cs: Seq<ResolvedChange>, path: Seq<u8>) -> Seq<ChangeView>
    decreases cs.len(),
{
    if cs.len() == 0 {
        Seq::empty()
    } else if cs.last().submod_path@ == path {
        changes_at(cs.drop_last(), path).push(change_view(cs.last().change))
    } else {
        changes_at(cs.drop_last(), path)
    }
}

/// The number of leading paths that come before `p`.
pub open spec fn paths_before(ps: Seq<Seq<u8>>, p: Seq<u8>) -> int
    decreases ps.len(),
{
    if ps.len() > 0 && bytes_lt(ps[0], p) {
        1 + paths_before(ps.drop_first(), p)
    } else {
        0
    }
}

/// `p` added where it belongs to a sorted list, unless it is there.
pub open spec fn insert_path(ps: Seq<Seq<u8>>, p: Seq<u8>) -> Seq<Seq<u8>> {
    let k = paths_before(ps, p);
    if k < ps.len() && ps[k] == p {
        ps
    } else {
        ps.insert(k, p)
    }
}

/// The repositories that the changes go to, sorted by path.
pub open spec fn sorted_paths(cs: Seq<ResolvedChange>) -> Seq<Seq<u8>>
    decreases cs.len(),
{
    if cs.len() == 0 {
        Seq::empty()
    } else {
        insert_path(sorted_paths(cs.drop_last()), cs.last().submod_path@)
    }
}

/// The index of the first change at `path`.
pub open spec fn first_change_at(cs: Seq<ResolvedChange>, path: Seq<u8>) -> int
    decreases cs.len(),
{
    if cs.len() == 0 {
        0
    } else if cs[0].submod_path@ == path {
        0
    } else {
        1 + first_change_at(cs.drop_first(), path)
    }
}

pub open spec fn parent_commit(g: Seq<MonoCommitView>, p: int, path: Seq<u8>, repo: RepoName) -> Option<
    Seq<u8>,
> {
    match repo {
        RepoName::Top => top_bump_of(g, p),
        RepoName::SubRepo(n) => match spec_get_some_submodule(g, p, path, n@) {
            Some(e) => Some(orig_id(e)),
            None => None,
        },
    }
}

/// The commits of the repository that the parents hold, each once.
pub open spec fn group_parents(g: Seq<MonoCommitView>, parents: Seq<int>, path: Seq<u8>, repo: RepoName) -> Seq<
    Seq<u8>,
>
    decreases parents.len(),
{
    if parents.len() == 0 {
        Seq::empty()
    } else {
        let s = group_parents(g, parents.drop_last(), path, repo);
        match parent_commit(g, parents.last(), path, repo) {
            Some(x) => if s.contains(x) {
                s
            } else {
                s.push(x)
            },
            None => s,
        }
    }
}

/// Changes at the same path go to the same repository and URL.
pub open spec fn consistent_changes(cs: Seq<ResolvedChange>) -> bool {
    forall|i: int, j: int|
        0 <= i < cs.len() && 0 <= j < cs.len() && #[trigger] cs[i].submod_path@ == #[trigger] cs[j].submod_path@
            ==> cs[i].repo_name == cs[j].repo_name && cs[i].push_url@ == cs[j].push_url@
}

pub open spec fn group_view(gr: PushGroup) -> (Seq<u8>, RepoName, Seq<char>, Seq<ChangeView>, Seq<Seq<u8>>) {
    (
        gr.submod_path@,
        gr.repo_name,
        gr.push_url@,
        gr.file_changes@.map_values(|c: ChangedFile| change_view(c)),
        gr.parents@.map_values(|v: Vec<u8>| v@),
    )
}

/// The group for the path: its repository, URL and changes, and the commits
/// of the repository that the parents hold.
pub open spec fn spec_group(
    g: Seq<MonoCommitView>,
    parents: Seq<int>,
    cs: Seq<ResolvedChange>,
    path: Seq<u8>,
) -> (Seq<u8>, RepoName, Seq<char>, Seq<ChangeView>, Seq<Seq<u8>>) {
    let c = cs[first_change_at(cs, path)];
    (path, c.repo_name, c.push_url@, changes_at(cs, path), group_parents(g, parents, path, c.repo_name))
}

/// The first group, in order of paths, that none of the parents holds.
pub open spec fn first_orphan(
    g: Seq<MonoCommitView>,
    parents: Seq<int>,
    cs: Seq<ResolvedChange>,
    ps: Seq<Seq<u8>>,
) -> Option<int>
    decreases ps.len(),
{
    if ps.len() == 0 {
        None
    } else {
        match first_orphan(g, parents, cs, ps.drop_last()) {
            Some(k) => Some(k),
            None => if spec_group(g, parents, cs, ps.last()).4.len() == 0 {
                Some(ps.len() - 1)
            } else {
                None
            },
        }
    }
}

/// How a commit of the monorepo is split for pushing: one commit for each
/// repository it changes, in order of the repositories' paths. A commit
/// without changes, one that changes several repositories without a topic,
/// and one with a repository that none of its parents holds cannot be
/// pushed.
pub open spec fn spec_split_push(
    g: Seq<MonoCommitView>,
    parents: Seq<int>,
    cs: Seq<ResolvedChange>,
    has_topic: bool,
) -> Result<Seq<(Seq<u8>, RepoName, Seq<char>, Seq<ChangeView>, Seq<Seq<u8>>)>, SplitErrorView> {
    let ps = sorted_paths(cs);
    if cs.len() == 0 {
        Err(SplitErrorView::EmptyCommit)
    } else if ps.len() > 1 && !has_topic {
        Err(SplitErrorView::MultipleReposWithoutTopic)
    } else {
        match first_orphan(g, parents, cs, ps) {
            Some(k) => match spec_group(g, parents, cs, ps[k]).1 {
                RepoName::Top => Err(SplitErrorView::NoTopParent),
                RepoName::SubRepo(n) => Err(SplitErrorView::SubmoduleNotInParents(n@, ps[k])),
            },
            None => Ok(ps.map_values(|p: Seq<u8>| spec_group(g, parents, cs, p))),
        }
    }
}

pub enum SplitErrorView {
    EmptyCommit,
    MultipleReposWithoutTopic,
    NoTopParent,
    SubmoduleNotInParents(Seq<char>, Seq<u8>),
}

pub open spec fn split_error_view(e: SplitPushError) -> SplitErrorView {
    match e {
        SplitPushError::EmptyCommit => SplitErrorView::EmptyCommit,
        SplitPushError::MultipleReposWithoutTopic => SplitErrorView::MultipleReposWithoutTopic,
        SplitPushError::NoTopParent => SplitErrorView::NoTopParent,
        SplitPushError::SubmoduleNotInParents { name, path } => SplitErrorView::SubmoduleNotInParents(
            name@,
            path@,
        ),
    }
}

pub open spec fn group_paths(gs: Seq<PushGroup>) -> Seq<Seq<u8>> {
    gs.map_values(|gr: PushGroup| gr.submod_path@)
}

pub open spec fn file_changes_view(v: Seq<ChangedFile>) -> Seq<ChangeView> {
    v.map_values(|c: ChangedFile| change_view(c))
}

proof fn lemma_paths_before(ps: Seq<Seq<u8>>, p: Seq<u8>, k: int)
    requires
        0 <= k <= ps.len(),
        forall|i: int| 0 <= i < k ==> bytes_lt(#[trigger] ps[i], p),
        k < ps.len() ==> !bytes_lt(ps[k], p),
    ensures
        paths_before(ps, p) == k,
    decreases k,
{
    if k > 0 {
        assert forall|i: int| 0 <= i < k - 1 implies bytes_lt(#[trigger] ps.drop_first()[i], p) by {
            assert(ps.drop_first()[i] == ps[i + 1]);
        };
        if k - 1 < ps.len() - 1 {
            assert(ps.drop_first()[k - 1] == ps[k]);
        }
        lemma_paths_before(ps.drop_first(), p, k - 1);
        assert(bytes_lt(ps[0], p));
    }
}

proof fn lemma_bytes_insert_keeps_sorted(ps: Seq<Seq<u8>>, k: int, x: Seq<u8>)
    requires
        strictly_sorted(ps),
        0 <= k <= ps.len(),
        forall|i: int| 0 <= i < k ==> bytes_lt(#[trigger] ps[i], x),
        k < ps.len() ==> bytes_lt(x, ps[k]),
    ensures
        strictly_sorted(ps.insert(k, x)),
{
    let s1 = ps.insert(k, x);
    assert forall|i: int, j: int| 0 <= i < j < s1.len() implies bytes_lt(
        #[trigger] s1[i],
        #[trigger] s1[j],
    ) by {
        if j < k {
            assert(s1[i] == ps[i] && s1[j] == ps[j]);
        } else if j == k {
            assert(s1[i] == ps[i]);
        } else if i == k {
            assert(s1[j] == ps[j - 1]);
            if j - 1 > k {
                assert(bytes_lt(ps[k], ps[j - 1]));
                lemma_bytes_le_transitive(x, ps[k], ps[j - 1]);
                if x == ps[j - 1] {
                    lemma_bytes_le_antisymmetric(x, ps[k]);
                }
            }
        } else if i < k {
            assert(s1[i] == ps[i] && s1[j] == ps[j - 1]);
            assert(bytes_lt(ps[i], x));
            if j - 1 == k {
                lemma_bytes_le_transitive(ps[i], x, ps[k]);
                if ps[i] == ps[k] {
                    lemma_bytes_le_antisymmetric(ps[i], x);
                }
            } else {
                assert(bytes_lt(ps[i], ps[j - 1]));
            }
        } else {
            assert(s1[i] == ps[i - 1] && s1[j] == ps[j - 1]);
        }
    };
}

proof fn lemma_changes_at_absent(cs: Seq<ResolvedChange>, p: Seq<u8>)
    requires
        forall|j: int| 0 <= j < cs.len() ==> (#[trigger] cs[j]).submod_path@ != p,
    ensures
        changes_at(cs, p) == Seq::<ChangeView>::empty(),
    decreases cs.len(),
{
    if cs.len() > 0 {
        assert forall|j: int| 0 <= j < cs.drop_last().len() implies (
        #[trigger] cs.drop_last()[j]).submod_path@ != p by {
            assert(cs.drop_last()[j] == cs[j]);
        };
        lemma_changes_at_absent(cs.drop_last(), p);
        assert(cs[cs.len() - 1].submod_path@ != p);
    }
}

proof fn lemma_first_change_at(cs: Seq<ResolvedChange>, p: Seq<u8>, j: int)
    requires
        0 <= j < cs.len(),
        cs[j].submod_path@ == p,
    ensures
        0 <= first_change_at(cs, p) <= j,
        cs[first_change_at(cs, p)].submod_path@ == p,
    decreases j,
{
    if cs[0].submod_path@ != p {
        assert(cs.drop_first()[j - 1] == cs[j]);
        lemma_first_change_at(cs.drop_first(), p, j - 1);
        assert(cs.drop_first()[first_change_at(cs.drop_first(), p)] == cs[first_change_at(cs, p)]);
    }
}

fn bytes_lt_exec(a: &[u8], b: &[u8]) -> (r: bool)
    ensures
        r == bytes_lt(a@, b@),
{
    crate::order::bytes_le_exec(a, b) && !crate::git::bytes_eq(a, b)
}

/// Groups the changes by the repository they go to, in order of the
/// repositories' paths; each group takes the repository and URL of its
/// first change.
fn group_changes(changes: Vec<ResolvedChange>) -> (groups: Vec<PushGroup>)
    ensures
        group_paths(groups@) == sorted_paths(changes@),
        strictly_sorted(group_paths(groups@)),
        forall|j: int| 0 <= j < changes@.len() ==> group_paths(groups@).contains(
            (#[trigger] changes@[j]).submod_path@,
        ),
        forall|k: int|
            0 <= k < groups@.len() ==> {
                let gr = #[trigger] groups@[k];
                &&& file_changes_view(gr.file_changes@) == changes_at(changes@, gr.submod_path@)
                &&& gr.parents@.len() == 0
                &&& exists|j: int|
                    0 <= j < changes@.len() && changes@[j].submod_path@ == gr.submod_path@
                        && changes@[j].repo_name == gr.repo_name && changes@[j].push_url@
                        == gr.push_url@
            },
{
    let ghost orig = changes@;
    let total = changes.len();
    let mut rest = changes;
    let mut groups: Vec<PushGroup> = Vec::new();
    let mut i: usize = 0;
    while rest.len() > 0
        invariant
            i + rest@.len() == orig.len(),
            orig.len() == total,
            rest@ == orig.skip(i as int),
            group_paths(groups@) == sorted_paths(orig.take(i as int)),
            strictly_sorted(group_paths(groups@)),
            forall|j: int| 0 <= j < i ==> group_paths(groups@).contains(
                (#[trigger] orig[j]).submod_path@,
            ),
            forall|k: int|
                0 <= k < groups@.len() ==> {
                    let gr = #[trigger] groups@[k];
                    &&& file_changes_view(gr.file_changes@) == changes_at(
                        orig.take(i as int),
                        gr.submod_path@,
                    )
                    &&& gr.parents@.len() == 0
                    &&& exists|j: int|
                        0 <= j < i && orig[j].submod_path@ == gr.submod_path@ && orig[j].repo_name
                            == gr.repo_name && orig[j].push_url@ == gr.push_url@
                },
        decreases rest@.len(),
    {
        let c = rest.remove(0);
        assert(c == orig[i as int]);
        assert(rest@ =~= orig.skip(i + 1));
        let ghost pre = orig.take(i as int);
        let ghost post = orig.take(i + 1);
        assert(post.drop_last() =~= pre);
        assert(post.last() == c);
        let ghost gp = group_paths(groups@);
        let ghost q = c.submod_path@;
        let mut k: usize = 0;
        while k < groups.len() && bytes_lt_exec(groups[k].submod_path.as_bytes(), c.submod_path.as_bytes())
            invariant
                k <= groups@.len(),
                gp == group_paths(groups@),
                q == c.submod_path@,
                forall|m: int| 0 <= m < k ==> bytes_lt(#[trigger] gp[m], q),
            decreases groups.len() - k,
        {
            k = k + 1;
        }
        proof {
            lemma_paths_before(gp, q, k as int);
        }
        let ghost groups0 = groups@;
        if k < groups.len() && groups[k].submod_path.same(&c.submod_path) {
            let mut gr = groups.remove(k);
            let ghost fc0 = file_changes_view(gr.file_changes@);
            gr.file_changes.push(c.change);
            assert(file_changes_view(gr.file_changes@) =~= fc0.push(change_view(c.change)));
            groups.insert(k, gr);
            assert(groups@ =~= groups0.update(k as int, gr));
            assert(group_paths(groups@) =~= gp);
            assert forall|k2: int| 0 <= k2 < groups@.len() implies {
                let g2 = #[trigger] groups@[k2];
                &&& file_changes_view(g2.file_changes@) == changes_at(post, g2.submod_path@)
                &&& g2.parents@.len() == 0
                &&& exists|j: int|
                    0 <= j < i + 1 && orig[j].submod_path@ == g2.submod_path@ && orig[j].repo_name
                        == g2.repo_name && orig[j].push_url@ == g2.push_url@
            } by {
                if k2 != k {
                    assert(groups@[k2] == groups0[k2]);
                    assert(gp[k as int] == q);
                    if k2 < k {
                        assert(bytes_lt(gp[k2], gp[k as int]));
                    } else {
                        assert(bytes_lt(gp[k as int], gp[k2]));
                    }
                    assert(gp[k2] != q);
                }
            };
        } else {
            proof {
                if (k as int) < gp.len() {
                    lemma_bytes_le_total(gp[k as int], q);
                }
                lemma_bytes_insert_keeps_sorted(gp, k as int, q);
                assert forall|j: int| 0 <= j < pre.len() implies (#[trigger] pre[j]).submod_path@
                    != q by {
                    assert(pre[j] == orig[j]);
                    assert(gp.contains(orig[j].submod_path@));
                };
                lemma_changes_at_absent(pre, q);
            }
            let mut fc: Vec<ChangedFile> = Vec::new();
            fc.push(c.change);
            assert(file_changes_view(fc@) =~= seq![change_view(c.change)]);
            let gr = PushGroup {
                submod_path: c.submod_path,
                repo_name: c.repo_name,
                push_url: c.push_url,
                file_changes: fc,
                parents: Vec::new(),
            };
            groups.insert(k, gr);
            assert(groups@ =~= groups0.insert(k as int, gr));
            assert(group_paths(groups@) =~= gp.insert(k as int, q));
            assert forall|k2: int| 0 <= k2 < groups@.len() implies {
                let g2 = #[trigger] groups@[k2];
                &&& file_changes_view(g2.file_changes@) == changes_at(post, g2.submod_path@)
                &&& g2.parents@.len() == 0
                &&& exists|j: int|
                    0 <= j < i + 1 && orig[j].submod_path@ == g2.submod_path@ && orig[j].repo_name
                        == g2.repo_name && orig[j].push_url@ == g2.push_url@
            } by {
                if k2 < k {
                    assert(groups@[k2] == groups0[k2]);
                    assert(gp[k2] != q);
                } else if k2 > k {
                    assert(groups@[k2] == groups0[k2 - 1]);
                    assert(gp[k2 - 1] != q);
                } else {
                    assert(orig[i as int].submod_path@ == q);
                }
            };
        }
        assert forall|j: int| 0 <= j < i + 1 implies group_paths(groups@).contains(
            (#[trigger] orig[j]).submod_path@,
        ) by {
            if j < i {
                let m = choose|m: int| 0 <= m < gp.len() && gp[m] == orig[j].submod_path@;
                if group_paths(groups@) =~= gp {
                    assert(group_paths(groups@)[m] == gp[m]);
                } else {
                    if m < k {
                        assert(group_paths(groups@)[m] == gp[m]);
                    } else {
                        assert(group_paths(groups@)[m + 1] == gp[m]);
                    }
                }
            } else {
                assert(group_paths(groups@)[k as int] == q);
            }
        };
        i = i + 1;
    }
    assert(orig.take(i as int) =~= orig);
    groups
}


pub open spec fn parents_as_int(parents: Seq<usize>) -> Seq<int> {
    parents.map_values(|p: usize| p as int)
}

/// The commits of the repository at `path` that the parents hold, each once,
/// in the order of the parents.
fn collect_group_parents(
    graph: &MonoRepoGraph,
    parents: &Vec<usize>,
    path: &GitPath,
    repo: &RepoName,
) -> (r: Vec<Vec<u8>>)
    requires
        graph.wf(),
    ensures
        byte_strings_view(r@) == group_parents(
            graph.view_commits(),
            parents_as_int(parents@),
            path@,
            *repo,
        ),
{
    let ghost g = graph.view_commits();
    let ghost ps = parents_as_int(parents@);
    let mut out: Vec<Vec<u8>> = Vec::new();
    let mut i: usize = 0;
    assert(ps.take(0) =~= Seq::<int>::empty());
    assert(byte_strings_view(out@) =~= Seq::<Seq<u8>>::empty());
    while i < parents.len()
        invariant
            graph.wf(),
            g == graph.view_commits(),
            ps == parents_as_int(parents@),
            i <= parents@.len(),
            byte_strings_view(out@) == group_parents(g, ps.take(i as int), path@, *repo),
        decreases parents.len() - i,
    {
        let p = parents[i];
        let found: Option<Vec<u8>> = match repo {
            RepoName::Top => graph.get_top_bump(p),
            RepoName::SubRepo(n) => match graph.get_some_submodule(p, path, n) {
                Some(e) => Some(bytes_to_vec(e.get_orig_commit_id().as_slice())),
                None => None,
            },
        };
        assert(ps.take(i + 1).drop_last() =~= ps.take(i as int));
        assert(ps.take(i + 1).last() == p as int);
        assert(opt_bytes(found) == parent_commit(g, p as int, path@, *repo));
        match found {
            Some(x) => {
                if !contains_bytes(&out, x.as_slice()) {
                    let ghost before = byte_strings_view(out@);
                    out.push(x);
                    assert(byte_strings_view(out@) =~= before.push(x@));
                }
            },
            None => {},
        }
        i = i + 1;
    }
    assert(ps.take(parents@.len() as int) =~= ps);
    out
}

proof fn lemma_first_orphan_prefix(
    g: Seq<MonoCommitView>,
    parents: Seq<int>,
    cs: Seq<ResolvedChange>,
    ps: Seq<Seq<u8>>,
    m: int,
    k: int,
)
    requires
        0 <= m <= ps.len(),
        first_orphan(g, parents, cs, ps.take(m)) == Some(k),
    ensures
        first_orphan(g, parents, cs, ps) == Some(k),
    decreases ps.len(),
{
    if m == ps.len() {
        assert(ps.take(m) =~= ps);
    } else {
        assert(ps.drop_last().take(m) =~= ps.take(m));
        lemma_first_orphan_prefix(g, parents, cs, ps.drop_last(), m, k);
    }
}

/// Splits a commit of the monorepo into the commits to push, one for each
/// repository that its changes go to, in order of the repositories' paths.
/// Each takes as parents the commits of its repository that the parents of
/// the monorepo commit hold. A commit without changes, one that changes
/// several repositories without a topic, and one with a repository that none
/// of its parents holds are refused.
pub fn split_push_commit(
    graph: &MonoRepoGraph,
    mono_parents: &Vec<usize>,
    changes: Vec<ResolvedChange>,
    has_topic: bool,
) -> (r: Result<Vec<PushGroup>, SplitPushError>)
    requires
        graph.wf(),
        consistent_changes(changes@),
    ensures
        match spec_split_push(
            graph.view_commits(),
            parents_as_int(mono_parents@),
            changes@,
            has_topic,
        ) {
            Ok(gs) => r matches Ok(v) && v@.map_values(|gr: PushGroup| group_view(gr)) == gs,
            Err(e) => r matches Err(x) && split_error_view(x) == e,
        },
{
    let ghost g = graph.view_commits();
    let ghost pi = parents_as_int(mono_parents@);
    let ghost cs = changes@;
    let ghost ps = sorted_paths(cs);
    if changes.len() == 0 {
        return Err(SplitPushError::EmptyCommit);
    }
    let mut groups = group_changes(changes);
    assert(groups@.len() == ps.len()) by {
        assert(group_paths(groups@).len() == groups@.len());
    };
    if groups.len() > 1 && !has_topic {
        return Err(SplitPushError::MultipleReposWithoutTopic);
    }
    let ghost gs0 = groups@;
    assert(gs0.len() == groups.len());
    let ghost want = ps.map_values(|p: Seq<u8>| spec_group(g, pi, cs, p));
    let mut out: Vec<PushGroup> = Vec::new();
    let mut k: usize = 0;
    assert(ps.take(0) =~= Seq::<Seq<u8>>::empty());
    assert(out@.map_values(|gr: PushGroup| group_view(gr)) =~= want.take(0));
    while groups.len() > 0
        invariant
            graph.wf(),
            g == graph.view_commits(),
            pi == parents_as_int(mono_parents@),
            consistent_changes(cs),
            ps == sorted_paths(cs),
            group_paths(gs0) == ps,
            gs0.len() == ps.len(),
            want == ps.map_values(|p: Seq<u8>| spec_group(g, pi, cs, p)),
            forall|m: int|
                0 <= m < gs0.len() ==> {
                    let gr = #[trigger] gs0[m];
                    &&& file_changes_view(gr.file_changes@) == changes_at(cs, gr.submod_path@)
                    &&& exists|j: int|
                        0 <= j < cs.len() && cs[j].submod_path@ == gr.submod_path@
                            && cs[j].repo_name == gr.repo_name && cs[j].push_url@
                            == gr.push_url@
                },
            k + groups@.len() == gs0.len(),
            gs0.len() <= usize::MAX,
            cs.len() > 0,
            cs == changes@,
            ps.len() <= 1 || has_topic,
            groups@ == gs0.skip(k as int),
            first_orphan(g, pi, cs, ps.take(k as int)) is None,
            out@.map_values(|gr: PushGroup| group_view(gr)) == want.take(k as int),
        decreases groups@.len(),
    {
        let mut gr = groups.remove(0);
        assert(gr == gs0[k as int]);
        assert(groups@ =~= gs0.skip(k + 1));
        let ghost path = gr.submod_path@;
        assert(path == ps[k as int]) by {
            assert(group_paths(gs0)[k as int] == gs0[k as int].submod_path@);
        };
        proof {
            let j = choose|j: int|
                0 <= j < cs.len() && cs[j].submod_path@ == gr.submod_path@ && cs[j].repo_name
                    == gr.repo_name && cs[j].push_url@ == gr.push_url@;
            lemma_first_change_at(cs, path, j);
            let f = first_change_at(cs, path);
            assert(cs[f].submod_path@ == cs[j].submod_path@);
        }
        let parents = collect_group_parents(graph, mono_parents, &gr.submod_path, &gr.repo_name);
        assert(ps.take(k + 1).drop_last() =~= ps.take(k as int));
        assert(ps.take(k + 1).last() == path);
        assert(spec_group(g, pi, cs, path).1 == gr.repo_name);
        assert(spec_group(g, pi, cs, path).4 == byte_strings_view(parents@));
        if parents.len() == 0 {
            proof {
                assert(first_orphan(g, pi, cs, ps.take(k + 1)) == Some(k as int));
                lemma_first_orphan_prefix(g, pi, cs, ps, k + 1, k as int);
            }
            let err = match gr.repo_name {
                RepoName::Top => SplitPushError::NoTopParent,
                RepoName::SubRepo(n) => SplitPushError::SubmoduleNotInParents {
                    name: n,
                    path: gr.submod_path,
                },
            };
            return Err(err);
        }
        gr.parents = parents;
        let ghost before = out@.map_values(|x: PushGroup| group_view(x));
        out.push(gr);
        assert(group_view(gr) == spec_group(g, pi, cs, path));
        assert(out@.map_values(|x: PushGroup| group_view(x)) =~= before.push(group_view(gr)));
        assert(want.take(k + 1) =~= want.take(k as int).push(want[k as int]));
        k = k + 1;
    }
    assert(ps.take(k as int) =~= ps);
    assert(want.take(k as int) =~= want);
    Ok(out)
}

} // verus!
