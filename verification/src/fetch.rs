//! What `git fetch` is run with: the remote, the refspecs that put a
//! subrepo's branches and tags into its namespace, and the options.
use crate::config::SubRepoConfig;
use crate::repo_name::namespaces_text;
use crate::repo_name::repo_name_text;
use crate::repo_name::RepoName;
use crate::text::chars_of;
use crate::text::i32_to_decimal;
use crate::text::int_text;
use crate::text::push_all;
use crate::text::push_str;
use crate::text::string_of;
use crate::text::strings_view;
use crate::fast_export::is_valid_ref_name;
use crate::fast_export::valid_ref_name;
use crate::text::decimal_text;
use crate::text::usize_to_decimal;
use vstd::prelude::*;
use vstd::utf8::encode_utf8;

verus! {

/// `refs/namespaces/<name>/`, where the refs of a repository are kept.
pub open spec fn ref_prefix(name: RepoName) -> Seq<char> {
    namespaces_text() + repo_name_text(name) + seq!['/']
}

/// The options of a subrepo fetch: negotiate from the commits already in its
/// namespace, `--depth` unless the depth is 0, and `--prune` if asked for.
pub open spec fn subrepo_fetch_args(prefix: Seq<char>, depth: i32, prune: bool) -> Seq<Seq<char>> {
    seq!["--negotiation-tip="@ + prefix + seq!['*']] + (if depth != 0 {
        seq!["--depth="@ + int_text(depth as int)]
    } else {
        Seq::empty()
    }) + (if prune {
        seq!["--prune"@]
    } else {
        Seq::empty()
    })
}

/// The refspecs of a subrepo fetch: its branches and tags, forced, into its
/// namespace.
pub open spec fn subrepo_refspecs(prefix: Seq<char>) -> Seq<Seq<char>> {
    seq![
        "+refs/heads/*:"@ + prefix + "refs/heads/*"@,
        "+refs/tags/*:"@ + prefix + "refs/tags/*"@,
    ]
}

/// The options of every fetch.
pub open spec fn fetch_options() -> Seq<Seq<char>> {
    seq![
        "fetch"@,
        "--progress"@,
        "--no-tags"@,
        "--no-recurse-submodules"@,
        "--no-auto-maintenance"@,
        "--no-write-commit-graph"@,
        "--no-write-fetch-head"@,
    ]
}

/// The arguments of `git`: `-C <git dir> fetch <options> <args> [<remote>]
/// <refspecs>`.
pub open spec fn fetch_command_args(
    git_dir: Seq<char>,
    args: Seq<Seq<char>>,
    remote: Option<Seq<char>>,
    refspecs: Seq<Seq<char>>,
) -> Seq<Seq<char>> {
    seq!["-C"@, git_dir] + fetch_options() + args + (match remote {
        Some(r) => seq![r],
        None => Seq::empty(),
    }) + refspecs
}

/// What to fetch for a repository.
#[derive(Debug, PartialEq, Eq, Hash)]
pub enum FetchParams {
    /// Fetch the configured URL with the default refspecs.
    Default,
    /// Fetch the given URL or remote with the refspec `(from, to)`, where
    /// `to` is given without the namespace prefix.
    Custom { remote: String, refspec: (String, String) },
}

impl Clone for FetchParams {
    fn clone(&self) -> (r: Self)
        ensures
            r == *self,
    {
        match self {
            FetchParams::Default => FetchParams::Default,
            FetchParams::Custom { remote, refspec } => FetchParams::Custom {
                remote: remote.clone(),
                refspec: (refspec.0.clone(), refspec.1.clone()),
            },
        }
    }
}

/// A fetch to be run in a git directory.
pub struct RemoteFetcher {
    pub git_dir: String,
    pub args: Vec<String>,
    pub remote: Option<String>,
    pub refspecs: Vec<String>,
}

pub open spec fn opt_text(o: Option<String>) -> Option<Seq<char>> {
    match o {
        Some(s) => Some(s@),
        None => None,
    }
}

impl RemoteFetcher {
    /// A fetch in `git_dir` with no remote, options or refspecs yet.
    pub fn new(git_dir: String) -> (r: Self)
        ensures
            r.git_dir == git_dir,
            r.args@.len() == 0,
            r.remote is None,
            r.refspecs@.len() == 0,
    {
        RemoteFetcher { git_dir, args: Vec::new(), remote: None, refspecs: Vec::new() }
    }

    /// Fetches the top repository from its default remote, `origin` when none
    /// is configured, pruning refs that are gone there.
    pub fn set_remote_as_top_repo(&mut self, default_remote_name: Option<String>)
        ensures
            final(self).git_dir == old(self).git_dir,
            final(self).refspecs == old(self).refspecs,
            opt_text(final(self).remote) == Some(
                match default_remote_name {
                    Some(n) => n@,
                    None => "origin"@,
                },
            ),
            strings_view(final(self).args@) == strings_view(old(self).args@).push("--prune"@),
    {
        self.remote = match default_remote_name {
            Some(name) => Some(name),
            None => Some(string_of(&chars_of("origin"))),
        };
        push_str(&mut self.args, "--prune");
    }

    /// Fetches a subrepo from `remote_url`, its fetch URL joined onto the URL
    /// of the top repository's remote, into the namespace of `repo_name`.
    pub fn set_remote_from_subrepo_config(
        &mut self,
        remote_url: String,
        repo_name: &RepoName,
        subrepo_config: &SubRepoConfig,
    )
        ensures
            final(self).git_dir == old(self).git_dir,
            final(self).remote == Some(remote_url),
            strings_view(final(self).args@) == subrepo_fetch_args(
                ref_prefix(*repo_name),
                subrepo_config.fetch.depth,
                subrepo_config.fetch.prune,
            ),
            strings_view(final(self).refspecs@) == subrepo_refspecs(ref_prefix(*repo_name)),
    {
        self.remote = Some(remote_url);
        let prefix = chars_of(repo_name.to_ref_prefix().as_str());
        let mut args: Vec<String> = Vec::new();
        let mut tip = chars_of("--negotiation-tip=");
        push_all(&mut tip, &prefix);
        tip.push('*');
        assert(tip@ =~= "--negotiation-tip="@ + ref_prefix(*repo_name) + seq!['*']);
        args.push(string_of(&tip));
        let ghost a1 = strings_view(args@);
        assert(a1 =~= seq!["--negotiation-tip="@ + ref_prefix(*repo_name) + seq!['*']]);
        if subrepo_config.fetch.depth != 0 {
            let mut d = chars_of("--depth=");
            let digits = i32_to_decimal(subrepo_config.fetch.depth);
            push_all(&mut d, &digits);
            args.push(string_of(&d));
            assert(strings_view(args@) =~= a1.push("--depth="@ + int_text(
                subrepo_config.fetch.depth as int,
            )));
        }
        let ghost a2 = strings_view(args@);
        if subrepo_config.fetch.prune {
            push_str(&mut args, "--prune");
        }
        assert(strings_view(args@) =~= subrepo_fetch_args(
            ref_prefix(*repo_name),
            subrepo_config.fetch.depth,
            subrepo_config.fetch.prune,
        ));
        self.args = args;
        let mut heads = chars_of("+refs/heads/*:");
        push_all(&mut heads, &prefix);
        push_all(&mut heads, &chars_of("refs/heads/*"));
        let mut tags = chars_of("+refs/tags/*:");
        push_all(&mut tags, &prefix);
        push_all(&mut tags, &chars_of("refs/tags/*"));
        let mut refspecs: Vec<String> = Vec::new();
        refspecs.push(string_of(&heads));
        refspecs.push(string_of(&tags));
        assert(strings_view(refspecs@) =~= subrepo_refspecs(ref_prefix(*repo_name)));
        self.refspecs = refspecs;
    }

    /// The arguments of `git` that run this fetch.
    pub fn command_args(&self) -> (r: Vec<String>)
        ensures
            strings_view(r@) == fetch_command_args(
                self.git_dir@,
                strings_view(self.args@),
                opt_text(self.remote),
                strings_view(self.refspecs@),
            ),
    {
        let mut r: Vec<String> = Vec::new();
        push_str(&mut r, "-C");
        push_str(&mut r, self.git_dir.as_str());
        push_str(&mut r, "fetch");
        push_str(&mut r, "--progress");
        push_str(&mut r, "--no-tags");
        push_str(&mut r, "--no-recurse-submodules");
        push_str(&mut r, "--no-auto-maintenance");
        push_str(&mut r, "--no-write-commit-graph");
        push_str(&mut r, "--no-write-fetch-head");
        let ghost head = strings_view(r@);
        assert(head =~= seq!["-C"@, self.git_dir@] + fetch_options());
        push_strings(&mut r, &self.args);
        let ghost with_args = strings_view(r@);
        match &self.remote {
            Some(remote) => {
                push_str(&mut r, remote.as_str());
            },
            None => {},
        }
        assert(strings_view(r@) =~= with_args + match opt_text(self.remote) {
            Some(x) => seq![x],
            None => Seq::<Seq<char>>::empty(),
        });
        push_strings(&mut r, &self.refspecs);
        r
    }
}

/// Appends copies of all of `items`.
fn push_strings(r: &mut Vec<String>, items: &Vec<String>)
    ensures
        strings_view(final(r)@) == strings_view(old(r)@) + strings_view(items@),
{
    let ghost start = strings_view(r@);
    let mut i: usize = 0;
    while i < items.len()
        invariant
            i <= items@.len(),
            strings_view(r@) == start + strings_view(items@).take(i as int),
        decreases items.len() - i,
    {
        push_str(r, items[i].as_str());
        assert(strings_view(items@).take(i + 1) =~= strings_view(items@).take(i as int).push(
            items@[i as int]@,
        ));
        i = i + 1;
    }
    assert(strings_view(items@).take(items@.len() as int) =~= strings_view(items@));
}


/// Where a fetched ref ends up in the monorepo.
#[derive(Debug, PartialEq, Eq)]
pub enum FetchDestinationRef {
    /// A ref of the monorepo.
    Normal(String),
    /// `FETCH_HEAD`: the ref it goes through and the text that follows its
    /// commit in `.git/FETCH_HEAD`.
    FetchHead { filtered_ref: String, description_suffix: String },
}

/// A refspec of `git-toprepo fetch`, spelled out.
#[derive(Debug, PartialEq, Eq)]
pub struct DetailedFetchRefspec {
    pub force: bool,
    /// The ref of the remote, without the leading `+`.
    pub remote_ref: String,
    /// Where the fetch puts the commits: the destination in the namespace of
    /// the repository.
    pub unfiltered_ref: String,
    pub destination: FetchDestinationRef,
}

/// A local ref of a refspec is not a full reference name.
#[derive(Debug, PartialEq, Eq)]
pub struct BadLocalRef {
    pub local_ref: String,
}

pub struct DetailedView {
    pub force: bool,
    pub remote_ref: Seq<char>,
    pub unfiltered_ref: Seq<char>,
    pub normal: Option<Seq<char>>,
    pub fetch_head: Option<(Seq<char>, Seq<char>)>,
}

pub open spec fn detailed_view(d: DetailedFetchRefspec) -> DetailedView {
    DetailedView {
        force: d.force,
        remote_ref: d.remote_ref@,
        unfiltered_ref: d.unfiltered_ref@,
        normal: match d.destination {
            FetchDestinationRef::Normal(r) => Some(r@),
            _ => None,
        },
        fetch_head: match d.destination {
            FetchDestinationRef::FetchHead { filtered_ref, description_suffix } => Some(
                (filtered_ref@, description_suffix@),
            ),
            _ => None,
        },
    }
}

pub open spec fn fetch_head_text() -> Seq<char> {
    seq!['F', 'E', 'T', 'C', 'H', '_', 'H', 'E', 'A', 'D']
}

pub open spec fn fetch_heads_text() -> Seq<char> {
    "refs/fetch-heads/"@
}

/// The refspec at `idx`, `(remote, local)`, spelled out for the repository
/// whose ref prefix is `prefix`: a leading `+` on the remote ref forces; a
/// local `FETCH_HEAD` goes through `refs/fetch-heads/<idx>`.
pub open spec fn spec_detail_refspec(
    idx: nat,
    remote: Seq<char>,
    local: Seq<char>,
    prefix: Seq<char>,
    url: Seq<char>,
) -> Option<DetailedView> {
    let force = remote.len() > 0 && remote[0] == '+';
    let remote_ref = if force {
        remote.skip(1)
    } else {
        remote
    };
    if local == fetch_head_text() {
        let filtered = fetch_heads_text() + decimal_text(idx);
        Some(
            DetailedView {
                force,
                remote_ref,
                unfiltered_ref: prefix + filtered,
                normal: None,
                fetch_head: Some((filtered, "\t\t"@ + remote_ref + " of "@ + url)),
            },
        )
    } else if is_valid_ref_name(encode_utf8(local)) {
        Some(
            DetailedView {
                force,
                remote_ref,
                unfiltered_ref: prefix + local,
                normal: Some(local),
                fetch_head: None,
            },
        )
    } else {
        None
    }
}

fn detail_one(idx: usize, remote: &str, local: &str, prefix: &str, url: &str) -> (r: Option<
    DetailedFetchRefspec,
>)
    ensures
        match spec_detail_refspec(idx as nat, remote@, local@, prefix@, url@) {
            Some(v) => r matches Some(d) && detailed_view(d) == v,
            None => r is None,
        },
{
    let rc = chars_of(remote);
    let force = rc.len() > 0 && rc[0] == '+';
    let mut rr: Vec<char> = Vec::new();
    let start: usize = if force {
        1
    } else {
        0
    };
    let mut i = start;
    while i < rc.len()
        invariant
            start <= i <= rc@.len(),
            rr@ == rc@.subrange(start as int, i as int),
        decreases rc.len() - i,
    {
        rr.push(rc[i]);
        assert(rc@.subrange(start as int, i + 1) =~= rc@.subrange(start as int, i as int).push(rc@[i as int]));
        i = i + 1;
    }
    proof {
        if force {
            assert(rr@ =~= remote@.skip(1));
        } else {
            assert(rr@ =~= remote@);
        }
    }
    let lc = chars_of(local);
    let fh = chars_of("FETCH_HEAD");
    proof {
        reveal_strlit("FETCH_HEAD");
        assert(fh@ =~= fetch_head_text());
    }
    if crate::text::chars_eq(&lc, &fh) {
        let mut filtered = chars_of("refs/fetch-heads/");
        push_all(&mut filtered, &usize_to_decimal(idx));
        let mut unfiltered = chars_of(prefix);
        push_all(&mut unfiltered, &filtered);
        let mut suffix = chars_of("\t\t");
        push_all(&mut suffix, &rr);
        push_all(&mut suffix, &chars_of(" of "));
        push_all(&mut suffix, &chars_of(url));
        return Some(
            DetailedFetchRefspec {
                force,
                remote_ref: string_of(&rr),
                unfiltered_ref: string_of(&unfiltered),
                destination: FetchDestinationRef::FetchHead {
                    filtered_ref: string_of(&filtered),
                    description_suffix: string_of(&suffix),
                },
            },
        );
    }
    if !valid_ref_name(local.as_bytes()) {
        return None;
    }
    let mut unfiltered = chars_of(prefix);
    push_all(&mut unfiltered, &lc);
    Some(
        DetailedFetchRefspec {
            force,
            remote_ref: string_of(&rr),
            unfiltered_ref: string_of(&unfiltered),
            destination: FetchDestinationRef::Normal(local.to_string()),
        },
    )
}

pub open spec fn details_view(v: Seq<DetailedFetchRefspec>) -> Seq<DetailedView> {
    v.map_values(|d: DetailedFetchRefspec| detailed_view(d))
}

/// The index of the first refspec whose local ref is bad, if any.
pub open spec fn first_bad_refspec(refspecs: Seq<(String, String)>, prefix: Seq<char>, url: Seq<char>) -> Option<int>
    decreases refspecs.len(),
{
    if refspecs.len() == 0 {
        None
    } else {
        match first_bad_refspec(refspecs.drop_last(), prefix, url) {
            Some(k) => Some(k),
            None => if spec_detail_refspec(
                (refspecs.len() - 1) as nat,
                refspecs.last().0@,
                refspecs.last().1@,
                prefix,
                url,
            ) is None {
                Some(refspecs.len() - 1)
            } else {
                None
            },
        }
    }
}

/// Spells out the refspecs of `git-toprepo fetch` for the repository
/// `repo_name` at `url`; the first one with a bad local ref is refused.
pub fn detail_refspecs(refspecs: &Vec<(String, String)>, repo_name: &RepoName, url: &str) -> (r: Result<
    Vec<DetailedFetchRefspec>,
    BadLocalRef,
>)
    ensures
        match first_bad_refspec(refspecs@, ref_prefix(*repo_name), url@) {
            Some(k) => r matches Err(e) && e.local_ref@ == refspecs@[k].1@,
            None => r matches Ok(v) && v@.len() == refspecs@.len() && forall|k: int|
                0 <= k < refspecs@.len() ==> spec_detail_refspec(
                    k as nat,
                    refspecs@[k].0@,
                    refspecs@[k].1@,
                    ref_prefix(*repo_name),
                    url@,
                ) == Some(detailed_view(#[trigger] v@[k])),
        },
{
    let prefix = repo_name.to_ref_prefix();
    let ghost p = ref_prefix(*repo_name);
    assert(prefix@ == p);
    let mut out: Vec<DetailedFetchRefspec> = Vec::new();
    let mut i: usize = 0;
    while i < refspecs.len()
        invariant
            i <= refspecs@.len(),
            prefix@ == p,
            p == ref_prefix(*repo_name),
            first_bad_refspec(refspecs@.take(i as int), p, url@) is None,
            out@.len() == i,
            forall|k: int|
                0 <= k < i ==> spec_detail_refspec(
                    k as nat,
                    refspecs@[k].0@,
                    refspecs@[k].1@,
                    p,
                    url@,
                ) == Some(detailed_view(#[trigger] out@[k])),
        decreases refspecs.len() - i,
    {
        let (remote, local) = &refspecs[i];
        assert(refspecs@.take(i + 1).drop_last() =~= refspecs@.take(i as int));
        assert(refspecs@.take(i + 1).last() == refspecs@[i as int]);
        match detail_one(i, remote.as_str(), local.as_str(), prefix.as_str(), url) {
            Some(d) => {
                out.push(d);
            },
            None => {
                proof {
                    assert(*remote == refspecs@[i as int].0 && *local == refspecs@[i as int].1);
                    assert(first_bad_refspec(refspecs@.take(i + 1), p, url@) == Some(i as int));
                    lemma_first_bad_prefix(refspecs@, p, url@, i + 1, i as int);
                }
                return Err(BadLocalRef { local_ref: string_of(&chars_of(local.as_str())) });
            },
        }
        i = i + 1;
    }
    assert(refspecs@.take(i as int) =~= refspecs@);
    Ok(out)
}

proof fn lemma_first_bad_prefix(
    refspecs: Seq<(String, String)>,
    prefix: Seq<char>,
    url: Seq<char>,
    m: int,
    k: int,
)
    requires
        0 <= m <= refspecs.len(),
        first_bad_refspec(refspecs.take(m), prefix, url) == Some(k),
    ensures
        first_bad_refspec(refspecs, prefix, url) == Some(k),
    decreases refspecs.len(),
{
    if m == refspecs.len() {
        assert(refspecs.take(m) =~= refspecs);
    } else {
        assert(refspecs.drop_last().take(m) =~= refspecs.take(m));
        lemma_first_bad_prefix(refspecs.drop_last(), prefix, url, m, k);
    }
}

} // verus!
