//! Git LFS support: recognising filter commands that go through
//! git-toprepo, choosing the submodule that holds a path, and the arguments
//! of `git lfs fetch`.
use crate::git::spec_relative_to;
use crate::git::GitPath;
use crate::text::ascii_lower_chars;
use crate::text::ascii_lower;
use crate::text::chars_of;
use crate::text::eq_ignore_ascii_case;
use crate::text::eq_ignore_ascii_case_chars;
use crate::text::has_char;
use crate::text::single_component;
use crate::text::push_str;
use crate::text::split_whitespace;
use crate::text::split_whitespace_chars;
use crate::text::string_of;
use crate::text::strings_view;
use crate::text::vv;
use vstd::prelude::*;

verus! {

/// The last component of the path `p`, as text, if it has one.
pub uninterp spec fn path_file_name(p: Seq<char>) -> Option<Seq<char>>;

/// `std::path::Path::file_name` of the path given as text, converted back
/// to text. Its result is named by [`path_file_name`]. Of a path of one
/// ordinary component, its documentation gives the file name as the path
/// itself; what it gives of other paths depends on the platform's
/// separators and is left to the name.
#[verifier::external_body]
fn file_name_text(p: &str) -> (r: Option<String>)
    ensures
        match r {
            Some(s) => path_file_name(p@) == Some(s@),
            None => path_file_name(p@) is None,
        },
        single_component(p@) ==> r is Some && r.unwrap()@ == p@,
{
    match std::path::Path::new(p).file_name() {
        Some(name) => name.to_str().map(|s| s.to_owned()),
        None => None,
    }
}

pub open spec fn git_toprepo_text() -> Seq<char> {
    seq!['g', 'i', 't', '-', 't', 'o', 'p', 'r', 'e', 'p', 'o']
}

pub open spec fn git_text() -> Seq<char> {
    seq!['g', 'i', 't']
}

pub open spec fn toprepo_text() -> Seq<char> {
    seq!['t', 'o', 'p', 'r', 'e', 'p', 'o']
}

pub open spec fn lfs_text() -> Seq<char> {
    seq!['l', 'f', 's']
}

/// With ASCII case ignored: the command is `git-toprepo lfs <subcommand>`,
/// its name taken as `command_name`, or `git toprepo lfs <subcommand>`.
pub open spec fn tokens_match_toprepo_lfs(
    tokens: Seq<Seq<char>>,
    command_name: Seq<char>,
    subcommand: Seq<char>,
) -> bool {
    let sub = subcommand.map_values(|c: char| ascii_lower(c));
    ||| (tokens.len() >= 3 && eq_ignore_ascii_case(command_name, git_toprepo_text())
        && eq_ignore_ascii_case(tokens[1], lfs_text()) && eq_ignore_ascii_case(tokens[2], sub))
    ||| (tokens.len() >= 4 && eq_ignore_ascii_case(tokens[0], git_text()) && eq_ignore_ascii_case(
        tokens[1],
        toprepo_text(),
    ) && eq_ignore_ascii_case(tokens[2], lfs_text()) && eq_ignore_ascii_case(tokens[3], sub))
}

/// Whether the filter command runs `git-toprepo lfs <subcommand>` (by any
/// path) or `git toprepo lfs <subcommand>`, ASCII case ignored.
pub open spec fn spec_is_lfs_filter_through_toprepo(command: Seq<char>, subcommand: Seq<char>) -> bool {
    let tokens = split_whitespace(command);
    tokens.len() > 0 && tokens_match_toprepo_lfs(
        tokens,
        match path_file_name(tokens[0]) {
            Some(name) => name,
            None => tokens[0],
        },
        subcommand,
    )
}

/// Whether the tokens of a filter command, its first named `command_name`,
/// run `git-toprepo lfs <subcommand>` or `git toprepo lfs <subcommand>`,
/// ASCII case ignored.
pub fn tokens_match_toprepo_lfs_exec(tokens: &[Vec<char>], command_name: &str, subcommand: &str) -> (r:
    bool)
    ensures
        r == tokens_match_toprepo_lfs(vv(tokens@), command_name@, subcommand@),
{
    let n = tokens.len();
    let name = chars_of(command_name);
    let sc = chars_of(subcommand);
    let sub = ascii_lower_chars(&sc);
    let gt = chars_of("git-toprepo");
    let g = chars_of("git");
    let tr = chars_of("toprepo");
    let l = chars_of("lfs");
    proof {
        reveal_strlit("git-toprepo");
        reveal_strlit("git");
        reveal_strlit("toprepo");
        reveal_strlit("lfs");
        assert(gt@ =~= git_toprepo_text());
        assert(g@ =~= git_text());
        assert(tr@ =~= toprepo_text());
        assert(l@ =~= lfs_text());
    }
    let first = n >= 3 && eq_ignore_ascii_case_chars(&name, &gt) && eq_ignore_ascii_case_chars(
        &tokens[1],
        &l,
    ) && eq_ignore_ascii_case_chars(&tokens[2], &sub);
    let second = n >= 4 && eq_ignore_ascii_case_chars(&tokens[0], &g)
        && eq_ignore_ascii_case_chars(&tokens[1], &tr) && eq_ignore_ascii_case_chars(&tokens[2], &l)
        && eq_ignore_ascii_case_chars(&tokens[3], &sub);
    first || second
}

/// Whether a Git LFS filter command goes through git-toprepo. Where the
/// command's first word is a file name alone, that word is its name.
pub fn is_lfs_filter_through_toprepo(command: &str, subcommand: &str) -> (r: bool)
    ensures
        r == spec_is_lfs_filter_through_toprepo(command@, subcommand@),
        split_whitespace(command@).len() > 0 && single_component(split_whitespace(command@)[0])
            ==> r == tokens_match_toprepo_lfs(
            split_whitespace(command@),
            split_whitespace(command@)[0],
            subcommand@,
        ),
{
    let c = chars_of(command);
    let tokens = split_whitespace_chars(&c);
    if tokens.len() == 0 {
        return false;
    }
    let first = string_of(&tokens[0]);
    let name = match file_name_text(first.as_str()) {
        Some(n) => n,
        None => first,
    };
    tokens_match_toprepo_lfs_exec(&tokens, name.as_str(), subcommand)
}

/// Options of `git lfs fetch`.
#[derive(Debug, Clone, Default, PartialEq, Eq)]
pub struct LfsFetchOptions {
    pub dry_run: bool,
    pub prune: bool,
    pub recent: bool,
    pub refetch: bool,
    pub exclude: Vec<String>,
}

/// `-X <pattern>` for each excluded pattern.
pub open spec fn exclude_args(ex: Seq<Seq<char>>) -> Seq<Seq<char>>
    decreases ex.len(),
{
    if ex.len() == 0 {
        Seq::empty()
    } else {
        exclude_args(ex.drop_last()).push(seq!['-', 'X']).push(ex.last())
    }
}

/// The arguments of `git` that fetch the LFS objects under `include_path`
/// from `remote_url`.
pub open spec fn spec_lfs_fetch_args(
    remote_url: Seq<char>,
    dry_run: bool,
    prune: bool,
    recent: bool,
    refetch: bool,
    exclude: Seq<Seq<char>>,
    include_path: Seq<char>,
) -> Seq<Seq<char>> {
    seq![seq!['l', 'f', 's'], seq!['f', 'e', 't', 'c', 'h'], remote_url] + (if dry_run {
        seq![seq!['-', '-', 'd', 'r', 'y', '-', 'r', 'u', 'n']]
    } else {
        Seq::empty()
    }) + (if prune {
        seq![seq!['-', '-', 'p', 'r', 'u', 'n', 'e']]
    } else {
        Seq::empty()
    }) + (if recent {
        seq![seq!['-', '-', 'r', 'e', 'c', 'e', 'n', 't']]
    } else {
        Seq::empty()
    }) + (if refetch {
        seq![seq!['-', '-', 'r', 'e', 'f', 'e', 't', 'c', 'h']]
    } else {
        Seq::empty()
    }) + exclude_args(exclude) + seq![seq!['-', 'I'], include_path]
}


/// The arguments of `git` that fetch the LFS objects under `include_path`
/// from `remote_url`.
pub fn lfs_fetch_args(remote_url: &str, options: &LfsFetchOptions, include_path: &str) -> (r: Vec<
    String,
>)
    ensures
        strings_view(r@) == spec_lfs_fetch_args(
            remote_url@,
            options.dry_run,
            options.prune,
            options.recent,
            options.refetch,
            strings_view(options.exclude@),
            include_path@,
        ),
{
    let mut args: Vec<String> = Vec::new();
    proof {
        reveal_strlit("lfs");
        reveal_strlit("fetch");
        reveal_strlit("--dry-run");
        reveal_strlit("--prune");
        reveal_strlit("--recent");
        reveal_strlit("--refetch");
        reveal_strlit("-X");
        reveal_strlit("-I");
    }
    push_str(&mut args, "lfs");
    push_str(&mut args, "fetch");
    push_str(&mut args, remote_url);
    let ghost base = strings_view(args@);
    assert("lfs"@ =~= seq!['l', 'f', 's']);
    assert("fetch"@ =~= seq!['f', 'e', 't', 'c', 'h']);
    assert("--dry-run"@ =~= seq!['-', '-', 'd', 'r', 'y', '-', 'r', 'u', 'n']);
    assert("--prune"@ =~= seq!['-', '-', 'p', 'r', 'u', 'n', 'e']);
    assert("--recent"@ =~= seq!['-', '-', 'r', 'e', 'c', 'e', 'n', 't']);
    assert("--refetch"@ =~= seq!['-', '-', 'r', 'e', 'f', 'e', 't', 'c', 'h']);
    assert("-X"@ =~= seq!['-', 'X']);
    assert("-I"@ =~= seq!['-', 'I']);
    assert(base =~= seq![seq!['l', 'f', 's'], seq!['f', 'e', 't', 'c', 'h'], remote_url@]);
    if options.dry_run {
        push_str(&mut args, "--dry-run");
    }
    if options.prune {
        push_str(&mut args, "--prune");
    }
    if options.recent {
        push_str(&mut args, "--recent");
    }
    if options.refetch {
        push_str(&mut args, "--refetch");
    }
    let ghost flags = strings_view(args@);
    assert(flags =~= seq![seq!['l', 'f', 's'], seq!['f', 'e', 't', 'c', 'h'], remote_url@] + (
    if options.dry_run {
        seq![seq!['-', '-', 'd', 'r', 'y', '-', 'r', 'u', 'n']]
    } else {
        Seq::empty()
    }) + (if options.prune {
        seq![seq!['-', '-', 'p', 'r', 'u', 'n', 'e']]
    } else {
        Seq::empty()
    }) + (if options.recent {
        seq![seq!['-', '-', 'r', 'e', 'c', 'e', 'n', 't']]
    } else {
        Seq::empty()
    }) + (if options.refetch {
        seq![seq!['-', '-', 'r', 'e', 'f', 'e', 't', 'c', 'h']]
    } else {
        Seq::empty()
    }));
    let ghost ex = strings_view(options.exclude@);
    let mut i: usize = 0;
    while i < options.exclude.len()
        invariant
            i <= options.exclude@.len(),
            ex == strings_view(options.exclude@),
            strings_view(args@) == flags + exclude_args(ex.take(i as int)),
        decreases options.exclude.len() - i,
    {
        assert(ex.take(i + 1).drop_last() =~= ex.take(i as int));
        assert(ex.take(i + 1).last() == options.exclude@[i as int]@);
        proof {
            reveal_strlit("-X");
        }
        assert("-X"@ =~= seq!['-', 'X']);
        push_str(&mut args, "-X");
        push_str(&mut args, options.exclude[i].as_str());
        assert(strings_view(args@) =~= flags + exclude_args(ex.take(i + 1)));
        i = i + 1;
    }
    assert(ex.take(options.exclude@.len() as int) =~= ex);
    assert("-I"@ =~= seq!['-', 'I']);
    push_str(&mut args, "-I");
    push_str(&mut args, include_path);
    let ghost fin = strings_view(args@);
    assert(fin =~= flags + exclude_args(ex) + seq![seq!['-', 'I'], include_path@]);
    args
}

/// Whether the path contains a glob character: `*`, `?`, `[` or `]`.
pub open spec fn has_glob_char(p: Seq<char>) -> bool {
    has_char(p, '*') || has_char(p, '?') || has_char(p, '[') || has_char(p, ']')
}

/// Refuses glob patterns: `git toprepo lfs fetch` takes literal paths.
pub fn ensure_literal_path(path: &str) -> (r: Result<(), String>)
    ensures
        r is Ok <==> !has_glob_char(path@),
{
    let p = chars_of(path);
    let mut i: usize = 0;
    while i < p.len()
        invariant
            i <= p@.len(),
            p@ == path@,
            forall|k: int| 0 <= k < i ==> p@[k] != '*' && p@[k] != '?' && p@[k] != '[' && p@[k]
                != ']',
        decreases p.len() - i,
    {
        let c = p[i];
        if c == '*' || c == '?' || c == '[' || c == ']' {
            let mut m = chars_of(
                "`git toprepo lfs fetch` currently expects literal paths, not glob patterns: `",
            );
            crate::text::push_all(&mut m, &p);
            m.push('`');
            return Err(string_of(&m));
        }
        i = i + 1;
    }
    Ok(())
}

/// Among the submodule paths, the index of the longest one that contains
/// `path` (the last such when equally long).
pub open spec fn deepest_containing(subs: Seq<Seq<u8>>, path: Seq<u8>) -> Option<int>
    decreases subs.len(),
{
    if subs.len() == 0 {
        None
    } else {
        let best = deepest_containing(subs.drop_last(), path);
        let i = subs.len() - 1;
        if spec_relative_to(path, subs[i]) is Some && (match best {
            Some(b) => subs[i].len() >= subs[b].len(),
            None => true,
        }) {
            Some(i)
        } else {
            best
        }
    }
}

proof fn lemma_deepest_containing_range(subs: Seq<Seq<u8>>, path: Seq<u8>)
    ensures
        deepest_containing(subs, path) matches Some(b) ==> 0 <= b < subs.len(),
    decreases subs.len(),
{
    if subs.len() > 0 {
        lemma_deepest_containing_range(subs.drop_last(), path);
    }
}

pub open spec fn paths_view(s: Seq<GitPath>) -> Seq<Seq<u8>> {
    s.map_values(|p: GitPath| p@)
}

/// The index of the deepest submodule that contains `path`.
pub fn deepest_containing_submodule(submodule_paths: &[GitPath], path: &GitPath) -> (r: Option<
    usize,
>)
    ensures
        match deepest_containing(paths_view(submodule_paths@), path@) {
            Some(i) => r == Some(i as usize),
            None => r is None,
        },
{
    let ghost sv = paths_view(submodule_paths@);
    let mut best: Option<usize> = None;
    let mut best_len: usize = 0;
    let mut i: usize = 0;
    while i < submodule_paths.len()
        invariant
            i <= submodule_paths@.len(),
            sv == paths_view(submodule_paths@),
            match deepest_containing(sv.take(i as int), path@) {
                Some(b) => best == Some(b as usize) && 0 <= b < i && best_len == sv[b].len(),
                None => best is None && best_len == 0,
            },
        decreases submodule_paths.len() - i,
    {
        assert(sv.take(i + 1).drop_last() =~= sv.take(i as int));
        assert(sv.take(i + 1)[i as int] == submodule_paths@[i as int]@);
        proof {
            lemma_deepest_containing_range(sv.take(i as int), path@);
            let t = sv.take(i + 1);
            assert(t.drop_last() =~= sv.take(i as int));
            match deepest_containing(sv.take(i as int), path@) {
                Some(b) => {
                    assert(t[b] == sv[b]);
                },
                None => {},
            }
        }
        let sp = &submodule_paths[i];
        if path.relative_to(sp).is_some() && sp.len() >= best_len {
            best = Some(i);
            best_len = sp.len();
        }
        i = i + 1;
    }
    assert(sv.take(submodule_paths@.len() as int) =~= sv);
    best
}

} // verus!
