//! Git hooks and Git LFS filter configuration: which filter commands go
//! through git-toprepo, and what to do with the hook files found.
use crate::text::chars_eq;
use crate::text::chars_of;
use crate::text::push_all;
use crate::text::single_component;
use crate::text::split_whitespace;
use crate::text::stem_text;
use crate::text::split_whitespace_chars;
use crate::text::string_of;
use crate::text::strings_view;
use crate::text::vv;
use vstd::prelude::*;

verus! {

/// The stem of the last component of the path `p` (its file name without
/// the extension), as text, if it has one.
pub uninterp spec fn path_file_stem(p: Seq<char>) -> Option<Seq<char>>;

/// `std::path::Path::file_stem` of the path given as text, converted back to
/// text. Its result is named by [`path_file_stem`]. Of a path of one
/// ordinary component, its documentation gives the stem as the name before
/// its last `.`, or the whole name where the only `.` is the first
/// character or there is none; what it gives of other paths depends on the
/// platform's separators and is left to the name.
#[verifier::external_body]
fn file_stem_text(p: &str) -> (r: Option<String>)
    ensures
        match r {
            Some(s) => path_file_stem(p@) == Some(s@),
            None => path_file_stem(p@) is None,
        },
        single_component(p@) ==> r is Some && r.unwrap()@ == stem_text(p@),
{
    match std::path::Path::new(p).file_stem() {
        Some(stem) => stem.to_str().map(|s| s.to_owned()),
        None => None,
    }
}

pub open spec fn git_toprepo_text() -> Seq<char> {
    seq!['g', 'i', 't', '-', 't', 'o', 'p', 'r', 'e', 'p', 'o']
}

pub open spec fn git_text() -> Seq<char> {
    seq!['g', 'i', 't']
}

pub open spec fn toprepo_text() -> Seq<char> {
    seq!['t', 'o', 'p', 'r', 'e', 'p', 'o']
}

pub open spec fn lfs_text() -> Seq<char> {
    seq!['l', 'f', 's']
}

/// The tokens of a filter command, the first replaced by `command_name`,
/// start with `git-toprepo lfs <subcommand>` or `git toprepo lfs
/// <subcommand>`.
pub open spec fn tokens_start_through_toprepo(
    tokens: Seq<Seq<char>>,
    command_name: Seq<char>,
    subcommand: Seq<char>,
) -> bool {
    let t = tokens.update(0, command_name);
    tokens.len() > 0 && ((t.len() >= 3 && t[0] == git_toprepo_text() && t[1] == lfs_text() && t[2]
        == subcommand) || (t.len() >= 4 && t[0] == git_text() && t[1] == toprepo_text() && t[2]
        == lfs_text() && t[3] == subcommand))
}

/// Whether the filter command runs `git-toprepo lfs <subcommand>` (by any
/// path) or `git toprepo lfs <subcommand>`.
pub open spec fn spec_is_lfs_filter_through_toprepo(command: Seq<char>, subcommand: Seq<char>) -> bool {
    let tokens = split_whitespace(command);
    tokens.len() > 0 && tokens_start_through_toprepo(
        tokens,
        match path_file_stem(tokens[0]) {
            Some(stem) => stem,
            None => tokens[0],
        },
        subcommand,
    )
}

/// Whether the tokens of a filter command, the first replaced by
/// `command_name`, start with `git-toprepo lfs <subcommand>` or
/// `git toprepo lfs <subcommand>`.
pub fn tokens_through_toprepo(tokens: &[Vec<char>], command_name: &str, subcommand: &str) -> (r:
    bool)
    ensures
        r == tokens_start_through_toprepo(vv(tokens@), command_name@, subcommand@),
{
    if tokens.len() == 0 {
        return false;
    }
    let name = chars_of(command_name);
    let sub = chars_of(subcommand);
    let gt = chars_of("git-toprepo");
    let g = chars_of("git");
    let tr = chars_of("toprepo");
    let l = chars_of("lfs");
    proof {
        reveal_strlit("git-toprepo");
        reveal_strlit("git");
        reveal_strlit("toprepo");
        reveal_strlit("lfs");
        assert(gt@ =~= git_toprepo_text());
        assert(g@ =~= git_text());
        assert(tr@ =~= toprepo_text());
        assert(l@ =~= lfs_text());
    }
    let ghost t = vv(tokens@).update(0, command_name@);
    assert(t.len() == tokens@.len());
    assert(t[0] == name@);
    assert(forall|k: int| 1 <= k < t.len() ==> t[k] == tokens@[k]@);
    let n = tokens.len();
    let first = (n >= 3 && chars_eq(&name, &gt) && chars_eq(&tokens[1], &l) && chars_eq(
        &tokens[2],
        &sub,
    ));
    let second = (n >= 4 && chars_eq(&name, &g) && chars_eq(&tokens[1], &tr) && chars_eq(
        &tokens[2],
        &l,
    ) && chars_eq(&tokens[3], &sub));
    first || second
}

/// Whether a Git LFS filter command, as configured for `filter.lfs.smudge`
/// or `filter.lfs.process`, goes through git-toprepo. Where the command's
/// first word is a file name alone, its stem is the command's name.
pub fn is_lfs_filter_through_toprepo(command: &str, subcommand: &str) -> (r: bool)
    ensures
        r == spec_is_lfs_filter_through_toprepo(command@, subcommand@),
        split_whitespace(command@).len() > 0 && single_component(split_whitespace(command@)[0])
            ==> r == tokens_start_through_toprepo(
            split_whitespace(command@),
            stem_text(split_whitespace(command@)[0]),
            subcommand@,
        ),
{
    let c = chars_of(command);
    let tokens = split_whitespace_chars(&c);
    if tokens.len() == 0 {
        return false;
    }
    let first = string_of(&tokens[0]);
    let name = match file_stem_text(first.as_str()) {
        Some(stem) => stem,
        None => first,
    };
    tokens_through_toprepo(&tokens, name.as_str(), subcommand)
}

/// How the Git configuration of the `smudge` or `filter-process` filter
/// stands.
#[derive(Debug, PartialEq, Eq)]
pub enum LfsFilterConfigState {
    /// No configuration found.
    Missing,
    /// Correctly set up through Git Toprepo.
    ThroughGitToprepo,
    /// The bad configuration values that bypass Git Toprepo. There might
    /// still be configuration values that go through Git Toprepo, but that
    /// mixed case is ignored.
    Bad(Vec<String>),
}

/// The state of the filter after the configured values, in order: bad
/// values are collected; otherwise any value through git-toprepo makes it
/// `ThroughGitToprepo`.
pub open spec fn filter_state(values: Seq<Seq<char>>, subcommand: Seq<char>) -> (bool, Seq<Seq<char>>)
    decreases values.len(),
{
    if values.len() == 0 {
        (false, Seq::empty())
    } else {
        let (through, bad) = filter_state(values.drop_last(), subcommand);
        if spec_is_lfs_filter_through_toprepo(values.last(), subcommand) {
            (true, bad)
        } else {
            (through, bad.push(values.last()))
        }
    }
}

/// Classifies the configured values of a Git LFS filter.
pub fn classify_lfs_filter_values(values: Vec<String>, subcommand: &str) -> (r:
    LfsFilterConfigState)
    ensures
        ({
            let (through, bad) = filter_state(strings_view(values@), subcommand@);
            if bad.len() > 0 {
                r matches LfsFilterConfigState::Bad(b) && strings_view(b@) == bad
            } else if through {
                r is ThroughGitToprepo
            } else {
                r is Missing
            }
        }),
{
    let ghost vs = strings_view(values@);
    let mut through = false;
    let mut bad: Vec<String> = Vec::new();
    let mut i: usize = 0;
    while i < values.len()
        invariant
            i <= values@.len(),
            vs == strings_view(values@),
            filter_state(vs.take(i as int), subcommand@) == (through, strings_view(bad@)),
        decreases values.len() - i,
    {
        assert(vs.take(i + 1).drop_last() =~= vs.take(i as int));
        assert(vs.take(i + 1).last() == values@[i as int]@);
        let v = &values[i];
        if is_lfs_filter_through_toprepo(v.as_str(), subcommand) {
            through = true;
        } else {
            let ghost b0 = strings_view(bad@);
            bad.push(v.clone());
            assert(strings_view(bad@) =~= b0.push(v@));
        }
        i = i + 1;
    }
    assert(vs.take(values@.len() as int) =~= vs);
    if bad.len() > 0 {
        LfsFilterConfigState::Bad(bad)
    } else if through {
        LfsFilterConfigState::ThroughGitToprepo
    } else {
        LfsFilterConfigState::Missing
    }
}

/// What to do with a hook file.
#[derive(Debug, PartialEq, Eq)]
pub enum WriteHookDecision {
    /// The file already holds the wanted content and is executable.
    Verified,
    /// Write the file; `overwrite` says whether an existing file may be
    /// replaced, else it must be created.
    Write { overwrite: bool },
}

/// Whether `s` is one of `list`.
pub open spec fn is_one_of(s: Seq<char>, list: Seq<Seq<char>>) -> bool {
    exists|k: int| 0 <= k < list.len() && list[k] == s
}

fn contains_text(list: &[String], s: &str) -> (r: bool)
    ensures
        r == is_one_of(s@, strings_view(list@)),
{
    let c = chars_of(s);
    let mut i: usize = 0;
    while i < list.len()
        invariant
            i <= list@.len(),
            c@ == s@,
            forall|k: int| 0 <= k < i ==> list@[k]@ != s@,
        decreases list.len() - i,
    {
        let e = chars_of(list[i].as_str());
        if chars_eq(&e, &c) {
            assert(strings_view(list@)[i as int] == s@);
            return true;
        }
        i = i + 1;
    }
    assert forall|k: int| 0 <= k < list@.len() implies strings_view(list@)[k] != s@ by {
        assert(strings_view(list@)[k] == list@[k]@);
    };
    false
}

/// Decides what to do with a hook file: nothing if it already is an
/// executable file with the wanted content, else write it, replacing an
/// existing file when `force` is given or when the existing executable
/// file holds one of the contents that may be replaced.
pub fn write_hook_decision(
    existing_content: Option<&str>,
    is_executable: bool,
    wanted_content: &str,
    content_acceptable_to_overwrite: &[String],
    force: bool,
) -> (r: WriteHookDecision)
    ensures
        match existing_content {
            Some(e) if is_executable && e@ == wanted_content@ => r == WriteHookDecision::Verified,
            Some(e) if is_executable => r == (WriteHookDecision::Write {
                overwrite: force || is_one_of(e@, strings_view(content_acceptable_to_overwrite@)),
            }),
            _ => r == (WriteHookDecision::Write { overwrite: force }),
        },
{
    let mut allow_overwrite = force;
    if let Some(e) = existing_content {
        if is_executable {
            let ec = chars_of(e);
            let wc = chars_of(wanted_content);
            if chars_eq(&ec, &wc) {
                return WriteHookDecision::Verified;
            }
            if !allow_overwrite && contains_text(content_acceptable_to_overwrite, e) {
                allow_overwrite = true;
            }
        }
    }
    WriteHookDecision::Write { overwrite: allow_overwrite }
}

/// What to do about a hook file that should not be there.
#[derive(Debug, PartialEq, Eq)]
pub enum RemoveHookDecision {
    /// There is no such file.
    Absent,
    /// Remove it.
    Remove,
    /// It holds something unexpected: leave it and report.
    Refuse,
}

/// Decides whether to remove a hook file: it is removed when it exists and
/// `force` is given or it holds one of the contents that may be removed.
pub fn remove_hook_decision(
    existing_content: Option<&str>,
    content_acceptable_to_remove: &[String],
    force: bool,
) -> (r: RemoveHookDecision)
    ensures
        match existing_content {
            None => r == RemoveHookDecision::Absent,
            Some(e) => if force || is_one_of(e@, strings_view(content_acceptable_to_remove@)) {
                r == RemoveHookDecision::Remove
            } else {
                r == RemoveHookDecision::Refuse
            },
        },
{
    match existing_content {
        None => RemoveHookDecision::Absent,
        Some(e) => {
            if !force && !contains_text(content_acceptable_to_remove, e) {
                RemoveHookDecision::Refuse
            } else {
                RemoveHookDecision::Remove
            }
        },
    }
}

/// The name of the pre-push hook.
pub open spec fn pre_push_name() -> Seq<char> {
    "pre-push"@
}

/// The pre-push hook that refuses a plain `git push`.
pub open spec fn toprepo_pre_push_text() -> Seq<char> {
    r#"#!/bin/sh
set -eu
# This is an optional hook to improve the error message when running 'git push' instead of 'git toprepo push'.
if test "${GIT_TOPREPO_ALLOW_PUSH:-0}" != "1"; then
    echo "ERROR: Please use 'git toprepo push' instead of 'git push'.

If you really want to push without Git Toprepo, use 'git push --no-verify' or 'export GIT_TOPREPO_ALLOW_PUSH=1'." >&2
    exit 1
fi
"#@
}

/// The pre-push hook that runs the git-toprepo one.
pub open spec fn base_pre_push_without_lfs_text() -> Seq<char> {
    r#"#!/bin/sh
set -eu
/bin/sh "$0.toprepo" "$@" < /dev/null
"#@
}

/// The pre-push hook that runs the git-toprepo one, then Git LFS.
pub open spec fn base_pre_push_with_lfs_text() -> Seq<char> {
    r#"#!/bin/sh
set -eu
/bin/sh "$0.toprepo" "$@" < /dev/null
git lfs pre-push "$@"
"#@
}

/// The hook that runs `git lfs <name>`.
pub open spec fn lfs_hook_text(name: Seq<char>) -> Seq<char> {
    "#!/bin/sh\nset -eu\ngit lfs "@ + name + " \"$@\"\n"@
}

/// The hooks that Git LFS installs besides pre-push.
pub open spec fn lfs_hook_names() -> Seq<Seq<char>> {
    seq!["post-checkout"@, "post-commit"@, "post-merge"@]
}

fn toprepo_pre_push() -> (r: &'static str)
    ensures
        r@ == toprepo_pre_push_text(),
{
    r#"#!/bin/sh
set -eu
# This is an optional hook to improve the error message when running 'git push' instead of 'git toprepo push'.
if test "${GIT_TOPREPO_ALLOW_PUSH:-0}" != "1"; then
    echo "ERROR: Please use 'git toprepo push' instead of 'git push'.

If you really want to push without Git Toprepo, use 'git push --no-verify' or 'export GIT_TOPREPO_ALLOW_PUSH=1'." >&2
    exit 1
fi
"#
}

fn base_pre_push_without_lfs() -> (r: &'static str)
    ensures
        r@ == base_pre_push_without_lfs_text(),
{
    r#"#!/bin/sh
set -eu
/bin/sh "$0.toprepo" "$@" < /dev/null
"#
}

fn base_pre_push_with_lfs() -> (r: &'static str)
    ensures
        r@ == base_pre_push_with_lfs_text(),
{
    r#"#!/bin/sh
set -eu
/bin/sh "$0.toprepo" "$@" < /dev/null
git lfs pre-push "$@"
"#
}

/// The content of the hook that runs `git lfs <name>`.
pub fn other_git_lfs_base_hook_content(name: &str) -> (r: String)
    ensures
        r@ == lfs_hook_text(name@),
{
    let mut v = chars_of("#!/bin/sh\nset -eu\ngit lfs ");
    push_all(&mut v, &chars_of(name));
    push_all(&mut v, &chars_of(" \"$@\"\n"));
    string_of(&v)
}

/// A change to a file under the hooks directory.
#[derive(Debug, PartialEq, Eq)]
pub enum HookChange {
    /// Write `content` to the hook `name`; an existing executable file with
    /// one of the `acceptable` contents may be replaced.
    Write { name: String, content: String, acceptable: Vec<String> },
    /// Remove the hook `name` if it holds one of the `acceptable` contents.
    Remove { name: String, acceptable: Vec<String> },
}

/// A hook change, as values.
pub enum HookChangeView {
    Write { name: Seq<char>, content: Seq<char>, acceptable: Seq<Seq<char>> },
    Remove { name: Seq<char>, acceptable: Seq<Seq<char>> },
}

pub open spec fn hook_change_view(c: HookChange) -> HookChangeView {
    match c {
        HookChange::Write { name, content, acceptable } => HookChangeView::Write {
            name: name@,
            content: content@,
            acceptable: strings_view(acceptable@),
        },
        HookChange::Remove { name, acceptable } => HookChangeView::Remove {
            name: name@,
            acceptable: strings_view(acceptable@),
        },
    }
}

pub open spec fn hook_changes_view(s: Seq<HookChange>) -> Seq<HookChangeView> {
    s.map_values(|c: HookChange| hook_change_view(c))
}

/// What to do with the Git LFS hook `name`: with Git LFS it is written,
/// without it a hook that only runs Git LFS is removed.
pub open spec fn lfs_hook_change(with_git_lfs: bool, name: Seq<char>) -> HookChangeView {
    if with_git_lfs {
        HookChangeView::Write { name, content: lfs_hook_text(name), acceptable: Seq::empty() }
    } else {
        HookChangeView::Remove { name, acceptable: seq![lfs_hook_text(name)] }
    }
}

/// The changes to the hooks directory, in order: the git-toprepo pre-push
/// hook, the pre-push hook that calls it (and Git LFS, if wanted, where the
/// other variant may be replaced), then the other Git LFS hooks.
pub open spec fn spec_hook_changes(with_git_lfs: bool) -> Seq<HookChangeView> {
    seq![
        HookChangeView::Write {
            name: pre_push_name() + ".toprepo"@,
            content: toprepo_pre_push_text(),
            acceptable: Seq::empty(),
        },
        if with_git_lfs {
            HookChangeView::Write {
                name: pre_push_name(),
                content: base_pre_push_with_lfs_text(),
                acceptable: seq![base_pre_push_without_lfs_text()],
            }
        } else {
            HookChangeView::Write {
                name: pre_push_name(),
                content: base_pre_push_without_lfs_text(),
                acceptable: seq![base_pre_push_with_lfs_text()],
            }
        },
        lfs_hook_change(with_git_lfs, lfs_hook_names()[0]),
        lfs_hook_change(with_git_lfs, lfs_hook_names()[1]),
        lfs_hook_change(with_git_lfs, lfs_hook_names()[2]),
    ]
}

fn text(s: &str) -> (r: String)
    ensures
        r@ == s@,
{
    string_of(&chars_of(s))
}

fn lfs_hook(with_git_lfs: bool, name: &str) -> (r: HookChange)
    ensures
        hook_change_view(r) == lfs_hook_change(with_git_lfs, name@),
{
    let content = other_git_lfs_base_hook_content(name);
    if with_git_lfs {
        let r = HookChange::Write { name: text(name), content, acceptable: Vec::new() };
        assert(strings_view(Seq::<String>::empty()) =~= Seq::<Seq<char>>::empty());
        r
    } else {
        let mut acceptable: Vec<String> = Vec::new();
        acceptable.push(content);
        assert(strings_view(acceptable@) =~= seq![lfs_hook_text(name@)]);
        HookChange::Remove { name: text(name), acceptable }
    }
}

/// The changes to the hooks directory for installing the hooks with or
/// without Git LFS.
pub fn hook_changes(with_git_lfs: bool) -> (r: Vec<HookChange>)
    ensures
        hook_changes_view(r@) == spec_hook_changes(with_git_lfs),
{
    let mut r: Vec<HookChange> = Vec::new();
    let mut name = chars_of("pre-push");
    push_all(&mut name, &chars_of(".toprepo"));
    r.push(HookChange::Write {
        name: string_of(&name),
        content: text(toprepo_pre_push()),
        acceptable: Vec::new(),
    });
    let mut acceptable: Vec<String> = Vec::new();
    if with_git_lfs {
        acceptable.push(text(base_pre_push_without_lfs()));
        assert(strings_view(acceptable@) =~= seq![base_pre_push_without_lfs_text()]);
        r.push(HookChange::Write {
            name: text("pre-push"),
            content: text(base_pre_push_with_lfs()),
            acceptable,
        });
    } else {
        acceptable.push(text(base_pre_push_with_lfs()));
        assert(strings_view(acceptable@) =~= seq![base_pre_push_with_lfs_text()]);
        r.push(HookChange::Write {
            name: text("pre-push"),
            content: text(base_pre_push_without_lfs()),
            acceptable,
        });
    }
    r.push(lfs_hook(with_git_lfs, "post-checkout"));
    r.push(lfs_hook(with_git_lfs, "post-commit"));
    r.push(lfs_hook(with_git_lfs, "post-merge"));
    assert(strings_view(Seq::<String>::empty()) =~= Seq::<Seq<char>>::empty());
    assert(hook_changes_view(r@) =~= spec_hook_changes(with_git_lfs));
    r
}

/// A Git LFS filter whose configuration git-toprepo looks after.
#[derive(Debug, PartialEq, Eq)]
pub struct LfsFilterConfig {
    /// The subcommand given to Git LFS.
    pub subcommand: String,
    /// The git-config key.
    pub git_config_key: String,
    /// What a bad configuration may lead to.
    pub bad_config_message: String,
}

/// The `smudge` and the `filter-process` filters, with their keys and what
/// a bad configuration of each may lead to.
pub open spec fn spec_lfs_filters() -> Seq<(Seq<char>, Seq<char>, Seq<char>)> {
    seq![
        (
            "smudge"@,
            "filter.lfs.smudge"@,
            "In an emulated monorepo this may fetch Git LFS objects from the wrong remote."@,
        ),
        (
            "filter-process"@,
            "filter.lfs.process"@,
            "Git's long-running filter process can take precedence over filter.lfs.smudge,so this may bypass Git Toprepo aware Git LFS handling."@,
        ),
    ]
}

pub open spec fn lfs_filter_view(f: LfsFilterConfig) -> (Seq<char>, Seq<char>, Seq<char>) {
    (f.subcommand@, f.git_config_key@, f.bad_config_message@)
}

/// The Git LFS filters that git-toprepo configures.
pub fn lfs_filters() -> (r: Vec<LfsFilterConfig>)
    ensures
        r@.map_values(|f: LfsFilterConfig| lfs_filter_view(f)) == spec_lfs_filters(),
{
    let mut r: Vec<LfsFilterConfig> = Vec::new();
    r.push(LfsFilterConfig {
        subcommand: text("smudge"),
        git_config_key: text("filter.lfs.smudge"),
        bad_config_message: text(
            "In an emulated monorepo this may fetch Git LFS objects from the wrong remote.",
        ),
    });
    r.push(LfsFilterConfig {
        subcommand: text("filter-process"),
        git_config_key: text("filter.lfs.process"),
        bad_config_message: text(
            "Git's long-running filter process can take precedence over filter.lfs.smudge,so this may bypass Git Toprepo aware Git LFS handling.",
        ),
    });
    assert(r@.map_values(|f: LfsFilterConfig| lfs_filter_view(f)) =~= spec_lfs_filters());
    r
}

/// The value of a filter that goes through git-toprepo.
pub fn lfs_filter_value(subcommand: &str) -> (r: String)
    ensures
        r@ == "git toprepo lfs "@ + subcommand@,
{
    let mut v = chars_of("git toprepo lfs ");
    push_all(&mut v, &chars_of(subcommand));
    string_of(&v)
}

/// The report of a filter value that bypasses git-toprepo.
pub open spec fn bypass_text(key: Seq<char>, value: Seq<char>, message: Seq<char>) -> Seq<char> {
    key + " is configured as '"@ + value + "', which bypasses Git Toprepo. "@ + message
}

/// The reports of the filter values that bypass git-toprepo.
pub fn bypass_messages(filter: &LfsFilterConfig, values: &Vec<String>) -> (r: Vec<String>)
    ensures
        r@.len() == values@.len(),
        forall|i: int|
            0 <= i < values@.len() ==> #[trigger] r@[i]@ == bypass_text(
                filter.git_config_key@,
                values@[i]@,
                filter.bad_config_message@,
            ),
{
    let mut r: Vec<String> = Vec::new();
    let mut i: usize = 0;
    while i < values.len()
        invariant
            i <= values@.len(),
            r@.len() == i,
            forall|k: int|
                0 <= k < i ==> #[trigger] r@[k]@ == bypass_text(
                    filter.git_config_key@,
                    values@[k]@,
                    filter.bad_config_message@,
                ),
        decreases values.len() - i,
    {
        let mut m = chars_of(filter.git_config_key.as_str());
        push_all(&mut m, &chars_of(" is configured as '"));
        push_all(&mut m, &chars_of(values[i].as_str()));
        push_all(&mut m, &chars_of("', which bypasses Git Toprepo. "));
        push_all(&mut m, &chars_of(filter.bad_config_message.as_str()));
        r.push(string_of(&m));
        i = i + 1;
    }
    r
}

/// What to do about the configuration of a Git LFS filter.
#[derive(Debug, PartialEq, Eq)]
pub enum LfsFilterAction {
    /// Set the filter to go through git-toprepo.
    Install,
    /// Unset the filter.
    Remove,
    /// The configuration is as wanted.
    Verified,
    /// Leave the configuration and report each of these problems.
    Report(Vec<String>),
}

/// Decides what to do about a filter: with Git LFS a missing filter is
/// installed and one through git-toprepo kept; without it a missing filter
/// is kept and one through git-toprepo removed. A bypassing configuration
/// is replaced when `force` is given, else reported.
pub fn lfs_filter_action(
    with_git_lfs: bool,
    filter: &LfsFilterConfig,
    state: LfsFilterConfigState,
    force: bool,
) -> (r: LfsFilterAction)
    ensures
        match state {
            LfsFilterConfigState::Missing => r == if with_git_lfs {
                LfsFilterAction::Install
            } else {
                LfsFilterAction::Verified
            },
            LfsFilterConfigState::ThroughGitToprepo => r == if with_git_lfs {
                LfsFilterAction::Verified
            } else {
                LfsFilterAction::Remove
            },
            LfsFilterConfigState::Bad(values) => if force {
                r == if with_git_lfs {
                    LfsFilterAction::Install
                } else {
                    LfsFilterAction::Remove
                }
            } else {
                r matches LfsFilterAction::Report(ms) && ms@.len() == values@.len() && forall|i: int|
                    0 <= i < values@.len() ==> #[trigger] ms@[i]@ == bypass_text(
                        filter.git_config_key@,
                        values@[i]@,
                        filter.bad_config_message@,
                    )
            },
        },
{
    match state {
        LfsFilterConfigState::Missing => if with_git_lfs {
            LfsFilterAction::Install
        } else {
            LfsFilterAction::Verified
        },
        LfsFilterConfigState::ThroughGitToprepo => if with_git_lfs {
            LfsFilterAction::Verified
        } else {
            LfsFilterAction::Remove
        },
        LfsFilterConfigState::Bad(values) => if force {
            if with_git_lfs {
                LfsFilterAction::Install
            } else {
                LfsFilterAction::Remove
            }
        } else {
            LfsFilterAction::Report(bypass_messages(filter, &values))
        },
    }
}

} // verus!
