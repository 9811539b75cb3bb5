//! Combination of submodule commit messages into one mono commit message, and
//! the reverse split of a mono commit message into one message per submodule.
//!
//! Each combined message carries footers `Git-Toprepo-Ref: PATH STATUS` that
//! identify where it came from. When splitting, the footer paragraph after the
//! last `Git-Toprepo-Ref` line applies to all the messages of that paragraph,
//! and a `Topic:` footer line is extracted as the topic of the push.
use crate::git::GitPath;
use crate::order::SortKeyView;
use crate::order::sort_by_key;
use crate::order::group_by_text;
use crate::order::bytes_le;
use crate::text::utf8_lossy;
use crate::text::from_utf8_lossy;
use crate::order::SortKey;
use crate::order::keyed_view;
use crate::order::texted_view;
use crate::order::groups_view;
use crate::order::group_consecutive;
use crate::text::char_is_ws;
use crate::text::chars_eq;
use crate::text::chars_of;
use crate::text::find_char_from;
use crate::text::has_prefix;
use crate::text::lines_of;
use crate::text::trim;
use crate::text::trim_chars;
use crate::text::lines_chars;
use crate::text::vv;
use crate::text::split_paragraphs;
use crate::text::split_paragraphs_chars;
use crate::text::trim_end;
use crate::text::trim_end_chars;
use crate::text::is_ws;
use crate::text::push_all;
use crate::text::starts_with;
use crate::text::string_of;
use crate::text::sub_chars;
use crate::text::trim_start;
use crate::text::trim_start_chars;
use vstd::prelude::*;
use vstd::utf8::decode_utf8;
use vstd::utf8::encode_utf8;
use vstd::utf8::valid_utf8;

verus! {

/// The footer key that identifies the origin of each combined message.
pub open spec fn footer_prefix() -> Seq<char> {
    "Git-Toprepo-Ref:"@
}

/// Shown in footers in place of the empty path of the top repository.
pub open spec fn top_display_path() -> Seq<char> {
    "<top>"@
}

/// The footer key of a topic.
pub open spec fn topic_prefix() -> Seq<char> {
    "Topic:"@
}

/// What a [`PushMessage`] holds.
pub struct PushMessageView {
    pub subject_and_body: Seq<char>,
    pub footer: Seq<char>,
    pub topic: Option<Seq<char>>,
}

/// A commit message for one repository to push to.
#[derive(Debug, Clone, PartialEq, Eq, Hash)]
pub struct PushMessage {
    /// The commit message for the commit to push to a remote.
    pub subject_and_body: String,
    /// Footer for the commit message.
    pub footer: String,
    /// Any potential topic for the commit to belong to.
    pub topic: Option<String>,
}

pub open spec fn opt_str_view(o: Option<String>) -> Option<Seq<char>> {
    match o {
        Some(s) => Some(s@),
        None => None,
    }
}

impl View for PushMessage {
    type V = PushMessageView;

    open spec fn view(&self) -> PushMessageView {
        PushMessageView {
            subject_and_body: self.subject_and_body@,
            footer: self.footer@,
            topic: opt_str_view(self.topic),
        }
    }
}

/// `s` without one trailing `\n`, if it has one.
pub open spec fn strip_one_newline(s: Seq<char>) -> Seq<char> {
    if s.len() > 0 && s.last() == '\n' {
        s.drop_last()
    } else {
        s
    }
}

/// Subject, body and footer concatenated, with exactly one empty line before
/// a non-empty footer.
pub open spec fn spec_full_message(m: PushMessageView) -> Seq<char> {
    if m.footer.len() == 0 {
        m.subject_and_body
    } else {
        strip_one_newline(strip_one_newline(m.subject_and_body)).push('\n').push('\n') + m.footer
    }
}

impl PushMessage {
    /// Concatenate subject, body and footer.
    pub fn full_message(&self) -> (r: String)
        ensures
            r@ == spec_full_message(self@),
    {
        let sab = chars_of(self.subject_and_body.as_str());
        if self.footer.as_str().is_empty() {
            return string_of(&sab);
        }
        let mut out = sab;
        if out.len() > 0 && out[out.len() - 1] == '\n' {
            out.pop();
        }
        if out.len() > 0 && out[out.len() - 1] == '\n' {
            out.pop();
        }
        out.push('\n');
        out.push('\n');
        let footer = chars_of(self.footer.as_str());
        push_all(&mut out, &footer);
        string_of(&out)
    }
}

/// A message is boring when Gerrit generated it for a plain submodule bump.
pub open spec fn spec_is_interesting_message(message: Seq<char>) -> bool {
    !has_prefix(message, "Update git submodules\n"@)
}

pub fn is_interesting_message(message: &str) -> (r: bool)
    ensures
        r == spec_is_interesting_message(message@),
{
    let m = chars_of(message);
    let p = chars_of("Update git submodules\n");
    !starts_with(&m, &p)
}

/// ASCII letters, digits and `-` may form a footer key.
pub open spec fn is_footer_key_char(c: char) -> bool {
    ('a' <= c <= 'z') || ('A' <= c <= 'Z') || ('0' <= c <= '9') || c == '-'
}

/// A footer line is `Key: value` where the key is a non-empty run of ASCII
/// letters, digits and `-` before the first `:`.
pub open spec fn spec_is_footer_line(line: Seq<char>) -> bool {
    exists|idx: int|
        0 < idx < line.len() && line[idx] == ':' && forall|j: int|
            0 <= j < idx ==> is_footer_key_char(#[trigger] line[j])
}

pub fn footer_key_char(c: char) -> (r: bool)
    ensures
        r == is_footer_key_char(c),
{
    ('a' <= c && c <= 'z') || ('A' <= c && c <= 'Z') || ('0' <= c && c <= '9') || c == '-'
}

/// A footer line is decided by the text before its first `:`.
pub proof fn lemma_footer_line_by_first_colon(line: Seq<char>, idx: int)
    requires
        0 <= idx < line.len(),
        line[idx] == ':',
        forall|j: int| 0 <= j < idx ==> line[j] != ':',
    ensures
        spec_is_footer_line(line) == (idx > 0 && forall|j: int|
            0 <= j < idx ==> is_footer_key_char(#[trigger] line[j])),
{
    if spec_is_footer_line(line) {
        let k = choose|k: int|
            0 < k < line.len() && line[k] == ':' && forall|j: int|
                0 <= j < k ==> is_footer_key_char(#[trigger] line[j]);
        if k > idx {
            assert(is_footer_key_char(line[idx]));
        }
        if k < idx {
            assert(line[k] != ':');
        }
    }
}

/// Check if the line is a proper footer line.
pub fn is_footer_line(line: &[char]) -> (r: bool)
    ensures
        r == spec_is_footer_line(line@),
{
    match find_char_from(line, ':', 0) {
        None => false,
        Some(idx) => {
            proof {
                lemma_footer_line_by_first_colon(line@, idx as int);
            }
            if idx == 0 {
                return false;
            }
            let mut i: usize = 0;
            while i < idx
                invariant
                    i <= idx < line@.len(),
                    line@[idx as int] == ':',
                    forall|j: int| 0 <= j < idx ==> line@[j] != ':',
                    forall|j: int| 0 <= j < i ==> is_footer_key_char(#[trigger] line@[j]),
                decreases idx - i,
            {
                if !footer_key_char(line[i]) {
                    assert(!is_footer_key_char(line@[i as int]));
                    proof {
                        lemma_footer_line_by_first_colon(line@, idx as int);
                    }
                    return false;
                }
                i = i + 1;
            }
            true
        }
    }
}

/// Tests the line given as a string; see [`is_footer_line`].
pub fn is_footer_line_for_tests_only(line: &str) -> (r: bool)
    ensures
        r == spec_is_footer_line(line@),
{
    let chars = chars_of(line);
    is_footer_line(&chars)
}

/// Number of leading characters that are not white space.
pub open spec fn non_ws_prefix_len(s: Seq<char>) -> nat
    decreases s.len(),
{
    if s.len() > 0 && !is_ws(s[0]) {
        1 + non_ws_prefix_len(s.drop_first())
    } else {
        0
    }
}

pub proof fn lemma_non_ws_prefix_len(s: Seq<char>)
    ensures
        non_ws_prefix_len(s) <= s.len(),
        forall|i: int| 0 <= i < non_ws_prefix_len(s) ==> !is_ws(#[trigger] s[i]),
        non_ws_prefix_len(s) < s.len() ==> is_ws(s[non_ws_prefix_len(s) as int]),
    decreases s.len(),
{
    if s.len() > 0 && !is_ws(s[0]) {
        lemma_non_ws_prefix_len(s.drop_first());
        assert forall|i: int| 0 <= i < non_ws_prefix_len(s) implies !is_ws(#[trigger] s[i]) by {
            if i > 0 {
                assert(s[i] == s.drop_first()[i - 1]);
            }
        }
    }
}

pub proof fn lemma_non_ws_prefix_unique(s: Seq<char>, n: nat)
    requires
        n <= s.len(),
        forall|j: int| 0 <= j < n ==> !is_ws(#[trigger] s[j]),
        n == s.len() || is_ws(s[n as int]),
    ensures
        non_ws_prefix_len(s) == n,
    decreases s.len(),
{
    if n > 0 {
        assert(!is_ws(s[0]));
        assert forall|j: int| 0 <= j < n - 1 implies !is_ws(#[trigger] s.drop_first()[j]) by {
            assert(s.drop_first()[j] == s[j + 1]);
        }
        if n < s.len() {
            assert(s.drop_first()[n - 1] == s[n as int]);
        }
        lemma_non_ws_prefix_unique(s.drop_first(), (n - 1) as nat);
    } else if s.len() > 0 {
        assert(is_ws(s[0]));
    }
}

/// The first word after `Git-Toprepo-Ref:`, with `<top>` meaning the empty
/// path. `Err` when the word is missing, `Ok(None)` for other lines.
pub open spec fn spec_footer_path(line: Seq<char>) -> Result<Option<Seq<char>>, ()> {
    if !has_prefix(line, footer_prefix()) {
        Ok(None)
    } else {
        let value = trim_start(line.skip(footer_prefix().len() as int));
        let path = value.take(non_ws_prefix_len(value) as int);
        if path.len() == 0 {
            Err(())
        } else if path == top_display_path() {
            Ok(Some(Seq::empty()))
        } else {
            Ok(Some(path))
        }
    }
}

/// The path bytes of a `Git-Toprepo-Ref` footer, UTF-8 encoded.
pub open spec fn spec_footer_git_path(line: Seq<char>) -> Result<Option<Seq<u8>>, ()> {
    match spec_footer_path(line) {
        Err(()) => Err(()),
        Ok(None) => Ok(None),
        Ok(Some(p)) => Ok(Some(encode_utf8(p))),
    }
}

/// The UTF-8 encoding of some characters as a path.
pub fn git_path_of_chars(v: &[char]) -> (r: GitPath)
    ensures
        r@ == encode_utf8(v@),
{
    let s = string_of(v);
    let b = s.as_str().as_bytes();
    GitPath::new(vstd::slice::slice_to_vec(b))
}

/// A `Git-Toprepo-Ref:` footer without a path.
#[derive(Debug, Clone, PartialEq, Eq)]
pub struct EmptyFooterPath {
    /// The offending footer line.
    pub line: String,
}

/// Extracts the submodule path from a TopRepo footer line, if any.
pub fn get_toprepo_footer_subrepo_path(line: &[char]) -> (r: Result<Option<GitPath>, EmptyFooterPath>)
    ensures
        match r {
            Ok(Some(p)) => spec_footer_git_path(line@) == Ok::<_, ()>(Some(p@)),
            Ok(None) => spec_footer_git_path(line@) == Ok::<_, ()>(None::<Seq<u8>>),
            Err(e) => spec_footer_git_path(line@) is Err && e.line@ == line@,
        },
{
    let prefix = chars_of("Git-Toprepo-Ref:");
    if !starts_with(line, &prefix) {
        return Ok(None);
    }
    let rest = sub_chars(line, prefix.len(), line.len());
    let value = trim_start_chars(&rest);
    let mut n: usize = 0;
    while n < value.len() && !char_is_ws(value[n])
        invariant
            n <= value@.len(),
            forall|j: int| 0 <= j < n ==> !is_ws(#[trigger] value@[j]),
        decreases value.len() - n,
    {
        n = n + 1;
    }
    proof {
        lemma_non_ws_prefix_unique(value@, n as nat);
        assert(rest@ == line@.skip(footer_prefix().len() as int));
    }
    let path = sub_chars(&value, 0, n);
    assert(path@ == value@.take(n as int));
    if path.len() == 0 {
        return Err(EmptyFooterPath { line: string_of(line) });
    }
    let top = chars_of("<top>");
    if chars_eq(&path, &top) {
        proof {
            assert(encode_utf8(Seq::<char>::empty()) =~= Seq::<u8>::empty());
        }
        Ok(Some(GitPath::new(Vec::new())))
    } else {
        Ok(Some(git_path_of_chars(&path)))
    }
}

/// Tests the line given as a string; see [`get_toprepo_footer_subrepo_path`].
pub fn get_toprepo_footer_subrepo_path_for_tests_only(line: &str) -> (r: Result<Option<GitPath>, EmptyFooterPath>)
    ensures
        match r {
            Ok(Some(p)) => spec_footer_git_path(line@) == Ok::<_, ()>(Some(p@)),
            Ok(None) => spec_footer_git_path(line@) == Ok::<_, ()>(None::<Seq<u8>>),
            Err(e) => spec_footer_git_path(line@) is Err && e.line@ == line@,
        },
{
    let chars = chars_of(line);
    get_toprepo_footer_subrepo_path(&chars)
}

} // verus!

verus! {

/// Footer data collected for one submodule path while splitting.
pub struct FooterData {
    pub topic: Option<Seq<char>>,
    pub footer: Seq<char>,
}

pub open spec fn no_footer_data() -> FooterData {
    FooterData { topic: None, footer: Seq::empty() }
}

/// Where the splitter is inside the current commit message.
pub enum SplitPhase {
    /// Empty lines before the subject.
    BeforeSubject,
    /// The subject paragraph.
    Subject(Seq<char>),
    /// The body of the commit message.
    Body(Seq<char>),
    /// A paragraph that so far looks like a footer without any
    /// `Git-Toprepo-Ref` line.
    MaybeFooter { subject_and_body: Seq<char>, full_message: Seq<char>, pending: FooterData },
    /// Empty lines after such a paragraph: its footer data applies to the
    /// message before it if the message ends here; a further paragraph
    /// makes it part of the body.
    ClosedFooter { subject_and_body: Seq<char>, full_message: Seq<char>, pending: FooterData },
    /// A footer paragraph with at least one `Git-Toprepo-Ref` line.
    ToprepoFooter {
        subject_and_body: Seq<char>,
        full_message: Seq<char>,
        pending: FooterData,
        paths: Seq<(Seq<u8>, FooterData)>,
    },
}

/// Why a commit message cannot be split.
pub enum SplitFailure {
    MultipleTopics { new: Seq<char>, old: Seq<char> },
    EmptyFooterPath { line: Seq<char> },
    MultipleMessages { path: Seq<u8> },
}

/// The splitter state together with the messages found so far.
pub struct SplitAcc {
    pub phase: SplitPhase,
    pub messages: Seq<(Seq<u8>, PushMessageView)>,
}

/// `s` with trailing empty lines removed, keeping one final `\n`.
pub open spec fn trim_double_newline(s: Seq<char>) -> Seq<char>
    decreases s.len(),
{
    if s.len() >= 2 && s[s.len() - 1] == '\n' && s[s.len() - 2] == '\n' {
        trim_double_newline(s.drop_last())
    } else {
        s
    }
}

/// The footer data of one path followed by the footer lines that apply to
/// all paths of the paragraph.
pub open spec fn merge_footer_data(a: FooterData, b: FooterData) -> Result<FooterData, SplitFailure> {
    if a.topic is Some && b.topic is Some {
        Err(SplitFailure::MultipleTopics { new: b.topic->0, old: a.topic->0 })
    } else {
        Ok(
            FooterData {
                topic: if a.topic is Some {
                    a.topic
                } else {
                    b.topic
                },
                footer: a.footer + b.footer,
            },
        )
    }
}

pub open spec fn has_path(messages: Seq<(Seq<u8>, PushMessageView)>, path: Seq<u8>) -> bool {
    exists|i: int| 0 <= i < messages.len() && (#[trigger] messages[i]).0 == path
}

/// Records one message per path of a finished `Git-Toprepo-Ref` paragraph.
pub open spec fn insert_paths(
    messages: Seq<(Seq<u8>, PushMessageView)>,
    paths: Seq<(Seq<u8>, FooterData)>,
    pending: FooterData,
    subject_and_body: Seq<char>,
) -> Result<Seq<(Seq<u8>, PushMessageView)>, SplitFailure>
    decreases paths.len(),
{
    if paths.len() == 0 {
        Ok(messages)
    } else {
        match insert_paths(messages, paths.drop_last(), pending, subject_and_body) {
            Err(e) => Err(e),
            Ok(m) => {
                let path = paths.last().0;
                match merge_footer_data(paths.last().1, pending) {
                    Err(e) => Err(e),
                    Ok(d) => if has_path(m, path) {
                        Err(SplitFailure::MultipleMessages { path })
                    } else {
                        Ok(
                            m.push(
                                (
                                    path,
                                    PushMessageView {
                                        subject_and_body,
                                        footer: d.footer,
                                        topic: d.topic,
                                    },
                                ),
                            ),
                        )
                    },
                }
            },
        }
    }
}

/// A non-empty line inside a paragraph that may be a footer.
pub open spec fn footer_line_step(
    subject_and_body: Seq<char>,
    full_message: Seq<char>,
    pending: FooterData,
    paths: Option<Seq<(Seq<u8>, FooterData)>>,
    line: Seq<char>,
) -> Result<SplitPhase, SplitFailure> {
    let full = full_message + line.push('\n');
    let same = |p: FooterData|
        match paths {
            None => SplitPhase::MaybeFooter { subject_and_body, full_message: full, pending: p },
            Some(ps) => SplitPhase::ToprepoFooter {
                subject_and_body,
                full_message: full,
                pending: p,
                paths: ps,
            },
        };
    if has_prefix(line, topic_prefix()) {
        let topic = trim(line.skip(topic_prefix().len() as int));
        match pending.topic {
            Some(old) => Err(SplitFailure::MultipleTopics { new: topic, old }),
            None => Ok(same(FooterData { topic: Some(topic), footer: pending.footer })),
        }
    } else {
        match spec_footer_path(line) {
            Err(()) => Err(SplitFailure::EmptyFooterPath { line }),
            Ok(Some(p)) => {
                let path = encode_utf8(p);
                match paths {
                    None => Ok(
                        SplitPhase::ToprepoFooter {
                            subject_and_body,
                            full_message: full,
                            pending: no_footer_data(),
                            paths: seq![(path, pending)],
                        },
                    ),
                    Some(ps) => {
                        let data = if pending.topic is None && pending.footer.len() == 0 {
                            ps.last().1
                        } else {
                            pending
                        };
                        Ok(
                            SplitPhase::ToprepoFooter {
                                subject_and_body,
                                full_message: full,
                                pending: no_footer_data(),
                                paths: ps.push((path, data)),
                            },
                        )
                    },
                }
            },
            Ok(None) => if spec_is_footer_line(line) {
                Ok(same(FooterData { topic: pending.topic, footer: pending.footer + line.push('\n') }))
            } else {
                Ok(SplitPhase::Body(full))
            },
        }
    }
}

/// One line of the message, without its line ending.
pub open spec fn split_step(acc: SplitAcc, line: Seq<char>) -> Result<SplitAcc, SplitFailure> {
    let messages = acc.messages;
    if line.len() == 0 {
        match acc.phase {
            SplitPhase::BeforeSubject => Ok(acc),
            SplitPhase::Subject(m) => Ok(
                SplitAcc {
                    phase: SplitPhase::MaybeFooter {
                        subject_and_body: m.push('\n'),
                        full_message: m.push('\n'),
                        pending: no_footer_data(),
                    },
                    messages,
                },
            ),
            SplitPhase::Body(m) => Ok(
                SplitAcc {
                    phase: SplitPhase::MaybeFooter {
                        subject_and_body: m.push('\n'),
                        full_message: m.push('\n'),
                        pending: no_footer_data(),
                    },
                    messages,
                },
            ),
            SplitPhase::MaybeFooter { subject_and_body, full_message, pending } => Ok(
                SplitAcc {
                    phase: SplitPhase::ClosedFooter {
                        subject_and_body,
                        full_message: full_message.push('\n'),
                        pending,
                    },
                    messages,
                },
            ),
            SplitPhase::ClosedFooter { subject_and_body, full_message, pending } => Ok(
                SplitAcc {
                    phase: SplitPhase::ClosedFooter {
                        subject_and_body,
                        full_message: full_message.push('\n'),
                        pending,
                    },
                    messages,
                },
            ),
            SplitPhase::ToprepoFooter { subject_and_body, pending, paths, .. } => match insert_paths(
                messages,
                paths,
                pending,
                trim_double_newline(subject_and_body),
            ) {
                Err(e) => Err(e),
                Ok(m2) => Ok(SplitAcc { phase: SplitPhase::BeforeSubject, messages: m2 }),
            },
        }
    } else {
        match acc.phase {
            SplitPhase::BeforeSubject => Ok(
                SplitAcc { phase: SplitPhase::Subject(line.push('\n')), messages },
            ),
            SplitPhase::Subject(m) => Ok(
                SplitAcc { phase: SplitPhase::Subject(m + line.push('\n')), messages },
            ),
            SplitPhase::Body(m) => Ok(
                SplitAcc { phase: SplitPhase::Body(m + line.push('\n')), messages },
            ),
            SplitPhase::MaybeFooter { subject_and_body, full_message, pending } => match footer_line_step(
                subject_and_body,
                full_message,
                pending,
                None,
                line,
            ) {
                Err(e) => Err(e),
                Ok(phase) => Ok(SplitAcc { phase, messages }),
            },
            SplitPhase::ClosedFooter { full_message, .. } => match footer_line_step(
                full_message,
                full_message,
                no_footer_data(),
                None,
                line,
            ) {
                Err(e) => Err(e),
                Ok(phase) => Ok(SplitAcc { phase, messages }),
            },
            SplitPhase::ToprepoFooter { subject_and_body, full_message, pending, paths } => match footer_line_step(
                subject_and_body,
                full_message,
                pending,
                Some(paths),
                line,
            ) {
                Err(e) => Err(e),
                Ok(phase) => Ok(SplitAcc { phase, messages }),
            },
        }
    }
}

/// The splitter run over all lines.
pub open spec fn split_lines(lines: Seq<Seq<char>>) -> Result<SplitAcc, SplitFailure>
    decreases lines.len(),
{
    if lines.len() == 0 {
        Ok(SplitAcc { phase: SplitPhase::BeforeSubject, messages: Seq::empty() })
    } else {
        match split_lines(lines.drop_last()) {
            Err(e) => Err(e),
            Ok(acc) => split_step(acc, lines.last()),
        }
    }
}

/// The message left after the last `Git-Toprepo-Ref` paragraph.
pub open spec fn residual_message(phase: SplitPhase) -> Option<PushMessageView> {
    match phase {
        SplitPhase::BeforeSubject => None,
        SplitPhase::Subject(m) => Some(
            PushMessageView {
                subject_and_body: trim_double_newline(m),
                footer: Seq::empty(),
                topic: None,
            },
        ),
        SplitPhase::Body(m) => Some(
            PushMessageView {
                subject_and_body: trim_double_newline(m),
                footer: Seq::empty(),
                topic: None,
            },
        ),
        SplitPhase::MaybeFooter { subject_and_body, pending, .. } => Some(
            PushMessageView {
                subject_and_body: trim_double_newline(subject_and_body),
                footer: pending.footer,
                topic: pending.topic,
            },
        ),
        SplitPhase::ClosedFooter { subject_and_body, pending, .. } => Some(
            PushMessageView {
                subject_and_body: trim_double_newline(subject_and_body),
                footer: pending.footer,
                topic: pending.topic,
            },
        ),
        SplitPhase::ToprepoFooter { .. } => None,
    }
}

/// Without `Git-Toprepo-Ref` lines, the splitter collects no per-path
/// message, never enters a footer that names paths, and fails only on a
/// second `Topic:` footer.
proof fn lemma_split_lines_without_paths(lines: Seq<Seq<char>>)
    requires
        forall|i: int| 0 <= i < lines.len() ==> !has_prefix(#[trigger] lines[i], footer_prefix()),
    ensures
        split_lines(lines) matches Ok(acc) ==> acc.messages.len() == 0 && !(acc.phase is ToprepoFooter),
        split_lines(lines) matches Err(e) ==> e is MultipleTopics,
    decreases lines.len(),
{
    if lines.len() > 0 {
        let init = lines.drop_last();
        assert forall|i: int| 0 <= i < init.len() implies !has_prefix(#[trigger] init[i], footer_prefix()) by {
            assert(init[i] == lines[i]);
        };
        lemma_split_lines_without_paths(init);
        assert(!has_prefix(lines[lines.len() - 1], footer_prefix()));
        assert(spec_footer_path(lines.last()) == Ok::<Option<Seq<char>>, ()>(None));
    }
}

/// A message without `Git-Toprepo-Ref` lines splits into no per-path
/// message; splitting it fails only on two `Topic:` footers for one message.
pub proof fn law_split_without_toprepo_footers(full_message: Seq<char>)
    requires
        forall|i: int|
            0 <= i < lines_of(full_message.push('\n').push('\n')).len() ==> !has_prefix(
                #[trigger] lines_of(full_message.push('\n').push('\n'))[i],
                footer_prefix(),
            ),
    ensures
        spec_split_commit_message(full_message) matches Ok((messages, _)) ==> messages.len() == 0,
        spec_split_commit_message(full_message) matches Err(e) ==> e is MultipleTopics,
{
    lemma_split_lines_without_paths(lines_of(full_message.push('\n').push('\n')));
}

/// The split of a full mono commit message: one message per path named by a
/// `Git-Toprepo-Ref` footer, in the order of the footers, and the residual
/// message after the last such footer paragraph.
pub open spec fn spec_split_commit_message(full_message: Seq<char>) -> Result<
    (Seq<(Seq<u8>, PushMessageView)>, Option<PushMessageView>),
    SplitFailure,
> {
    match split_lines(lines_of(full_message.push('\n').push('\n'))) {
        Err(e) => Err(e),
        Ok(acc) => Ok((acc.messages, residual_message(acc.phase))),
    }
}

} // verus!

verus! {

/// Footer data of one path, as collected while splitting.
pub struct PerPathData {
    pub topic: Option<Vec<char>>,
    pub footer: Vec<char>,
}

pub open spec fn opt_chars_view(o: Option<Vec<char>>) -> Option<Seq<char>> {
    match o {
        Some(v) => Some(v@),
        None => None,
    }
}

impl View for PerPathData {
    type V = FooterData;

    open spec fn view(&self) -> FooterData {
        FooterData { topic: opt_chars_view(self.topic), footer: self.footer@ }
    }
}

pub open spec fn paths_view(p: Seq<(GitPath, PerPathData)>) -> Seq<(Seq<u8>, FooterData)> {
    p.map_values(|x: (GitPath, PerPathData)| (x.0@, x.1@))
}

pub open spec fn messages_view(m: Seq<(GitPath, PushMessage)>) -> Seq<(Seq<u8>, PushMessageView)> {
    m.map_values(|x: (GitPath, PushMessage)| (x.0@, x.1@))
}

/// The splitter state.
pub enum SplitState {
    BeforeSubject,
    Subject { message: Vec<char> },
    Body { message: Vec<char> },
    MaybeFooter { subject_and_body: Vec<char>, full_message: Vec<char>, pending: PerPathData },
    ClosedFooter { subject_and_body: Vec<char>, full_message: Vec<char>, pending: PerPathData },
    ToprepoFooter {
        subject_and_body: Vec<char>,
        full_message: Vec<char>,
        pending: PerPathData,
        paths: Vec<(GitPath, PerPathData)>,
    },
}

impl View for SplitState {
    type V = SplitPhase;

    open spec fn view(&self) -> SplitPhase {
        match self {
            SplitState::BeforeSubject => SplitPhase::BeforeSubject,
            SplitState::Subject { message } => SplitPhase::Subject(message@),
            SplitState::Body { message } => SplitPhase::Body(message@),
            SplitState::MaybeFooter { subject_and_body, full_message, pending } =>
                SplitPhase::MaybeFooter {
                    subject_and_body: subject_and_body@,
                    full_message: full_message@,
                    pending: pending@,
                },
            SplitState::ClosedFooter { subject_and_body, full_message, pending } =>
                SplitPhase::ClosedFooter {
                    subject_and_body: subject_and_body@,
                    full_message: full_message@,
                    pending: pending@,
                },
            SplitState::ToprepoFooter { subject_and_body, full_message, pending, paths } =>
                SplitPhase::ToprepoFooter {
                    subject_and_body: subject_and_body@,
                    full_message: full_message@,
                    pending: pending@,
                    paths: paths_view(paths@),
                },
        }
    }
}

impl SplitState {
    /// A `Git-Toprepo-Ref` paragraph always holds at least one path.
    pub open spec fn wf(&self) -> bool {
        match self {
            SplitState::ToprepoFooter { paths, .. } => paths@.len() > 0,
            _ => true,
        }
    }
}

/// Why a commit message cannot be split into per-repository messages.
#[derive(Debug, Clone, PartialEq, Eq)]
pub enum SplitError {
    /// Two `Topic:` footers apply to the same message.
    MultipleTopics { new: String, old: String },
    /// A `Git-Toprepo-Ref:` footer without a path.
    EmptyFooterPath { line: String },
    /// Two paragraphs name the same path.
    MultipleMessages { path: GitPath },
}

impl View for SplitError {
    type V = SplitFailure;

    open spec fn view(&self) -> SplitFailure {
        match self {
            SplitError::MultipleTopics { new, old } => SplitFailure::MultipleTopics {
                new: new@,
                old: old@,
            },
            SplitError::EmptyFooterPath { line } => SplitFailure::EmptyFooterPath { line: line@ },
            SplitError::MultipleMessages { path } => SplitFailure::MultipleMessages { path: path@ },
        }
    }
}

/// How `{:?}` shows a string: in double quotes, with quotes, backslashes and
/// control characters escaped.
pub uninterp spec fn debug_quoted(s: Seq<char>) -> Seq<char>;

/// The string as `{:?}` shows it (std's `Debug` for `str`).
#[verifier::external_body]
fn debug_quote(s: &str) -> (r: String)
    ensures
        r@ == debug_quoted(s@),
{
    format!("{s:?}")
}

/// The message of a failed split.
pub open spec fn split_error_text(e: SplitFailure) -> Seq<char> {
    match e {
        SplitFailure::MultipleTopics { new, old } => "Multiple topic footers: "@ + new + " "@ + old,
        SplitFailure::EmptyFooterPath { line } => "Empty submodule path in TopRepo footer "@
            + debug_quoted(line),
        SplitFailure::MultipleMessages { path } => "Multiple commit messages for submodule "@
            + utf8_lossy(path),
    }
}

impl EmptyFooterPath {
    /// The error's message, with the line quoted.
    pub fn to_text(&self) -> (r: String)
        ensures
            r@ == split_error_text(SplitFailure::EmptyFooterPath { line: self.line@ }),
    {
        let mut t = chars_of("Empty submodule path in TopRepo footer ");
        push_all(&mut t, &chars_of(debug_quote(self.line.as_str()).as_str()));
        string_of(&t)
    }
}

impl SplitError {
    /// The error's message.
    pub fn to_text(&self) -> (r: String)
        ensures
            r@ == split_error_text(self@),
    {
        match self {
            SplitError::MultipleTopics { new, old } => {
                let mut t = chars_of("Multiple topic footers: ");
                push_all(&mut t, &chars_of(new.as_str()));
                push_all(&mut t, &chars_of(" "));
                push_all(&mut t, &chars_of(old.as_str()));
                string_of(&t)
            },
            SplitError::EmptyFooterPath { line } => {
                let mut t = chars_of("Empty submodule path in TopRepo footer ");
                push_all(&mut t, &chars_of(debug_quote(line.as_str()).as_str()));
                string_of(&t)
            },
            SplitError::MultipleMessages { path } => {
                let mut t = chars_of("Multiple commit messages for submodule ");
                push_all(&mut t, &chars_of(from_utf8_lossy(path.as_bytes()).as_str()));
                string_of(&t)
            },
        }
    }
}

fn copy_chars(v: &Vec<char>) -> (r: Vec<char>)
    ensures
        r@ == v@,
{
    let r = sub_chars(v.as_slice(), 0, v.len());
    assert(v@.subrange(0, v@.len() as int) =~= v@);
    r
}

fn copy_opt_chars(v: &Option<Vec<char>>) -> (r: Option<Vec<char>>)
    ensures
        opt_chars_view(r) == opt_chars_view(*v),
{
    match v {
        Some(x) => Some(copy_chars(x)),
        None => None,
    }
}

fn copy_data(d: &PerPathData) -> (r: PerPathData)
    ensures
        r@ == d@,
{
    PerPathData { topic: copy_opt_chars(&d.topic), footer: copy_chars(&d.footer) }
}

fn empty_data() -> (r: PerPathData)
    ensures
        r@ == no_footer_data(),
{
    PerPathData { topic: None, footer: Vec::new() }
}

fn merge_data(a: &PerPathData, b: &PerPathData) -> (r: Result<PerPathData, SplitError>)
    ensures
        match r {
            Ok(d) => merge_footer_data(a@, b@) == Ok::<FooterData, SplitFailure>(d@),
            Err(e) => merge_footer_data(a@, b@) == Err::<FooterData, SplitFailure>(e@),
        },
{
    match (&a.topic, &b.topic) {
        (Some(old), Some(new)) => {
            return Err(
                SplitError::MultipleTopics {
                    new: string_of(new.as_slice()),
                    old: string_of(old.as_slice()),
                },
            );
        },
        _ => {},
    }
    let topic = match &a.topic {
        Some(t) => Some(copy_chars(t)),
        None => copy_opt_chars(&b.topic),
    };
    let mut footer = copy_chars(&a.footer);
    push_all(&mut footer, b.footer.as_slice());
    Ok(PerPathData { topic, footer })
}

fn trim_double_newline_chars(v: Vec<char>) -> (r: Vec<char>)
    ensures
        r@ == trim_double_newline(v@),
    decreases v@.len(),
{
    let mut v = v;
    if v.len() >= 2 && v[v.len() - 1] == '\n' && v[v.len() - 2] == '\n' {
        v.pop();
        trim_double_newline_chars(v)
    } else {
        v
    }
}

fn contains_path(m: &Vec<(GitPath, PushMessage)>, p: &GitPath) -> (r: bool)
    ensures
        r == has_path(messages_view(m@), p@),
{
    let mut i: usize = 0;
    while i < m.len()
        invariant
            i <= m@.len(),
            forall|j: int| 0 <= j < i ==> m@[j].0@ != p@,
        decreases m.len() - i,
    {
        if m[i].0.same(p) {
            assert(messages_view(m@)[i as int].0 == p@);
            return true;
        }
        i = i + 1;
    }
    assert forall|j: int| 0 <= j < messages_view(m@).len() implies (#[trigger] messages_view(
        m@,
    )[j]).0 != p@ by {
        assert(messages_view(m@)[j].0 == m@[j].0@);
    }
    false
}

fn push_message_of(sab: &Vec<char>, d: &PerPathData) -> (r: PushMessage)
    ensures
        r@ == (PushMessageView { subject_and_body: sab@, footer: d.footer@, topic: d@.topic }),
{
    let topic = match &d.topic {
        Some(t) => Some(string_of(t.as_slice())),
        None => None,
    };
    PushMessage {
        subject_and_body: string_of(sab.as_slice()),
        footer: string_of(d.footer.as_slice()),
        topic,
    }
}

fn insert_all(
    messages: &mut Vec<(GitPath, PushMessage)>,
    paths: &Vec<(GitPath, PerPathData)>,
    pending: &PerPathData,
    sab: &Vec<char>,
) -> (r: Result<(), SplitError>)
    ensures
        match r {
            Ok(()) => insert_paths(messages_view(old(messages)@), paths_view(paths@), pending@, sab@)
                == Ok::<_, SplitFailure>(messages_view(final(messages)@)),
            Err(e) => insert_paths(messages_view(old(messages)@), paths_view(paths@), pending@, sab@)
                == Err::<Seq<(Seq<u8>, PushMessageView)>, _>(e@),
        },
{
    let ghost m0 = messages_view(messages@);
    let mut i: usize = 0;
    while i < paths.len()
        invariant
            i <= paths@.len(),
            m0 == messages_view(old(messages)@),
            insert_paths(m0, paths_view(paths@).take(i as int), pending@, sab@) == Ok::<
                _,
                SplitFailure,
            >(messages_view(messages@)),
        decreases paths.len() - i,
    {
        proof {
            assert(paths_view(paths@).take(i + 1).drop_last() =~= paths_view(paths@).take(
                i as int,
            ));
            assert(paths_view(paths@).take(i + 1).last() == (paths@[i as int].0@, paths@[i as int].1@));
        }
        let merged = merge_data(&paths[i].1, pending);
        match merged {
            Err(e) => {
                proof {
                    let pv = paths_view(paths@).take(i + 1);
                    assert(insert_paths(m0, pv.drop_last(), pending@, sab@) == Ok::<
                        _,
                        SplitFailure,
                    >(messages_view(messages@)));
                    assert(merge_footer_data(pv.last().1, pending@) == Err::<FooterData, SplitFailure>(e@));
                    assert(insert_paths(m0, pv, pending@, sab@) == Err::<Seq<(Seq<u8>, PushMessageView)>, _>(e@));
                    lemma_insert_paths_err_prefix(
                        m0,
                        paths_view(paths@),
                        pending@,
                        sab@,
                        (i + 1) as int,
                    );
                }
                return Err(e);
            },
            Ok(d) => {
                if contains_path(messages, &paths[i].0) {
                    proof {
                        let pv = paths_view(paths@).take(i + 1);
                        assert(insert_paths(m0, pv.drop_last(), pending@, sab@) == Ok::<
                            _,
                            SplitFailure,
                        >(messages_view(messages@)));
                        assert(merge_footer_data(pv.last().1, pending@) == Ok::<FooterData, SplitFailure>(d@));
                        assert(pv.last().0 == paths@[i as int].0@);
                        assert(insert_paths(m0, pv, pending@, sab@) == Err::<Seq<(Seq<u8>, PushMessageView)>, _>(SplitFailure::MultipleMessages { path: paths@[i as int].0@ }));
                        lemma_insert_paths_err_prefix(
                            m0,
                            paths_view(paths@),
                            pending@,
                            sab@,
                            (i + 1) as int,
                        );
                    }
                    return Err(SplitError::MultipleMessages { path: paths[i].0.duplicate() });
                }
                let ghost before = messages_view(messages@);
                let msg = push_message_of(sab, &d);
                messages.push((paths[i].0.duplicate(), msg));
                proof {
                    assert(messages_view(messages@) =~= before.push((paths@[i as int].0@, msg@)));
                }
            },
        }
        i = i + 1;
    }
    assert(paths_view(paths@).take(paths@.len() as int) =~= paths_view(paths@));
    Ok(())
}

/// An error at some prefix of the paths stays the error of the whole run.
pub proof fn lemma_insert_paths_err_prefix(
    messages: Seq<(Seq<u8>, PushMessageView)>,
    paths: Seq<(Seq<u8>, FooterData)>,
    pending: FooterData,
    sab: Seq<char>,
    n: int,
)
    requires
        0 <= n <= paths.len(),
        insert_paths(messages, paths.take(n), pending, sab) is Err,
    ensures
        insert_paths(messages, paths, pending, sab) == insert_paths(
            messages,
            paths.take(n),
            pending,
            sab,
        ),
    decreases paths.len() - n,
{
    if n < paths.len() {
        assert(paths.take(n + 1).drop_last() =~= paths.take(n));
        lemma_insert_paths_err_prefix(messages, paths, pending, sab, n + 1);
    } else {
        assert(paths.take(n) =~= paths);
    }
}

} // verus!

verus! {

pub open spec fn opt_paths_view(p: Option<Vec<(GitPath, PerPathData)>>) -> Option<
    Seq<(Seq<u8>, FooterData)>,
> {
    match p {
        Some(v) => Some(paths_view(v@)),
        None => None,
    }
}

pub open spec fn opt_push_view(m: Option<PushMessage>) -> Option<PushMessageView> {
    match m {
        Some(x) => Some(x@),
        None => None,
    }
}

fn same_phase(
    sab: Vec<char>,
    full: Vec<char>,
    pending: PerPathData,
    paths: Option<Vec<(GitPath, PerPathData)>>,
) -> (r: SplitState)
    requires
        paths matches Some(ps) ==> ps@.len() > 0,
    ensures
        r.wf(),
        r@ == (match opt_paths_view(paths) {
            None => SplitPhase::MaybeFooter {
                subject_and_body: sab@,
                full_message: full@,
                pending: pending@,
            },
            Some(ps) => SplitPhase::ToprepoFooter {
                subject_and_body: sab@,
                full_message: full@,
                pending: pending@,
                paths: ps,
            },
        }),
{
    match paths {
        None => SplitState::MaybeFooter { subject_and_body: sab, full_message: full, pending },
        Some(ps) => SplitState::ToprepoFooter {
            subject_and_body: sab,
            full_message: full,
            pending,
            paths: ps,
        },
    }
}

fn footer_line(
    sab: Vec<char>,
    full: Vec<char>,
    pending: PerPathData,
    paths: Option<Vec<(GitPath, PerPathData)>>,
    line: &Vec<char>,
) -> (r: Result<SplitState, SplitError>)
    requires
        paths matches Some(ps) ==> ps@.len() > 0,
    ensures
        match r {
            Ok(st) => st.wf() && footer_line_step(
                sab@,
                full@,
                pending@,
                opt_paths_view(paths),
                line@,
            ) == Ok::<SplitPhase, SplitFailure>(st@),
            Err(e) => footer_line_step(sab@, full@, pending@, opt_paths_view(paths), line@)
                == Err::<SplitPhase, SplitFailure>(e@),
        },
{
    let ghost full0 = full@;
    let mut full = full;
    push_all(&mut full, line.as_slice());
    full.push('\n');
    assert(full@ == full0 + line@.push('\n'));
    let topic_prefix_chars = chars_of("Topic:");
    if starts_with(line.as_slice(), &topic_prefix_chars) {
        let rest = sub_chars(line.as_slice(), topic_prefix_chars.len(), line.len());
        assert(rest@ == line@.skip(topic_prefix().len() as int));
        let topic = trim_chars(&rest);
        match &pending.topic {
            Some(old) => {
                return Err(
                    SplitError::MultipleTopics {
                        new: string_of(topic.as_slice()),
                        old: string_of(old.as_slice()),
                    },
                );
            },
            None => {},
        }
        let p = PerPathData { topic: Some(topic), footer: pending.footer };
        return Ok(same_phase(sab, full, p, paths));
    }
    match get_toprepo_footer_subrepo_path(line.as_slice()) {
        Err(_) => Err(SplitError::EmptyFooterPath { line: string_of(line.as_slice()) }),
        Ok(Some(path)) => {
            match paths {
                None => {
                    let mut ps: Vec<(GitPath, PerPathData)> = Vec::new();
                    let ghost pv = pending@;
                    ps.push((path, pending));
                    assert(paths_view(ps@) =~= seq![(path@, pv)]);
                    Ok(
                        SplitState::ToprepoFooter {
                            subject_and_body: sab,
                            full_message: full,
                            pending: empty_data(),
                            paths: ps,
                        },
                    )
                },
                Some(ps0) => {
                    let mut ps = ps0;
                    let ghost old_pv = paths_view(ps@);
                    let data = if pending.topic.is_none() && pending.footer.len() == 0 {
                        copy_data(&ps[ps.len() - 1].1)
                    } else {
                        pending
                    };
                    let ghost dv = data@;
                    ps.push((path, data));
                    assert(paths_view(ps@) =~= old_pv.push((path@, dv)));
                    Ok(
                        SplitState::ToprepoFooter {
                            subject_and_body: sab,
                            full_message: full,
                            pending: empty_data(),
                            paths: ps,
                        },
                    )
                },
            }
        },
        Ok(None) => {
            if is_footer_line(line.as_slice()) {
                let mut f = pending.footer;
                push_all(&mut f, line.as_slice());
                f.push('\n');
                let p = PerPathData { topic: pending.topic, footer: f };
                Ok(same_phase(sab, full, p, paths))
            } else {
                Ok(SplitState::Body { message: full })
            }
        },
    }
}

fn split_one_line(
    state: SplitState,
    messages: &mut Vec<(GitPath, PushMessage)>,
    line: &Vec<char>,
) -> (r: Result<SplitState, SplitError>)
    requires
        state.wf(),
    ensures
        match r {
            Ok(st) => st.wf() && split_step(
                SplitAcc { phase: state@, messages: messages_view(old(messages)@) },
                line@,
            ) == Ok::<SplitAcc, SplitFailure>(
                SplitAcc { phase: st@, messages: messages_view(final(messages)@) },
            ),
            Err(e) => split_step(
                SplitAcc { phase: state@, messages: messages_view(old(messages)@) },
                line@,
            ) == Err::<SplitAcc, SplitFailure>(e@),
        },
{
    if line.len() == 0 {
        match state {
            SplitState::BeforeSubject => Ok(SplitState::BeforeSubject),
            SplitState::Subject { message } | SplitState::Body { message } => {
                let mut m = message;
                m.push('\n');
                let f = copy_chars(&m);
                Ok(
                    SplitState::MaybeFooter {
                        subject_and_body: m,
                        full_message: f,
                        pending: empty_data(),
                    },
                )
            },
            SplitState::MaybeFooter { subject_and_body, full_message, pending } => {
                let mut f = full_message;
                f.push('\n');
                Ok(SplitState::ClosedFooter { subject_and_body, full_message: f, pending })
            },
            SplitState::ClosedFooter { subject_and_body, full_message, pending } => {
                let mut f = full_message;
                f.push('\n');
                Ok(SplitState::ClosedFooter { subject_and_body, full_message: f, pending })
            },
            SplitState::ToprepoFooter { subject_and_body, full_message: _, pending, paths } => {
                let sab = trim_double_newline_chars(subject_and_body);
                match insert_all(messages, &paths, &pending, &sab) {
                    Err(e) => Err(e),
                    Ok(()) => Ok(SplitState::BeforeSubject),
                }
            },
        }
    } else {
        match state {
            SplitState::BeforeSubject => {
                let mut m = copy_chars(line);
                m.push('\n');
                Ok(SplitState::Subject { message: m })
            },
            SplitState::Subject { message } => {
                let mut m = message;
                push_all(&mut m, line.as_slice());
                m.push('\n');
                Ok(SplitState::Subject { message: m })
            },
            SplitState::Body { message } => {
                let mut m = message;
                push_all(&mut m, line.as_slice());
                m.push('\n');
                Ok(SplitState::Body { message: m })
            },
            SplitState::MaybeFooter { subject_and_body, full_message, pending } => {
                footer_line(subject_and_body, full_message, pending, None, line)
            },
            SplitState::ClosedFooter { subject_and_body: _, full_message, pending: _ } => {
                let s = copy_chars(&full_message);
                footer_line(s, full_message, empty_data(), None, line)
            },
            SplitState::ToprepoFooter { subject_and_body, full_message, pending, paths } => {
                footer_line(subject_and_body, full_message, pending, Some(paths), line)
            },
        }
    }
}

/// An error after some of the lines stays the error of the whole run.
pub proof fn lemma_split_lines_err_prefix(lines: Seq<Seq<char>>, n: int)
    requires
        0 <= n <= lines.len(),
        split_lines(lines.take(n)) is Err,
    ensures
        split_lines(lines) == split_lines(lines.take(n)),
    decreases lines.len() - n,
{
    if n < lines.len() {
        assert(lines.take(n + 1).drop_last() =~= lines.take(n));
        lemma_split_lines_err_prefix(lines, n + 1);
    } else {
        assert(lines.take(n) =~= lines);
    }
}

/// Split a commit message into multiple messages for different submodules
/// according to toprepo footers.
///
/// Returns the message of each submodule path, in the order of their footers,
/// and any potential last message not followed by a toprepo footer.
pub fn split_commit_message(full_message: String) -> (r: Result<
    (Vec<(GitPath, PushMessage)>, Option<PushMessage>),
    SplitError,
>)
    ensures
        match r {
            Ok((m, residual)) => spec_split_commit_message(full_message@) == Ok::<
                _,
                SplitFailure,
            >((messages_view(m@), opt_push_view(residual))),
            Err(e) => spec_split_commit_message(full_message@) == Err::<
                (Seq<(Seq<u8>, PushMessageView)>, Option<PushMessageView>),
                _,
            >(e@),
        },
{
    let mut text = chars_of(full_message.as_str());
    text.push('\n');
    text.push('\n');
    let lines = lines_chars(&text);
    let ghost lv = vv(lines@);
    let mut state = SplitState::BeforeSubject;
    let mut messages: Vec<(GitPath, PushMessage)> = Vec::new();
    let mut i: usize = 0;
    assert(messages_view(messages@) =~= Seq::<(Seq<u8>, PushMessageView)>::empty());
    while i < lines.len()
        invariant
            i <= lines@.len(),
            lv == vv(lines@),
            lv == lines_of(full_message@.push('\n').push('\n')),
            state.wf(),
            split_lines(lv.take(i as int)) == Ok::<SplitAcc, SplitFailure>(
                SplitAcc { phase: state@, messages: messages_view(messages@) },
            ),
        decreases lines.len() - i,
    {
        proof {
            assert(lv.take(i + 1).drop_last() =~= lv.take(i as int));
            assert(lv.take(i + 1).last() == lines@[i as int]@);
        }
        match split_one_line(state, &mut messages, &lines[i]) {
            Err(e) => {
                proof {
                    lemma_split_lines_err_prefix(lv, (i + 1) as int);
                }
                return Err(e);
            },
            Ok(st) => {
                state = st;
            },
        }
        i = i + 1;
    }
    assert(lv.take(lines@.len() as int) =~= lv);
    let residual = match state {
        SplitState::BeforeSubject => None,
        SplitState::Subject { message } | SplitState::Body { message } => {
            let m = trim_double_newline_chars(message);
            Some(
                PushMessage {
                    subject_and_body: string_of(m.as_slice()),
                    footer: String::new(),
                    topic: None,
                },
            )
        },
        SplitState::MaybeFooter { subject_and_body, full_message: _, pending } => {
            let m = trim_double_newline_chars(subject_and_body);
            Some(push_message_of(&m, &pending))
        },
        SplitState::ClosedFooter { subject_and_body, full_message: _, pending } => {
            let m = trim_double_newline_chars(subject_and_body);
            Some(push_message_of(&m, &pending))
        },
        SplitState::ToprepoFooter { .. } => None,
    };
    Ok((messages, residual))
}

} // verus!

verus! {

/// What a [`CommitMessage`] holds.
pub struct CommitMessageView {
    pub subject_and_body: Seq<char>,
    pub footer: Seq<char>,
}

/// A commit message split into its subject and body, and its footer.
#[derive(Debug, Clone, PartialEq)]
pub struct CommitMessage {
    pub subject_and_body: String,
    pub footer: String,
}

impl View for CommitMessage {
    type V = CommitMessageView;

    open spec fn view(&self) -> CommitMessageView {
        CommitMessageView { subject_and_body: self.subject_and_body@, footer: self.footer@ }
    }
}

/// Every line of the paragraph is a footer line; an empty paragraph has no
/// lines and qualifies.
pub open spec fn all_footer_lines(chunk: Seq<char>) -> bool {
    forall|i: int| 0 <= i < lines_of(chunk).len() ==> spec_is_footer_line(#[trigger] lines_of(chunk)[i])
}

/// One paragraph of the message: the first is the subject; later ones are
/// held back as long as they may be the footer.
pub open spec fn from_full_step(acc: (Seq<char>, Option<Seq<char>>), chunk: Seq<char>) -> (
    Seq<char>,
    Option<Seq<char>>,
) {
    let (msg, prev) = acc;
    if msg.len() == 0 {
        (chunk.push('\n'), None)
    } else {
        let msg1 = match prev {
            Some(p) => (msg.push('\n') + p).push('\n'),
            None => msg,
        };
        if all_footer_lines(chunk) {
            (msg1, Some(chunk))
        } else {
            ((msg1.push('\n') + chunk).push('\n'), None)
        }
    }
}

pub open spec fn from_full_fold(chunks: Seq<Seq<char>>) -> (Seq<char>, Option<Seq<char>>)
    decreases chunks.len(),
{
    if chunks.len() == 0 {
        (Seq::empty(), None)
    } else {
        from_full_step(from_full_fold(chunks.drop_last()), chunks.last())
    }
}

/// The message without trailing white space, cut into paragraphs at empty
/// lines; the last paragraph is the footer if all its lines are footer lines.
pub open spec fn spec_from_full(full_message: Seq<char>) -> CommitMessageView {
    let (sab, footer) = from_full_fold(split_paragraphs(trim_end(full_message)));
    CommitMessageView {
        subject_and_body: sab,
        footer: match footer {
            Some(f) => f.push('\n'),
            None => Seq::empty(),
        },
    }
}

fn all_footer_lines_exec(chunk: &[char]) -> (r: bool)
    ensures
        r == all_footer_lines(chunk@),
{
    let lines = lines_chars(chunk);
    let mut i: usize = 0;
    while i < lines.len()
        invariant
            i <= lines@.len(),
            vv(lines@) == lines_of(chunk@),
            forall|j: int| 0 <= j < i ==> spec_is_footer_line(#[trigger] lines_of(chunk@)[j]),
        decreases lines.len() - i,
    {
        assert(vv(lines@)[i as int] == lines@[i as int]@);
        if !is_footer_line(lines[i].as_slice()) {
            return false;
        }
        i = i + 1;
    }
    true
}

impl CommitMessage {
    /// Splits a full commit message into subject and body, and footer.
    pub fn from_full(full_message: String) -> (r: CommitMessage)
        ensures
            r@ == spec_from_full(full_message@),
    {
        let text = chars_of(full_message.as_str());
        let trimmed = trim_end_chars(&text);
        let chunks = split_paragraphs_chars(&trimmed);
        let ghost cv = vv(chunks@);
        let mut msg: Vec<char> = Vec::new();
        let mut prev: Option<Vec<char>> = None;
        let mut i: usize = 0;
        while i < chunks.len()
            invariant
                i <= chunks@.len(),
                cv == vv(chunks@),
                from_full_fold(cv.take(i as int)) == (msg@, opt_chars_view(prev)),
            decreases chunks.len() - i,
        {
            proof {
                assert(cv.take(i + 1).drop_last() =~= cv.take(i as int));
                assert(cv.take(i + 1).last() == chunks@[i as int]@);
            }
            let chunk = &chunks[i];
            if msg.len() == 0 {
                msg = copy_chars(chunk);
                msg.push('\n');
                prev = None;
            } else {
                match prev {
                    Some(p) => {
                        msg.push('\n');
                        push_all(&mut msg, p.as_slice());
                        msg.push('\n');
                    },
                    None => {},
                }
                if all_footer_lines_exec(chunk.as_slice()) {
                    prev = Some(copy_chars(chunk));
                } else {
                    msg.push('\n');
                    push_all(&mut msg, chunk.as_slice());
                    msg.push('\n');
                    prev = None;
                }
            }
            i = i + 1;
        }
        assert(cv.take(chunks@.len() as int) =~= cv);
        let footer = match prev {
            Some(f) => {
                let mut f = f;
                f.push('\n');
                string_of(f.as_slice())
            },
            None => String::new(),
        };
        CommitMessage { subject_and_body: string_of(msg.as_slice()), footer }
    }
}

} // verus!

verus! {

/// What a [`CommitMessageInfo`] holds.
pub struct CommitMessageInfoView {
    pub path: Seq<u8>,
    pub message: Option<CommitMessageView>,
    pub status: Seq<char>,
}

/// The commit message of one repository in a mono commit, where it is, and a
/// status text for its footer.
#[derive(Debug)]
pub struct CommitMessageInfo {
    pub path: GitPath,
    pub message: Option<CommitMessage>,
    pub status: String,
}

pub open spec fn opt_message_view(m: Option<CommitMessage>) -> Option<CommitMessageView> {
    match m {
        Some(x) => Some(x@),
        None => None,
    }
}

impl View for CommitMessageInfo {
    type V = CommitMessageInfoView;

    open spec fn view(&self) -> CommitMessageInfoView {
        CommitMessageInfoView {
            path: self.path@,
            message: opt_message_view(self.message),
            status: self.status@,
        }
    }
}

/// What an [`Entry`] holds: a message with its footer source.
pub struct EntryView {
    pub subject_and_body: Seq<char>,
    pub footer: Seq<char>,
    pub path: Seq<u8>,
    pub status: Seq<char>,
}

/// A message to place in the mono commit message.
pub struct Entry {
    pub subject_and_body: Vec<char>,
    pub footer: Vec<char>,
    pub path: GitPath,
    pub status: Vec<char>,
}

impl View for Entry {
    type V = EntryView;

    open spec fn view(&self) -> EntryView {
        EntryView {
            subject_and_body: self.subject_and_body@,
            footer: self.footer@,
            path: self.path@,
            status: self.status@,
        }
    }
}

/// A list of entries.
pub struct EntryList(pub Vec<Entry>);

pub open spec fn entries_view(s: Seq<Entry>) -> Seq<EntryView> {
    s.map_values(|e: Entry| e@)
}

impl View for EntryList {
    type V = Seq<EntryView>;

    open spec fn view(&self) -> Seq<EntryView> {
        entries_view(self.0@)
    }
}

pub open spec fn infos_view(s: Seq<CommitMessageInfo>) -> Seq<CommitMessageInfoView> {
    s.map_values(|i: CommitMessageInfo| i@)
}

pub open spec fn entry_of(info: CommitMessageInfoView, m: CommitMessageView) -> EntryView {
    EntryView {
        subject_and_body: m.subject_and_body,
        footer: m.footer,
        path: info.path,
        status: info.status,
    }
}

pub open spec fn is_interesting_info(info: CommitMessageInfoView) -> bool {
    info.message is Some && spec_is_interesting_message(info.message->0.subject_and_body)
}

/// The submodule messages worth showing, in order.
pub open spec fn interesting_entries(subs: Seq<CommitMessageInfoView>) -> Seq<EntryView>
    decreases subs.len(),
{
    if subs.len() == 0 {
        Seq::empty()
    } else {
        let r = interesting_entries(subs.drop_last());
        if is_interesting_info(subs.last()) {
            r.push(entry_of(subs.last(), subs.last().message->0))
        } else {
            r
        }
    }
}

/// The other submodule messages, in order.
pub open spec fn boring_infos(subs: Seq<CommitMessageInfoView>) -> Seq<CommitMessageInfoView>
    decreases subs.len(),
{
    if subs.len() == 0 {
        Seq::empty()
    } else {
        let r = boring_infos(subs.drop_last());
        if is_interesting_info(subs.last()) {
            r
        } else {
            r.push(subs.last())
        }
    }
}

/// The message used when nothing else is worth showing.
pub open spec fn default_message() -> CommitMessageView {
    CommitMessageView { subject_and_body: "Update git submodules\n"@, footer: Seq::empty() }
}

/// The source message is shown if it is interesting or if nothing else is.
pub open spec fn source_shown(source: CommitMessageInfoView, subs: Seq<CommitMessageInfoView>) -> bool {
    source.message is Some && (spec_is_interesting_message(source.message->0.subject_and_body)
        || interesting_entries(subs).len() == 0)
}

/// The shown messages: the interesting ones, then the source one.
pub open spec fn shown_entries(source: CommitMessageInfoView, subs: Seq<CommitMessageInfoView>) -> Seq<
    EntryView,
> {
    let ints = interesting_entries(subs);
    if source_shown(source, subs) {
        ints.push(entry_of(source, source.message->0))
    } else if ints.len() == 0 {
        ints.push(entry_of(source, default_message()))
    } else {
        ints
    }
}

/// The messages only present through their footers.
pub open spec fn hidden_infos(source: CommitMessageInfoView, subs: Seq<CommitMessageInfoView>) -> Seq<
    CommitMessageInfoView,
> {
    if !source_shown(source, subs) && interesting_entries(subs).len() > 0 {
        boring_infos(subs).push(source)
    } else {
        boring_infos(subs)
    }
}

/// The subject and body shared by all shown messages, if there is only one.
pub open spec fn shared_subject(shown: Seq<EntryView>) -> Seq<char> {
    if forall|k: int| 0 <= k < shown.len() ==> (#[trigger] shown[k]).subject_and_body
        == shown[0].subject_and_body {
        shown[0].subject_and_body
    } else {
        Seq::empty()
    }
}

pub open spec fn hidden_entry(info: CommitMessageInfoView, sab: Seq<char>) -> EntryView {
    EntryView {
        subject_and_body: sab,
        footer: match info.message {
            Some(m) => m.footer,
            None => Seq::empty(),
        },
        path: info.path,
        status: info.status,
    }
}

pub open spec fn hidden_entries(infos: Seq<CommitMessageInfoView>, sab: Seq<char>) -> Seq<EntryView>
    decreases infos.len(),
{
    if infos.len() == 0 {
        Seq::empty()
    } else {
        hidden_entries(infos.drop_last(), sab).push(hidden_entry(infos.last(), sab))
    }
}

/// All messages that go into the mono commit message: the shown ones, then
/// the hidden ones, which take the shared subject and body of the shown ones.
pub open spec fn message_entries(source: CommitMessageInfoView, subs: Seq<CommitMessageInfoView>) -> Seq<
    EntryView,
> {
    let shown = shown_entries(source, subs);
    shown + hidden_entries(hidden_infos(source, subs), shared_subject(shown))
}

pub open spec fn text_key(e: EntryView) -> SortKeyView {
    SortKeyView { flag: false, text: e.subject_and_body, text2: e.footer, path: Seq::empty() }
}

pub open spec fn path_key(p: Seq<u8>) -> SortKeyView {
    SortKeyView { flag: false, text: Seq::empty(), text2: Seq::empty(), path: p }
}

/// Entries in stable order of subject and body, then footer.
pub open spec fn sort_by_text(es: Seq<EntryView>) -> Seq<EntryView> {
    sort_by_key(es.map_values(|e: EntryView| (text_key(e), e))).map_values(
        |x: (SortKeyView, EntryView)| x.1,
    )
}

/// Entries in stable order of path.
pub open spec fn sort_by_path(es: Seq<EntryView>) -> Seq<EntryView> {
    sort_by_key(es.map_values(|e: EntryView| (path_key(e.path), e))).map_values(
        |x: (SortKeyView, EntryView)| x.1,
    )
}

/// The `Git-Toprepo-Ref: PATH STATUS` line of an entry.
pub open spec fn toprepo_footer_line(e: EntryView) -> Seq<char> {
    "Git-Toprepo-Ref: "@ + utf8_lossy(e.path) + (if e.path.len() == 0 {
        top_display_path()
    } else {
        Seq::empty()
    }) + " "@ + e.status.push('\n')
}

pub open spec fn toprepo_footer_lines(es: Seq<EntryView>) -> Seq<char>
    decreases es.len(),
{
    if es.len() == 0 {
        Seq::empty()
    } else {
        toprepo_footer_lines(es.drop_last()) + toprepo_footer_line(es.last())
    }
}

/// Groups of consecutive entries with the same text under `key`.
pub open spec fn groups_of(keyed: Seq<(Seq<char>, EntryView)>) -> Seq<Seq<EntryView>> {
    group_by_text(keyed).map_values(
        |g: Seq<(Seq<char>, EntryView)>| g.map_values(|x: (Seq<char>, EntryView)| x.1),
    )
}

/// The footer groups of one text group, each in path order.
pub open spec fn footer_groups(g: Seq<EntryView>) -> Seq<Seq<EntryView>> {
    groups_of(g.map_values(|e: EntryView| (e.footer, e))).map_values(
        |fg: Seq<EntryView>| sort_by_path(fg),
    )
}

/// The lines of the footer groups without footer, and the other groups.
pub open spec fn split_footer_groups(fgs: Seq<Seq<EntryView>>) -> (Seq<char>, Seq<Seq<EntryView>>)
    decreases fgs.len(),
{
    if fgs.len() == 0 {
        (Seq::empty(), Seq::empty())
    } else {
        let (t, o) = split_footer_groups(fgs.drop_last());
        let fg = fgs.last();
        if fg[0].footer.len() == 0 {
            (t + toprepo_footer_lines(fg), o)
        } else {
            (t, o.push(fg))
        }
    }
}

/// Footer groups in stable order of their first path.
pub open spec fn sort_groups_by_path(gs: Seq<Seq<EntryView>>) -> Seq<Seq<EntryView>> {
    sort_by_key(gs.map_values(|g: Seq<EntryView>| (path_key(g[0].path), g))).map_values(
        |x: (SortKeyView, Seq<EntryView>)| x.1,
    )
}

pub open spec fn footer_blocks(gs: Seq<Seq<EntryView>>) -> Seq<char>
    decreases gs.len(),
{
    if gs.len() == 0 {
        Seq::empty()
    } else {
        footer_blocks(gs.drop_last()) + gs.last()[0].footer + toprepo_footer_lines(gs.last())
    }
}

/// One combined message of entries that share their subject and body: the
/// text, then the path footers of messages without own footer, then each
/// own footer followed by the path footers of the messages that carry it.
pub open spec fn render_group(g: Seq<EntryView>) -> Seq<char> {
    let sab = g[0].subject_and_body;
    let head = if sab.len() == 0 {
        sab
    } else {
        sab.push('\n')
    };
    let (t, o) = split_footer_groups(footer_groups(g));
    head + t + footer_blocks(sort_groups_by_path(o))
}

/// The smallest path of some entries.
pub open spec fn min_path(es: Seq<EntryView>) -> Seq<u8>
    decreases es.len(),
{
    if es.len() <= 1 {
        es[0].path
    } else {
        let m = min_path(es.drop_last());
        if bytes_le(m, es.last().path) {
            m
        } else {
            es.last().path
        }
    }
}

pub open spec fn combined_key(g: Seq<EntryView>) -> SortKeyView {
    SortKeyView {
        flag: g[0].subject_and_body.len() == 0,
        text: Seq::empty(),
        text2: Seq::empty(),
        path: min_path(g),
    }
}

/// Messages concatenated with one `\n` between non-empty parts.
pub open spec fn join_messages(ms: Seq<Seq<char>>) -> Seq<char>
    decreases ms.len(),
{
    if ms.len() == 0 {
        Seq::empty()
    } else {
        let acc = join_messages(ms.drop_last());
        if acc.len() == 0 {
            ms.last()
        } else {
            acc.push('\n') + ms.last()
        }
    }
}

/// The mono commit message: the entries sorted by text and grouped by
/// subject and body, each group rendered, and the rendered groups ordered by
/// smallest path with the group without subject and body last.
pub open spec fn spec_mono_commit_message(
    source: CommitMessageInfoView,
    subs: Seq<CommitMessageInfoView>,
) -> Seq<char> {
    let sorted = sort_by_text(message_entries(source, subs));
    let groups = groups_of(sorted.map_values(|e: EntryView| (e.subject_and_body, e)));
    let combined = sort_by_key(groups.map_values(|g: Seq<EntryView>| (combined_key(g), render_group(g))));
    join_messages(combined.map_values(|x: (SortKeyView, Seq<char>)| x.1))
}

} // verus!

verus! {

fn copy_entry(e: &Entry) -> (r: Entry)
    ensures
        r@ == e@,
{
    Entry {
        subject_and_body: copy_chars(&e.subject_and_body),
        footer: copy_chars(&e.footer),
        path: e.path.duplicate(),
        status: copy_chars(&e.status),
    }
}

/// The second parts of text-keyed items.
fn drop_text_keys<T: View>(v: Vec<(Vec<char>, T)>) -> (r: Vec<T>)
    ensures
        r@.map_values(|t: T| t@) == texted_view(v@).map_values(|x: (Seq<char>, T::V)| x.1),
{
    let mut v = v;
    let ghost orig = v@;
    let mut r: Vec<T> = Vec::new();
    let ghost n = v@.len();
    while v.len() > 0
        invariant
            n == orig.len(),
            v@.len() <= n,
            v@ == orig.skip(n - v@.len()),
            r@.map_values(|t: T| t@) == texted_view(orig.take(n - v@.len())).map_values(
                |x: (Seq<char>, T::V)| x.1,
            ),
        decreases v.len(),
    {
        let ghost vb = v@;
        let x = v.remove(0);
        let ghost rb = r@;
        r.push(x.1);
        proof {
            assert(v@ =~= orig.skip(n - v@.len()));
            assert(orig.take(n - v@.len()) =~= orig.take(n - vb.len()).push(x));
            assert(r@ =~= rb.push(x.1));
            assert(r@.map_values(|t: T| t@) =~= rb.map_values(|t: T| t@).push(x.1@));
            assert(texted_view(orig.take(n - v@.len())) =~= texted_view(orig.take(n - vb.len())).push((x.0@, x.1@)));
            assert(texted_view(orig.take(n - v@.len())).map_values(|y: (Seq<char>, T::V)| y.1) =~= texted_view(
                orig.take(n - vb.len()),
            ).map_values(|y: (Seq<char>, T::V)| y.1).push(x.1@));
        }
    }
    assert(orig.take(n as int) =~= orig);
    r
}

/// The second parts of keyed items.
fn drop_sort_keys<T: View>(v: Vec<(SortKey, T)>) -> (r: Vec<T>)
    ensures
        r@.map_values(|t: T| t@) == keyed_view(v@).map_values(|x: (SortKeyView, T::V)| x.1),
{
    let mut v = v;
    let ghost orig = v@;
    let mut r: Vec<T> = Vec::new();
    let ghost n = v@.len();
    while v.len() > 0
        invariant
            n == orig.len(),
            v@.len() <= n,
            v@ == orig.skip(n - v@.len()),
            r@.map_values(|t: T| t@) == keyed_view(orig.take(n - v@.len())).map_values(
                |x: (SortKeyView, T::V)| x.1,
            ),
        decreases v.len(),
    {
        let ghost vb = v@;
        let x = v.remove(0);
        let ghost rb = r@;
        r.push(x.1);
        proof {
            assert(v@ =~= orig.skip(n - v@.len()));
            assert(orig.take(n - v@.len()) =~= orig.take(n - vb.len()).push(x));
            assert(r@ =~= rb.push(x.1));
            assert(r@.map_values(|t: T| t@) =~= rb.map_values(|t: T| t@).push(x.1@));
            assert(keyed_view(orig.take(n - v@.len())) =~= keyed_view(orig.take(n - vb.len())).push((x.0@, x.1@)));
            assert(keyed_view(orig.take(n - v@.len())).map_values(|y: (SortKeyView, T::V)| y.1) =~= keyed_view(
                orig.take(n - vb.len()),
            ).map_values(|y: (SortKeyView, T::V)| y.1).push(x.1@));
        }
    }
    assert(orig.take(n as int) =~= orig);
    r
}

fn empty_key_with_path(p: &GitPath) -> (r: SortKey)
    ensures
        r@ == path_key(p@),
{
    SortKey { flag: false, text: Vec::new(), text2: Vec::new(), path: crate::git::bytes_to_vec(p.as_bytes()) }
}

/// Entries in stable order of path.
fn sort_entries_by_path(es: Vec<Entry>) -> (r: Vec<Entry>)
    ensures
        entries_view(r@) == sort_by_path(entries_view(es@)),
{
    let mut es = es;
    let ghost orig = es@;
    let ghost n = es@.len();
    let mut keyed: Vec<(SortKey, Entry)> = Vec::new();
    while es.len() > 0
        invariant
            n == orig.len(),
            es@.len() <= n,
            es@ == orig.skip(n - es@.len()),
            keyed_view(keyed@) == entries_view(orig.take(n - es@.len())).map_values(
                |e: EntryView| (path_key(e.path), e),
            ),
        decreases es.len(),
    {
        let ghost eb = es@;
        let e = es.remove(0);
        let k = empty_key_with_path(&e.path);
        let ghost kb = keyed_view(keyed@);
        keyed.push((k, e));
        proof {
            assert(es@ =~= orig.skip(n - es@.len()));
            assert(orig.take(n - es@.len()) =~= orig.take(n - eb.len()).push(e));
            assert(keyed_view(keyed@) =~= kb.push((path_key(e@.path), e@)));
            assert(keyed_view(keyed@) =~= entries_view(orig.take(n - es@.len())).map_values(
                |x: EntryView| (path_key(x.path), x),
            ));
        }
    }
    assert(orig.take(n as int) =~= orig);
    let sorted = crate::order::sort_keyed(keyed);
    let r = drop_sort_keys(sorted);
    assert(entries_view(r@) =~= r@.map_values(|t: Entry| t@));
    r
}

/// Entries in stable order of subject and body, then footer.
fn sort_entries_by_text(es: Vec<Entry>) -> (r: Vec<Entry>)
    ensures
        entries_view(r@) == sort_by_text(entries_view(es@)),
{
    let mut es = es;
    let ghost orig = es@;
    let ghost n = es@.len();
    let mut keyed: Vec<(SortKey, Entry)> = Vec::new();
    while es.len() > 0
        invariant
            n == orig.len(),
            es@.len() <= n,
            es@ == orig.skip(n - es@.len()),
            keyed_view(keyed@) == entries_view(orig.take(n - es@.len())).map_values(
                |e: EntryView| (text_key(e), e),
            ),
        decreases es.len(),
    {
        let ghost eb = es@;
        let e = es.remove(0);
        let k = SortKey {
            flag: false,
            text: copy_chars(&e.subject_and_body),
            text2: copy_chars(&e.footer),
            path: Vec::new(),
        };
        let ghost kb = keyed_view(keyed@);
        keyed.push((k, e));
        proof {
            assert(es@ =~= orig.skip(n - es@.len()));
            assert(orig.take(n - es@.len()) =~= orig.take(n - eb.len()).push(e));
            assert(k@ == text_key(e@));
            assert(keyed_view(keyed@) =~= kb.push((text_key(e@), e@)));
            assert(keyed_view(keyed@) =~= entries_view(orig.take(n - es@.len())).map_values(
                |x: EntryView| (text_key(x), x),
            ));
        }
    }
    assert(orig.take(n as int) =~= orig);
    let sorted = crate::order::sort_keyed(keyed);
    let r = drop_sort_keys(sorted);
    assert(entries_view(r@) =~= r@.map_values(|t: Entry| t@));
    r
}

/// The text entries are grouped by.
pub open spec fn group_key(e: EntryView, by_footer: bool) -> Seq<char> {
    if by_footer {
        e.footer
    } else {
        e.subject_and_body
    }
}

/// Groups of consecutive entries with the same footer (`by_footer`) or the
/// same subject and body.
fn group_entries(es: Vec<Entry>, by_footer: bool) -> (r: Vec<Vec<Entry>>)
    ensures
        r@.map_values(|g: Vec<Entry>| entries_view(g@)) == groups_of(
            entries_view(es@).map_values(
                |e: EntryView| (group_key(e, by_footer), e),
            ),
        ),
{
    let mut es = es;
    let ghost orig = es@;
    let ghost n = es@.len();
    let mut keyed: Vec<(Vec<char>, Entry)> = Vec::new();
    while es.len() > 0
        invariant
            n == orig.len(),
            es@.len() <= n,
            es@ == orig.skip(n - es@.len()),
            texted_view(keyed@) == entries_view(orig.take(n - es@.len())).map_values(
                |e: EntryView| (group_key(e, by_footer), e),
            ),
        decreases es.len(),
    {
        let ghost eb = es@;
        let e = es.remove(0);
        let k = if by_footer {
            copy_chars(&e.footer)
        } else {
            copy_chars(&e.subject_and_body)
        };
        let ghost kb = texted_view(keyed@);
        keyed.push((k, e));
        proof {
            assert(es@ =~= orig.skip(n - es@.len()));
            assert(orig.take(n - es@.len()) =~= orig.take(n - eb.len()).push(e));
            assert(k@ == group_key(e@, by_footer));
            assert(texted_view(keyed@) =~= kb.push((group_key(e@, by_footer), e@)));
            assert(texted_view(keyed@) =~= entries_view(orig.take(n - es@.len())).map_values(
                |x: EntryView| (group_key(x, by_footer), x),
            ));
        }
    }
    assert(orig.take(n as int) =~= orig);
    let ghost kv = texted_view(keyed@);
    assert(kv =~= entries_view(orig).map_values(
        |e: EntryView| (group_key(e, by_footer), e),
    ));
    let mut groups = group_consecutive(keyed);
    let ghost gv = groups_view(groups@);
    let ghost m = gv.len();
    let mut r: Vec<Vec<Entry>> = Vec::new();
    while groups.len() > 0
        invariant
            m == gv.len(),
            groups@.len() <= m,
            groups_view(groups@) == gv.skip(m - groups@.len()),
            r@.map_values(|g: Vec<Entry>| entries_view(g@)) == gv.take(m - groups@.len()).map_values(
                |g: Seq<(Seq<char>, EntryView)>| g.map_values(|x: (Seq<char>, EntryView)| x.1),
            ),
        decreases groups.len(),
    {
        let ghost gb = groups_view(groups@);
        let g = groups.remove(0);
        proof {
            assert(gb[0] == texted_view(g@));
            assert(groups_view(groups@) =~= gb.drop_first());
            assert(gv.take(m - groups@.len()) =~= gv.take(m - gb.len()).push(gb[0]));
        }
        let es2 = drop_text_keys(g);
        let ghost rb = r@.map_values(|g: Vec<Entry>| entries_view(g@));
        r.push(es2);
        proof {
            assert(entries_view(es2@) =~= es2@.map_values(|t: Entry| t@));
            assert(r@.map_values(|g: Vec<Entry>| entries_view(g@)) =~= rb.push(entries_view(es2@)));
        }
    }
    assert(gv.take(m as int) =~= gv);
    r
}

fn toprepo_footer_line_exec(e: &Entry) -> (r: Vec<char>)
    ensures
        r@ == toprepo_footer_line(e@),
{
    let mut r = chars_of("Git-Toprepo-Ref: ");
    let shown = from_utf8_lossy(e.path.as_bytes());
    let shown_chars = chars_of(shown.as_str());
    push_all(&mut r, &shown_chars);
    if e.path.is_empty() {
        let top = chars_of("<top>");
        push_all(&mut r, &top);
    } else {
        assert(r@ =~= r@ + Seq::<char>::empty());
    }
    let sp = chars_of(" ");
    push_all(&mut r, &sp);
    push_all(&mut r, e.status.as_slice());
    r.push('\n');
    r
}

fn toprepo_footer_lines_exec(es: &Vec<Entry>) -> (r: Vec<char>)
    ensures
        r@ == toprepo_footer_lines(entries_view(es@)),
{
    let mut r: Vec<char> = Vec::new();
    let mut i: usize = 0;
    while i < es.len()
        invariant
            i <= es@.len(),
            r@ == toprepo_footer_lines(entries_view(es@).take(i as int)),
        decreases es.len() - i,
    {
        proof {
            assert(entries_view(es@).take(i + 1).drop_last() =~= entries_view(es@).take(i as int));
        }
        let line = toprepo_footer_line_exec(&es[i]);
        push_all(&mut r, &line);
        i = i + 1;
    }
    assert(entries_view(es@).take(es@.len() as int) =~= entries_view(es@));
    r
}

fn min_path_exec(es: &Vec<Entry>) -> (r: Vec<u8>)
    requires
        es@.len() > 0,
    ensures
        r@ == min_path(entries_view(es@)),
{
    let mut m = crate::git::bytes_to_vec(es[0].path.as_bytes());
    let mut i: usize = 1;
    assert(entries_view(es@).take(1).len() == 1);
    while i < es.len()
        invariant
            1 <= i <= es@.len(),
            m@ == min_path(entries_view(es@).take(i as int)),
        decreases es.len() - i,
    {
        proof {
            assert(entries_view(es@).take(i + 1).drop_last() =~= entries_view(es@).take(i as int));
        }
        if !crate::order::bytes_le_exec(m.as_slice(), es[i].path.as_bytes()) {
            m = crate::git::bytes_to_vec(es[i].path.as_bytes());
        }
        i = i + 1;
    }
    assert(entries_view(es@).take(es@.len() as int) =~= entries_view(es@));
    m
}

} // verus!

verus! {

/// Groups are never empty.
pub proof fn lemma_groups_of_nonempty(keyed: Seq<(Seq<char>, EntryView)>)
    ensures
        forall|i: int| 0 <= i < groups_of(keyed).len() ==> (#[trigger] groups_of(keyed)[i]).len() > 0,
{
    crate::order::lemma_group_by_text_nonempty(keyed);
    assert forall|i: int| 0 <= i < groups_of(keyed).len() implies (#[trigger] groups_of(
        keyed,
    )[i]).len() > 0 by {
        assert(groups_of(keyed)[i].len() == group_by_text(keyed)[i].len());
    }
}

/// One combined message of entries with the same subject and body.
fn render_group_exec(g: Vec<Entry>) -> (r: Vec<char>)
    requires
        g@.len() > 0,
    ensures
        r@ == render_group(entries_view(g@)),
{
    let ghost gv = entries_view(g@);
    let mut out = copy_chars(&g[0].subject_and_body);
    assert(out@ == gv[0].subject_and_body);
    if out.len() > 0 {
        out.push('\n');
    }
    let mut fgs = group_entries(g, true);
    let ghost keyed = gv.map_values(|e: EntryView| (group_key(e, true), e));
    proof {
        assert(keyed =~= gv.map_values(|e: EntryView| (e.footer, e)));
        lemma_groups_of_nonempty(keyed);
    }
    let ghost all = footer_groups(gv);
    let ghost raw = groups_of(keyed);
    let ghost m = raw.len();
    assert(all == raw.map_values(|fg: Seq<EntryView>| sort_by_path(fg)));
    let mut t: Vec<char> = Vec::new();
    let mut others: Vec<(SortKey, EntryList)> = Vec::new();
    assert(keyed_view(others@) =~= split_footer_groups(all.take(0)).1.map_values(
        |fg: Seq<EntryView>| (path_key(fg[0].path), fg),
    ));
    while fgs.len() > 0
        invariant
            m == raw.len(),
            all.len() == m,
            all == raw.map_values(|fg: Seq<EntryView>| sort_by_path(fg)),
            forall|i: int| 0 <= i < m ==> (#[trigger] raw[i]).len() > 0,
            fgs@.len() <= m,
            fgs@.map_values(|x: Vec<Entry>| entries_view(x@)) == raw.skip(m - fgs@.len()),
            t@ == split_footer_groups(all.take(m - fgs@.len())).0,
            keyed_view(others@) == split_footer_groups(all.take(m - fgs@.len())).1.map_values(
                |fg: Seq<EntryView>| (path_key(fg[0].path), fg),
            ),
            forall|i: int| 0 <= i < others@.len() ==> (#[trigger] others@[i]).1@.len() > 0,
        decreases fgs.len(),
    {
        let ghost k = m - fgs@.len();
        let ghost fb = fgs@.map_values(|x: Vec<Entry>| entries_view(x@));
        let fg = fgs.remove(0);
        proof {
            assert(fb[0] == entries_view(fg@));
            assert(fgs@.map_values(|x: Vec<Entry>| entries_view(x@)) =~= fb.drop_first());
            assert(raw.skip(k).drop_first() =~= raw.skip(k + 1));
            assert(raw[k] == raw.skip(k)[0]);
            assert(all.take(k + 1).drop_last() =~= all.take(k));
            assert(all.take(k + 1).last() == sort_by_path(entries_view(fg@)));
        }
        let sorted = sort_entries_by_path(fg);
        proof {
            let kk = entries_view(fg@).map_values(|e: EntryView| (path_key(e.path), e));
            crate::order::lemma_sort_by_key_items(kk);
            assert(entries_view(sorted@).len() == sort_by_key(kk).len());
        }
        if sorted[0].footer.len() == 0 {
            let lines = toprepo_footer_lines_exec(&sorted);
            push_all(&mut t, &lines);
        } else {
            let key = empty_key_with_path(&sorted[0].path);
            let ghost ob = keyed_view(others@);
            let ghost sv = entries_view(sorted@);
            others.push((key, EntryList(sorted)));
            proof {
                assert(keyed_view(others@) =~= ob.push((path_key(sv[0].path), sv)));
            }
        }
    }
    proof {
        assert(all.take(m as int) =~= all);
    }
    push_all(&mut out, &t);
    let ghost o = split_footer_groups(all).1;
    proof {
        let kk = o.map_values(|fg: Seq<EntryView>| (path_key(fg[0].path), fg));
        crate::order::lemma_sort_by_key_items(kk);
    }
    let sorted_others = crate::order::sort_keyed(others);
    let blocks = drop_sort_keys(sorted_others);
    let ghost bv = blocks@.map_values(|b: EntryList| b@);
    assert(bv == sort_groups_by_path(o));
    proof {
        let kk = o.map_values(|fg: Seq<EntryView>| (path_key(fg[0].path), fg));
        assert forall|i: int| 0 <= i < bv.len() implies (#[trigger] bv[i]).len() > 0 by {
            assert(bv[i] == sort_by_key(kk)[i].1);
            let j = choose|j: int| 0 <= j < kk.len() && sort_by_key(kk)[i] == kk[j];
            assert(kk[j].1 == o[j]);
            assert(keyed_view(others@)[j].1 == others@[j].1@);
        }
    }
    let mut b: usize = 0;
    let mut tail: Vec<char> = Vec::new();
    while b < blocks.len()
        invariant
            b <= blocks@.len(),
            bv == blocks@.map_values(|b: EntryList| b@),
            forall|i: int| 0 <= i < bv.len() ==> (#[trigger] bv[i]).len() > 0,
            tail@ == footer_blocks(bv.take(b as int)),
        decreases blocks.len() - b,
    {
        proof {
            assert(bv.take(b + 1).drop_last() =~= bv.take(b as int));
            assert(bv.take(b + 1).last() == blocks@[b as int]@);
            assert(bv[b as int].len() > 0);
        }
        let es = &blocks[b].0;
        push_all(&mut tail, es[0].footer.as_slice());
        let lines = toprepo_footer_lines_exec(es);
        push_all(&mut tail, &lines);
        b = b + 1;
    }
    assert(bv.take(blocks@.len() as int) =~= bv);
    push_all(&mut out, &tail);
    out
}

} // verus!

verus! {

/// What a hidden message keeps: its path, its own footer and its status.
pub open spec fn hidden_part(info: CommitMessageInfoView) -> (Seq<u8>, Seq<char>, Seq<char>) {
    (
        info.path,
        match info.message {
            Some(m) => m.footer,
            None => Seq::empty(),
        },
        info.status,
    )
}

/// A message only present through its footers.
pub struct HiddenPart {
    pub path: GitPath,
    pub footer: Vec<char>,
    pub status: Vec<char>,
}

impl View for HiddenPart {
    type V = (Seq<u8>, Seq<char>, Seq<char>);

    open spec fn view(&self) -> (Seq<u8>, Seq<char>, Seq<char>) {
        (self.path@, self.footer@, self.status@)
    }
}

fn hidden_part_of(info: &CommitMessageInfo) -> (r: HiddenPart)
    ensures
        r@ == hidden_part(info@),
{
    let footer = match &info.message {
        Some(m) => chars_of(m.footer.as_str()),
        None => Vec::new(),
    };
    HiddenPart { path: info.path.duplicate(), footer, status: chars_of(info.status.as_str()) }
}

fn entry_of_exec(info: &CommitMessageInfo, m: &CommitMessage) -> (r: Entry)
    ensures
        r@ == entry_of(info@, m@),
{
    Entry {
        subject_and_body: chars_of(m.subject_and_body.as_str()),
        footer: chars_of(m.footer.as_str()),
        path: info.path.duplicate(),
        status: chars_of(info.status.as_str()),
    }
}

fn is_interesting_info_exec(info: &CommitMessageInfo) -> (r: bool)
    ensures
        r == is_interesting_info(info@),
{
    match &info.message {
        Some(m) => is_interesting_message(m.subject_and_body.as_str()),
        None => false,
    }
}

/// All messages that go into the mono commit message.
fn message_entries_exec(source: &CommitMessageInfo, subs: &Vec<CommitMessageInfo>) -> (r: Vec<Entry>)
    ensures
        entries_view(r@) == message_entries(source@, infos_view(subs@)),
{
    let ghost sv = infos_view(subs@);
    let mut ints: Vec<Entry> = Vec::new();
    let mut bors: Vec<HiddenPart> = Vec::new();
    let mut i: usize = 0;
    while i < subs.len()
        invariant
            i <= subs@.len(),
            sv == infos_view(subs@),
            entries_view(ints@) == interesting_entries(sv.take(i as int)),
            bors@.map_values(|h: HiddenPart| h@) == boring_infos(sv.take(i as int)).map_values(
                |x: CommitMessageInfoView| hidden_part(x),
            ),
        decreases subs.len() - i,
    {
        proof {
            assert(sv.take(i + 1).drop_last() =~= sv.take(i as int));
            assert(sv.take(i + 1).last() == subs@[i as int]@);
        }
        let info = &subs[i];
        if is_interesting_info_exec(info) {
            let m = match &info.message {
                Some(m) => m,
                None => {
                    assert(false);
                    return Vec::new();
                },
            };
            let e = entry_of_exec(info, m);
            let ghost ib = entries_view(ints@);
            ints.push(e);
            assert(entries_view(ints@) =~= ib.push(e@));
        } else {
            let h = hidden_part_of(info);
            let ghost bb = bors@.map_values(|h: HiddenPart| h@);
            bors.push(h);
            proof {
                assert(bors@.map_values(|h: HiddenPart| h@) =~= bb.push(h@));
                assert(boring_infos(sv.take(i + 1)).map_values(|x: CommitMessageInfoView| hidden_part(x))
                    =~= boring_infos(sv.take(i as int)).map_values(
                    |x: CommitMessageInfoView| hidden_part(x),
                ).push(hidden_part(info@)));
            }
        }
        i = i + 1;
    }
    assert(sv.take(subs@.len() as int) =~= sv);
    let no_interesting = ints.len() == 0;
    let shown_source = match &source.message {
        Some(m) => is_interesting_message(m.subject_and_body.as_str()) || no_interesting,
        None => false,
    };
    assert(shown_source == source_shown(source@, sv));
    if shown_source {
        match &source.message {
            Some(m) => {
                let e = entry_of_exec(source, m);
                let ghost ib = entries_view(ints@);
                ints.push(e);
                assert(entries_view(ints@) =~= ib.push(e@));
            },
            None => {},
        }
    } else if no_interesting {
        let e = Entry {
            subject_and_body: chars_of("Update git submodules\n"),
            footer: Vec::new(),
            path: source.path.duplicate(),
            status: chars_of(source.status.as_str()),
        };
        assert(e@ == entry_of(source@, default_message()));
        let ghost ib = entries_view(ints@);
        ints.push(e);
        assert(entries_view(ints@) =~= ib.push(e@));
    } else {
        let h = hidden_part_of(source);
        let ghost bb = bors@.map_values(|h: HiddenPart| h@);
        bors.push(h);
        assert(bors@.map_values(|h: HiddenPart| h@) =~= bb.push(h@));
    }
    let ghost shown = shown_entries(source@, sv);
    let ghost hidden = hidden_infos(source@, sv);
    assert(entries_view(ints@) == shown);
    assert(bors@.map_values(|h: HiddenPart| h@) =~= hidden.map_values(
        |x: CommitMessageInfoView| hidden_part(x),
    ));
    // The subject and body shared by all shown messages.
    let mut all_same = true;
    let mut k: usize = 0;
    while k < ints.len()
        invariant
            k <= ints@.len(),
            ints@.len() > 0,
            entries_view(ints@) == shown,
            all_same == forall|j: int| 0 <= j < k ==> (#[trigger] shown[j]).subject_and_body
                == shown[0].subject_and_body,
        decreases ints.len() - k,
    {
        let same = crate::text::chars_eq(
            ints[k].subject_and_body.as_slice(),
            ints[0].subject_and_body.as_slice(),
        );
        proof {
            assert(shown[k as int] == ints@[k as int]@);
            assert(shown[0] == ints@[0]@);
            if !same {
                assert(!(shown[k as int].subject_and_body == shown[0].subject_and_body));
            }
        }
        all_same = all_same && same;
        k = k + 1;
    }
    let sab = if all_same {
        copy_chars(&ints[0].subject_and_body)
    } else {
        Vec::new()
    };
    proof {
        assert(shown[0] == ints@[0]@);
    }
    assert(sab@ == shared_subject(shown));
    let mut j: usize = 0;
    let ghost hv = bors@.map_values(|h: HiddenPart| h@);
    let ghost base = entries_view(ints@);
    assert(hv.len() == hidden.len());
    assert(hidden.take(0) =~= Seq::<CommitMessageInfoView>::empty());
    assert(base =~= base + hidden_entries(hidden.take(0), sab@));
    while j < bors.len()
        invariant
            j <= bors@.len(),
            hv == bors@.map_values(|h: HiddenPart| h@),
            hv == hidden.map_values(|x: CommitMessageInfoView| hidden_part(x)),
            hidden.len() == bors@.len(),
            entries_view(ints@) == base + hidden_entries(hidden.take(j as int), sab@),
        decreases bors.len() - j,
    {
        proof {
            assert(hidden.take(j + 1).drop_last() =~= hidden.take(j as int));
            assert(hv[j as int] == hidden_part(hidden[j as int]));
            assert(hv[j as int] == bors@[j as int]@);
        }
        let h = &bors[j];
        let e = Entry {
            subject_and_body: copy_chars(&sab),
            footer: copy_chars(&h.footer),
            path: h.path.duplicate(),
            status: copy_chars(&h.status),
        };
        assert(e@ == hidden_entry(hidden[j as int], sab@));
        let ghost ib = entries_view(ints@);
        ints.push(e);
        assert(entries_view(ints@) =~= ib.push(e@));
        proof {
            assert(hidden.take(j + 1).last() == hidden[j as int]);
            assert(hidden_entries(hidden.take(j + 1), sab@) == hidden_entries(hidden.take(j as int), sab@).push(
                hidden_entry(hidden[j as int], sab@),
            ));
            assert(entries_view(ints@) =~= base + hidden_entries(hidden.take(j + 1), sab@));
        }
        j = j + 1;
    }
    assert(hidden.take(bors@.len() as int) =~= hidden);
    ints
}

/// Construct a commit message from the submodule updates.
///
/// The messages of the submodules that are interesting are shown, with the
/// source message if it is interesting too or if nothing else is. Every
/// message is followed by `Git-Toprepo-Ref` footers naming where it came
/// from; messages with the same text are shown once with all their footers.
pub fn calculate_mono_commit_message(
    source_info: CommitMessageInfo,
    sub_infos: Vec<CommitMessageInfo>,
) -> (r: String)
    ensures
        r@ == spec_mono_commit_message(source_info@, infos_view(sub_infos@)),
{
    let entries = message_entries_exec(&source_info, &sub_infos);
    let sorted = sort_entries_by_text(entries);
    let ghost sv = entries_view(sorted@);
    let mut groups = group_entries(sorted, false);
    let ghost keyed = sv.map_values(|e: EntryView| (group_key(e, false), e));
    proof {
        assert(keyed =~= sv.map_values(|e: EntryView| (e.subject_and_body, e)));
        lemma_groups_of_nonempty(keyed);
    }
    let ghost gs = groups_of(keyed);
    let ghost m = gs.len();
    let mut combined: Vec<(SortKey, Vec<char>)> = Vec::new();
    assert(keyed_view(combined@) =~= gs.take(0).map_values(
        |g: Seq<EntryView>| (combined_key(g), render_group(g)),
    ));
    while groups.len() > 0
        invariant
            m == gs.len(),
            forall|i: int| 0 <= i < m ==> (#[trigger] gs[i]).len() > 0,
            groups@.len() <= m,
            groups@.map_values(|x: Vec<Entry>| entries_view(x@)) == gs.skip(m - groups@.len()),
            keyed_view(combined@) == gs.take(m - groups@.len()).map_values(
                |g: Seq<EntryView>| (combined_key(g), render_group(g)),
            ),
        decreases groups.len(),
    {
        let ghost k = m - groups@.len();
        let ghost gb = groups@.map_values(|x: Vec<Entry>| entries_view(x@));
        let g = groups.remove(0);
        proof {
            assert(gb[0] == entries_view(g@));
            assert(groups@.map_values(|x: Vec<Entry>| entries_view(x@)) =~= gb.drop_first());
            assert(gs.skip(k).drop_first() =~= gs.skip(k + 1));
            assert(gs[k] == gs.skip(k)[0]);
            assert(gs.take(k + 1) =~= gs.take(k).push(gs[k]));
        }
        let path = min_path_exec(&g);
        let key = SortKey {
            flag: g[0].subject_and_body.len() == 0,
            text: Vec::new(),
            text2: Vec::new(),
            path,
        };
        assert(key@ == combined_key(entries_view(g@)));
        let rendered = render_group_exec(g);
        let ghost cb = keyed_view(combined@);
        combined.push((key, rendered));
        proof {
            assert(keyed_view(combined@) =~= cb.push((key@, rendered@)));
            assert(gs.take(k + 1).map_values(|g: Seq<EntryView>| (combined_key(g), render_group(g)))
                =~= gs.take(k).map_values(
                |g: Seq<EntryView>| (combined_key(g), render_group(g)),
            ).push((key@, rendered@)));
        }
    }
    assert(gs.take(m as int) =~= gs);
    let sorted_combined = crate::order::sort_keyed(combined);
    let texts = drop_sort_keys(sorted_combined);
    let ghost tv = texts@.map_values(|t: Vec<char>| t@);
    let mut out: Vec<char> = Vec::new();
    let mut i: usize = 0;
    while i < texts.len()
        invariant
            i <= texts@.len(),
            tv == texts@.map_values(|t: Vec<char>| t@),
            out@ == join_messages(tv.take(i as int)),
        decreases texts.len() - i,
    {
        proof {
            assert(tv.take(i + 1).drop_last() =~= tv.take(i as int));
            assert(tv.take(i + 1).last() == texts@[i as int]@);
        }
        if out.len() > 0 {
            out.push('\n');
        }
        push_all(&mut out, texts[i].as_slice());
        i = i + 1;
    }
    assert(tv.take(texts@.len() as int) =~= tv);
    string_of(out.as_slice())
}

} // verus!

verus! {

/// After the given lines: where the last paragraph of footer lines that
/// follows an empty line starts, whether the last line was empty, and the
/// offset after the lines. A line that is no footer line cancels the footer
/// of its paragraph.
pub open spec fn footer_scan(lines: Seq<Seq<char>>) -> (Option<int>, bool, int)
    decreases lines.len(),
{
    if lines.len() == 0 {
        (None, false, 0)
    } else {
        let (start, between, offset) = footer_scan(lines.drop_last());
        let line = lines.last();
        let next = offset + line.len() + 1;
        if trim_start(line).len() == 0 {
            (start, true, next)
        } else if spec_is_footer_line(line) {
            (if between {
                Some(offset)
            } else {
                start
            }, false, next)
        } else {
            (None, false, next)
        }
    }
}

/// The message split before its footer: the text up to the footer, and the
/// footer if the last paragraph consists of footer lines after an empty
/// line.
pub open spec fn spec_extract_footer(message: Seq<char>) -> (Seq<char>, Option<Seq<char>>) {
    match footer_scan(crate::text::split_on(message, '\n')).0 {
        Some(i) => (message.take(i), Some(message.skip(i))),
        None => (message, None),
    }
}

fn footer_scan_step(
    st: (Option<usize>, bool, usize),
    line: &Vec<char>,
) -> (r: (Option<usize>, bool, usize))
    requires
        st.2 + line@.len() <= usize::MAX,
    ensures
        ({
            let (s0, b0, o0) = st;
            let n = o0 + line@.len() + 1;
            let spec_start = match s0 {
                Some(i) => Some(i as int),
                None => None,
            };
            let r_start = match r.0 {
                Some(i) => Some(i as int),
                None => None,
            };
            &&& n <= usize::MAX ==> r.2 == n
            &&& trim_start(line@).len() == 0 ==> r_start == spec_start && r.1
            &&& trim_start(line@).len() != 0 && spec_is_footer_line(line@) ==> r_start == (if b0 {
                Some(o0 as int)
            } else {
                spec_start
            }) && !r.1
            &&& trim_start(line@).len() != 0 && !spec_is_footer_line(line@) ==> r_start is None
                && !r.1
        }),
{
    let (start, between, offset) = st;
    let next = if offset + line.len() < usize::MAX {
        offset + line.len() + 1
    } else {
        usize::MAX
    };
    let ws = crate::text::count_ws_prefix(line);
    proof {
        crate::text::lemma_ws_prefix_len(line@);
    }
    if ws == line.len() {
        (start, true, next)
    } else if is_footer_line(line) {
        (if between {
            Some(offset)
        } else {
            start
        }, false, next)
    } else {
        (None, false, next)
    }
}

/// Splits a commit message before its footer. The footer is the last
/// paragraph, after an empty line, when all its lines are footer lines.
pub fn extract_commit_message_footer(message: &str) -> (r: (String, Option<String>))
    ensures
        ({
            let (text, footer) = spec_extract_footer(message@);
            &&& r.0@ == text
            &&& match footer {
                Some(f) => r.1 matches Some(x) && x@ == f,
                None => r.1 is None,
            }
        }),
{
    let s = chars_of(message);
    let n = s.len();
    let mut start: Option<usize> = None;
    let mut between = false;
    let mut offset: usize = 0;
    let mut cur: Vec<char> = Vec::new();
    let mut i: usize = 0;
    assert(s@.take(0) =~= Seq::<char>::empty());
    while i < n
        invariant
            i <= n == s@.len(),
            offset + cur@.len() == i,
            crate::text::split_on(s@.take(i as int), '\n').len() >= 1,
            cur@ == crate::text::split_on(s@.take(i as int), '\n').last(),
            ({
                let (s0, b0, o0) = footer_scan(
                    crate::text::split_on(s@.take(i as int), '\n').drop_last(),
                );
                &&& b0 == between
                &&& o0 == offset
                &&& s0 == match start {
                    Some(x) => Some(x as int),
                    None => None,
                }
                &&& forall|x: usize| start == Some(x) ==> x <= offset
            }),
        decreases n - i,
    {
        let ghost parts = crate::text::split_on(s@.take(i as int), '\n');
        assert(s@.take(i + 1).drop_last() =~= s@.take(i as int));
        let c = s[i];
        if c == '\n' {
            let st = footer_scan_step((start, between, offset), &cur);
            start = st.0;
            between = st.1;
            offset = st.2;
            cur = Vec::new();
            proof {
                let np = crate::text::split_on(s@.take(i + 1), '\n');
                assert(np == parts.push(Seq::empty()));
                assert(np.drop_last() =~= parts);
                assert(parts =~= parts.drop_last().push(parts.last()));
            }
        } else {
            cur.push(c);
            proof {
                let np = crate::text::split_on(s@.take(i + 1), '\n');
                assert(np == parts.update(parts.len() - 1, parts.last().push(c)));
                assert(np.drop_last() =~= parts.drop_last());
            }
        }
        i = i + 1;
    }
    assert(s@.take(n as int) =~= s@);
    let ghost parts = crate::text::split_on(s@, '\n');
    let st = footer_scan_step((start, between, offset), &cur);
    proof {
        assert(parts =~= parts.drop_last().push(parts.last()));
    }
    match st.0 {
        Some(idx) => {
            let text = sub_chars(&s, 0, idx);
            let footer = sub_chars(&s, idx, n);
            assert(text@ =~= s@.take(idx as int));
            assert(footer@ =~= s@.skip(idx as int));
            (string_of(&text), Some(string_of(&footer)))
        },
        None => (string_of(&s), None),
    }
}

/// Whether the commit message has a footer.
pub fn commit_message_has_footer(message: &str) -> (r: bool)
    ensures
        r == spec_extract_footer(message@).1 is Some,
{
    extract_commit_message_footer(message).1.is_some()
}

} // verus!

verus! {

/// Whether `encoding_rs` knows an encoding, other than the replacement one,
/// by this label.
pub uninterp spec fn label_names_encoding(label: Seq<u8>) -> bool;

/// The text that `encoding_rs` decodes from bytes, without BOM handling and
/// malformed sequences replaced, in the encoding that the label names.
pub uninterp spec fn decoded_with_label(label: Seq<u8>, bytes: Seq<u8>) -> Seq<char>;

/// `encoding_rs::Encoding::for_label_no_replacement` on the label, then
/// `decode_without_bom_handling` of the bytes in the encoding it names: the
/// text, when the label names an encoding. Whether it names one, and the
/// text, are named by [`label_names_encoding`] and [`decoded_with_label`].
#[verifier::external_body]
fn decode_with_label(label: &[u8], bytes: &[u8]) -> (r: Option<String>)
    ensures
        r is Some <==> label_names_encoding(label@),
        r matches Some(t) ==> t@ == decoded_with_label(label@, bytes@),
{
    match encoding_rs::Encoding::for_label_no_replacement(label) {
        Some(encoding) => Some(encoding.decode_without_bom_handling(bytes).0.into_owned()),
        None => None,
    }
}

/// The text that `encoding_rs` decodes from bytes as UTF-8 without BOM
/// handling, malformed sequences replaced.
pub uninterp spec fn utf8_decoded(bytes: Seq<u8>) -> Seq<char>;

/// `encoding_rs::UTF_8.decode_without_bom_handling`: the UTF-8 decoding of
/// the bytes and whether malformed sequences were replaced. Its text is named
/// by [`utf8_decoded`]; valid input decodes to its characters without
/// errors, and invalid input reports errors.
#[verifier::external_body]
fn decode_utf8_without_bom(bytes: &[u8]) -> (r: (String, bool))
    ensures
        r.0@ == utf8_decoded(bytes@),
        valid_utf8(bytes@) ==> r.0@ == decode_utf8(bytes@) && !r.1,
        !valid_utf8(bytes@) ==> r.1,
{
    let (text, had_errors) = encoding_rs::UTF_8.decode_without_bom_handling(bytes);
    (text.into_owned(), had_errors)
}

/// The text of a commit message in the encoding that the commit names, or
/// in UTF-8 when it names none or one that is not known; malformed
/// sequences are replaced.
pub fn decode_commit_message(encoding: Option<&[u8]>, message: &[u8]) -> (r: String)
    ensures
        (match encoding {
            None => true,
            Some(label) => !label_names_encoding(label@),
        }) ==> r@ == utf8_decoded(message@),
        (match encoding {
            None => true,
            Some(label) => !label_names_encoding(label@),
        }) && valid_utf8(message@) ==> r@ == decode_utf8(message@),
        (encoding matches Some(label) && label_names_encoding(label@)) ==> r@ == decoded_with_label(
            encoding->0@,
            message@,
        ),
{
    match encoding {
        Some(label) => match decode_with_label(label, message) {
            Some(text) => text,
            None => decode_utf8_without_bom(message).0,
        },
        None => decode_utf8_without_bom(message).0,
    }
}

} // verus!
