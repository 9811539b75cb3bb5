//! Parsing of the output of `git fast-export`, as described in the
//! documentation of `git fast-import`: the commands `commit`, `reset`,
//! `feature done` and `done`, with the original object ids of the commits.
use crate::text::first_index;
use crate::text::has_prefix;
use crate::text::lemma_first_index;
use crate::text::lemma_first_index_some;
use crate::git::bytes_start_with;
use crate::git::bytes_eq;
use crate::git::sub_bytes;
use vstd::prelude::*;

verus! {

/// The keywords of the format.
#[derive(Clone, Copy)]
pub enum Keyword {
    /// `commit `
    Commit,
    /// `mark :`
    Mark,
    /// `original-oid `
    OriginalOid,
    /// `author `
    Author,
    /// `committer `
    Committer,
    /// `encoding `
    Encoding,
    /// `data `
    Data,
    /// `from `
    From,
    /// `merge `
    Merge,
    /// `M `
    Modify,
    /// `D `
    Delete,
    /// `C `
    Copy,
    /// `R `
    Rename,
    /// `deleteall`
    DeleteAll,
    /// `N `
    Note,
    /// `reset `
    Reset,
    /// `done`
    Done,
    /// `feature done`
    FeatureDone,
}

pub open spec fn kw(k: Keyword) -> Seq<u8> {
    match k {
        Keyword::Commit => seq![99u8, 111, 109, 109, 105, 116, 32],
        Keyword::Mark => seq![109u8, 97, 114, 107, 32, 58],
        Keyword::OriginalOid => seq![111u8, 114, 105, 103, 105, 110, 97, 108, 45, 111, 105, 100, 32],
        Keyword::Author => seq![97u8, 117, 116, 104, 111, 114, 32],
        Keyword::Committer => seq![99u8, 111, 109, 109, 105, 116, 116, 101, 114, 32],
        Keyword::Encoding => seq![101u8, 110, 99, 111, 100, 105, 110, 103, 32],
        Keyword::Data => seq![100u8, 97, 116, 97, 32],
        Keyword::From => seq![102u8, 114, 111, 109, 32],
        Keyword::Merge => seq![109u8, 101, 114, 103, 101, 32],
        Keyword::Modify => seq![77u8, 32],
        Keyword::Delete => seq![68u8, 32],
        Keyword::Copy => seq![67u8, 32],
        Keyword::Rename => seq![82u8, 32],
        Keyword::DeleteAll => seq![100u8, 101, 108, 101, 116, 101, 97, 108, 108],
        Keyword::Note => seq![78u8, 32],
        Keyword::Reset => seq![114u8, 101, 115, 101, 116, 32],
        Keyword::Done => seq![100u8, 111, 110, 101],
        Keyword::FeatureDone => seq![102u8, 101, 97, 116, 117, 114, 101, 32, 100, 111, 110, 101],
    }
}

fn kw_bytes(k: Keyword) -> (r: Vec<u8>)
    ensures
        r@ == kw(k),
{
    match k {
        Keyword::Commit => {
            let v: Vec<u8> = vec![99u8, 111, 109, 109, 105, 116, 32];
            assert(v@ =~= kw(k));
            v
        },
        Keyword::Mark => {
            let v: Vec<u8> = vec![109u8, 97, 114, 107, 32, 58];
            assert(v@ =~= kw(k));
            v
        },
        Keyword::OriginalOid => {
            let v: Vec<u8> = vec![111u8, 114, 105, 103, 105, 110, 97, 108, 45, 111, 105, 100, 32];
            assert(v@ =~= kw(k));
            v
        },
        Keyword::Author => {
            let v: Vec<u8> = vec![97u8, 117, 116, 104, 111, 114, 32];
            assert(v@ =~= kw(k));
            v
        },
        Keyword::Committer => {
            let v: Vec<u8> = vec![99u8, 111, 109, 109, 105, 116, 116, 101, 114, 32];
            assert(v@ =~= kw(k));
            v
        },
        Keyword::Encoding => {
            let v: Vec<u8> = vec![101u8, 110, 99, 111, 100, 105, 110, 103, 32];
            assert(v@ =~= kw(k));
            v
        },
        Keyword::Data => {
            let v: Vec<u8> = vec![100u8, 97, 116, 97, 32];
            assert(v@ =~= kw(k));
            v
        },
        Keyword::From => {
            let v: Vec<u8> = vec![102u8, 114, 111, 109, 32];
            assert(v@ =~= kw(k));
            v
        },
        Keyword::Merge => {
            let v: Vec<u8> = vec![109u8, 101, 114, 103, 101, 32];
            assert(v@ =~= kw(k));
            v
        },
        Keyword::Modify => {
            let v: Vec<u8> = vec![77u8, 32];
            assert(v@ =~= kw(k));
            v
        },
        Keyword::Delete => {
            let v: Vec<u8> = vec![68u8, 32];
            assert(v@ =~= kw(k));
            v
        },
        Keyword::Copy => {
            let v: Vec<u8> = vec![67u8, 32];
            assert(v@ =~= kw(k));
            v
        },
        Keyword::Rename => {
            let v: Vec<u8> = vec![82u8, 32];
            assert(v@ =~= kw(k));
            v
        },
        Keyword::DeleteAll => {
            let v: Vec<u8> = vec![100u8, 101, 108, 101, 116, 101, 97, 108, 108];
            assert(v@ =~= kw(k));
            v
        },
        Keyword::Note => {
            let v: Vec<u8> = vec![78u8, 32];
            assert(v@ =~= kw(k));
            v
        },
        Keyword::Reset => {
            let v: Vec<u8> = vec![114u8, 101, 115, 101, 116, 32];
            assert(v@ =~= kw(k));
            v
        },
        Keyword::Done => {
            let v: Vec<u8> = vec![100u8, 111, 110, 101];
            assert(v@ =~= kw(k));
            v
        },
        Keyword::FeatureDone => {
            let v: Vec<u8> = vec![102u8, 101, 97, 116, 117, 114, 101, 32, 100, 111, 110, 101];
            assert(v@ =~= kw(k));
            v
        },
    }
}

/// Why the output of `git fast-export` could not be read.
#[derive(Debug, Clone, Copy, PartialEq, Eq)]
pub enum FastExportError {
    /// A `commit` command was expected.
    ExpectedCommitLine,
    /// The branch of a commit or reset is neither a ref name nor an object id.
    InvalidBranch,
    /// The output ended in the middle of a command.
    UnexpectedEof,
    /// A line does not end with a newline after an ASCII character.
    MissingNewline,
    /// The `original-oid` line of a commit is missing.
    ExpectedOriginalOid,
    /// An object id is not 40 hexadecimal digits.
    BadObjectId,
    /// The `committer` line of a commit is missing.
    ExpectedCommitter,
    /// The `data` line of a commit is missing.
    ExpectedData,
    /// The size of the commit message is no number.
    BadDataLength,
    /// The output ends inside the commit message.
    TruncatedMessage,
    /// A mark that was not defined before.
    UnknownMark,
    /// A `merge` line without a `from` line.
    MergeWithoutFrom,
    /// A `M` line without mode, data reference and path.
    BadFileModify,
    /// A `C` line, which `git fast-export` writes only with `-C`.
    FileCopy,
    /// A `R` line, which `git fast-export` writes only with `-M`.
    FileRename,
    /// A `deleteall` line.
    DeleteAll,
    /// A `N` line.
    NoteModify,
    /// A `reset` command was expected.
    ExpectedResetLine,
    /// A command that is none of the above.
    UnexpectedCommand,
}

/// Reading one line.
pub enum LineRead {
    /// The input has ended.
    Eof,
    /// No newline follows, or the newline may be part of a multi-byte
    /// character.
    Bad,
    /// The line without its newline, and the position after it.
    Line(Seq<u8>, int),
}

/// The line at `pos`.
pub open spec fn read_line(input: Seq<u8>, pos: int) -> LineRead {
    if pos >= input.len() {
        LineRead::Eof
    } else {
        match first_index(input.skip(pos), 10u8) {
            None => LineRead::Bad,
            Some(k) => if k == 0 || input[pos + k - 1] < 128 {
                LineRead::Line(input.subrange(pos, pos + k), pos + k + 1)
            } else {
                LineRead::Bad
            },
        }
    }
}

/// The current line and the position after it.
pub type Cursor = (Seq<u8>, int);

/// The next line, which must be there.
pub open spec fn advance(input: Seq<u8>, pos: int) -> Result<Cursor, FastExportError> {
    match read_line(input, pos) {
        LineRead::Eof => Err(FastExportError::UnexpectedEof),
        LineRead::Bad => Err(FastExportError::MissingNewline),
        LineRead::Line(l, p) => Ok((l, p)),
    }
}

pub proof fn lemma_read_line_moves(input: Seq<u8>, pos: int)
    requires
        0 <= pos,
    ensures
        read_line(input, pos) matches LineRead::Line(l, p) ==> pos < p <= input.len() && l
            == input.subrange(pos, p - 1),
{
    if pos < input.len() {
        lemma_first_index_some(input.skip(pos), 10u8);
    }
}

/// The value of a hexadecimal digit, either case.
pub open spec fn hex_digit(b: u8) -> Option<int> {
    if 48 <= b <= 57 {
        Some(b - 48)
    } else if 97 <= b <= 102 {
        Some(b - 87)
    } else if 65 <= b <= 70 {
        Some(b - 55)
    } else {
        None
    }
}

/// A SHA-1 object id written as 40 hexadecimal digits, as bytes.
pub open spec fn parse_oid(s: Seq<u8>) -> Option<Seq<u8>> {
    if s.len() == 40 && forall|i: int| 0 <= i < 40 ==> (#[trigger] hex_digit(s[i])) is Some {
        Some(Seq::new(20, |i: int| (hex_digit(s[2 * i])->0 * 16 + hex_digit(s[2 * i + 1])->0) as u8))
    } else {
        None
    }
}

/// The value of a string of decimal digits.
pub open spec fn decimal_value(s: Seq<u8>) -> int
    decreases s.len(),
{
    if s.len() == 0 {
        0
    } else {
        decimal_value(s.drop_last()) * 10 + (s.last() - 48)
    }
}

/// Every byte is a decimal digit.
pub open spec fn all_decimal(d: Seq<u8>) -> bool {
    forall|i: int| 0 <= i < d.len() ==> 48 <= #[trigger] d[i] <= 57
}

/// The digits of a number: the bytes after an optional `+`.
pub open spec fn usize_digits(s: Seq<u8>) -> Seq<u8> {
    if s.len() > 0 && s[0] == 43u8 {
        s.skip(1)
    } else {
        s
    }
}

/// `usize::from_str` on bytes: an optional `+`, then one or more digits
/// whose value fits.
pub open spec fn parse_usize(s: Seq<u8>) -> Option<usize> {
    let d = usize_digits(s);
    if d.len() > 0 && all_decimal(d) && decimal_value(d) <= usize::MAX {
        Some(decimal_value(d) as usize)
    } else {
        None
    }
}

/// The object id last recorded for a mark.
pub open spec fn lookup_mark(marks: Seq<(Seq<u8>, Seq<u8>)>, m: Seq<u8>) -> Option<Seq<u8>>
    decreases marks.len(),
{
    if marks.len() == 0 {
        None
    } else if marks.last().0 == m {
        Some(marks.last().1)
    } else {
        lookup_mark(marks.drop_last(), m)
    }
}

/// A commit given as `:<mark>` or as an object id.
pub open spec fn resolve_commit(marks: Seq<(Seq<u8>, Seq<u8>)>, r: Seq<u8>) -> Result<
    Seq<u8>,
    FastExportError,
> {
    if r.len() > 0 && r[0] == 58u8 {
        match lookup_mark(marks, r.skip(1)) {
            Some(o) => Ok(o),
            None => Err(FastExportError::UnknownMark),
        }
    } else {
        match parse_oid(r) {
            Some(o) => Ok(o),
            None => Err(FastExportError::BadObjectId),
        }
    }
}

/// Whether the bytes are a valid full reference name, as
/// `gix_validate::reference::name` decides.
pub uninterp spec fn is_valid_ref_name(name: Seq<u8>) -> bool;

/// `gix_validate::reference::name`, the validation behind gix's `FullName`:
/// whether the bytes are a valid full reference name. Its result is named by
/// [`is_valid_ref_name`]; nothing else is said of it.
#[verifier::external_body]
pub(crate) fn valid_ref_name(name: &[u8]) -> (r: bool)
    ensures
        r == is_valid_ref_name(name@),
{
    gix_validate::reference::name(name.into()).is_ok()
}

/// A changed path of a commit, as values.
pub enum ChangeView {
    Deleted { path: Seq<u8> },
    Modified { mode: Seq<u8>, hash: Seq<u8>, path: Seq<u8> },
}

/// A commit, as values.
pub struct CommitView {
    pub branch: Option<Seq<u8>>,
    pub author_info: Seq<u8>,
    pub committer_info: Seq<u8>,
    pub encoding: Option<Seq<u8>>,
    pub message: Seq<u8>,
    pub file_changes: Seq<ChangeView>,
    pub parents: Seq<Seq<u8>>,
    pub original_id: Seq<u8>,
}

pub open spec fn cursor_view(c: (Vec<u8>, usize)) -> Cursor {
    (c.0@, c.1 as int)
}

/// `<mode> SP <dataref> SP <path>`: the text split at its first two spaces.
pub open spec fn split_modify(d: Seq<u8>) -> Option<(Seq<u8>, Seq<u8>, Seq<u8>)> {
    match first_index(d, 32u8) {
        None => None,
        Some(i) => {
            let rest = d.skip(i + 1);
            match first_index(rest, 32u8) {
                None => None,
                Some(j) => Some((d.take(i), rest.take(j), rest.skip(j + 1))),
            }
        },
    }
}

/// The line starts with the keyword and a value.
pub open spec fn optional_line(input: Seq<u8>, cur: Cursor, k: Keyword) -> Result<
    (Option<Seq<u8>>, Cursor),
    FastExportError,
> {
    if has_prefix(cur.0, kw(k)) {
        match advance(input, cur.1) {
            Ok(c2) => Ok((Some(cur.0.skip(kw(k).len() as int)), c2)),
            Err(e) => Err(e),
        }
    } else {
        Ok((None, cur))
    }
}

/// An empty line is passed over.
pub open spec fn skip_empty_line(input: Seq<u8>, cur: Cursor) -> Result<Cursor, FastExportError> {
    if cur.0.len() == 0 {
        advance(input, cur.1)
    } else {
        Ok(cur)
    }
}

/// The `merge` lines from the current one on: the commits they name.
pub open spec fn read_merges(input: Seq<u8>, marks: Seq<(Seq<u8>, Seq<u8>)>, cur: Cursor) -> Result<
    (Seq<Seq<u8>>, Cursor),
    FastExportError,
>
    decreases input.len() - cur.1,
{
    if !has_prefix(cur.0, kw(Keyword::Merge)) {
        Ok((Seq::empty(), cur))
    } else {
        match resolve_commit(marks, cur.0.skip(6)) {
            Err(e) => Err(e),
            Ok(p) => match advance(input, cur.1) {
                Err(e) => Err(e),
                Ok(next) => if cur.1 < next.1 <= input.len() {
                    match read_merges(input, marks, next) {
                        Ok((ps, c)) => Ok((seq![p] + ps, c)),
                        Err(e) => Err(e),
                    }
                } else {
                    Err(FastExportError::UnexpectedEof)
                },
            },
        }
    }
}

/// The change that a line describes, `None` for a line that is no change.
pub open spec fn change_line(l: Seq<u8>) -> Option<Result<ChangeView, FastExportError>> {
    if has_prefix(l, kw(Keyword::Modify)) {
        match split_modify(l.skip(2)) {
            Some((mode, hash, path)) => Some(Ok(ChangeView::Modified { mode, hash, path })),
            None => Some(Err(FastExportError::BadFileModify)),
        }
    } else if has_prefix(l, kw(Keyword::Delete)) {
        Some(Ok(ChangeView::Deleted { path: l.skip(2) }))
    } else if has_prefix(l, kw(Keyword::Copy)) {
        Some(Err(FastExportError::FileCopy))
    } else if has_prefix(l, kw(Keyword::Rename)) {
        Some(Err(FastExportError::FileRename))
    } else if l == kw(Keyword::DeleteAll) {
        Some(Err(FastExportError::DeleteAll))
    } else if has_prefix(l, kw(Keyword::Note)) {
        Some(Err(FastExportError::NoteModify))
    } else {
        None
    }
}

/// The file change lines from the current one on.
pub open spec fn read_changes(input: Seq<u8>, cur: Cursor) -> Result<
    (Seq<ChangeView>, Cursor),
    FastExportError,
>
    decreases input.len() - cur.1,
{
    match change_line(cur.0) {
        None => Ok((Seq::empty(), cur)),
        Some(Err(e)) => Err(e),
        Some(Ok(change)) => match advance(input, cur.1) {
            Err(e) => Err(e),
            Ok(next) => if cur.1 < next.1 <= input.len() {
                match read_changes(input, next) {
                    Ok((cs, c)) => Ok((seq![change] + cs, c)),
                    Err(e) => Err(e),
                }
            } else {
                Err(FastExportError::UnexpectedEof)
            },
        },
    }
}

/// The parents: a `from` line, then the `merge` lines.
pub open spec fn read_parents(input: Seq<u8>, marks: Seq<(Seq<u8>, Seq<u8>)>, cur: Cursor) -> Result<
    (Seq<Seq<u8>>, Cursor),
    FastExportError,
> {
    if has_prefix(cur.0, kw(Keyword::From)) {
        match resolve_commit(marks, cur.0.skip(5)) {
            Err(e) => Err(e),
            Ok(p) => match advance(input, cur.1) {
                Err(e) => Err(e),
                Ok(c1) => match read_merges(input, marks, c1) {
                    Ok((ms, c2)) => Ok((seq![p] + ms, c2)),
                    Err(e) => Err(e),
                },
            },
        }
    } else if has_prefix(cur.0, kw(Keyword::Merge)) {
        Err(FastExportError::MergeWithoutFrom)
    } else {
        read_merges(input, marks, cur)
    }
}

/// The message of `size` bytes at `pos`, then the line after it, past up to
/// two empty lines.
pub open spec fn read_message(input: Seq<u8>, pos: int, size: int) -> Result<
    (Seq<u8>, Cursor),
    FastExportError,
> {
    if size > input.len() - pos {
        Err(FastExportError::TruncatedMessage)
    } else {
        match advance(input, pos + size) {
            Err(e) => Err(e),
            Ok(c1) => match skip_empty_line(input, c1) {
                Err(e) => Err(e),
                Ok(c2) => match skip_empty_line(input, c2) {
                    Err(e) => Err(e),
                    Ok(c3) => Ok((input.subrange(pos, pos + size), c3)),
                },
            },
        }
    }
}

/// The parents and the file changes of a commit.
pub open spec fn read_commit_rest(
    input: Seq<u8>,
    marks: Seq<(Seq<u8>, Seq<u8>)>,
    cur: Cursor,
) -> Result<(Seq<Seq<u8>>, Seq<ChangeView>, Cursor), FastExportError> {
    match read_parents(input, marks, cur) {
        Err(e) => Err(e),
        Ok((ps, c1)) => match read_changes(input, c1) {
            Err(e) => Err(e),
            Ok((cs, c2)) => Ok((ps, cs, c2)),
        },
    }
}

/// The branch of a `commit` line: a full reference name, or nothing when
/// an object id stands there.
pub open spec fn commit_branch(b: Seq<u8>) -> Result<Option<Seq<u8>>, FastExportError> {
    if is_valid_ref_name(b) {
        Ok(Some(b))
    } else if parse_oid(b) is Some {
        Ok(None)
    } else {
        Err(FastExportError::InvalidBranch)
    }
}

/// A `commit` command at the current line: the commit, the marks with the
/// commit's mark added, and the line after the command.
#[verifier::opaque]
pub open spec fn spec_read_commit(input: Seq<u8>, marks: Seq<(Seq<u8>, Seq<u8>)>, cur: Cursor) -> Result<
    (CommitView, Seq<(Seq<u8>, Seq<u8>)>, Cursor),
    FastExportError,
> {
    if !has_prefix(cur.0, kw(Keyword::Commit)) {
        Err(FastExportError::ExpectedCommitLine)
    } else {
        match commit_branch(cur.0.skip(7)) {
            Err(e) => Err(e),
            Ok(branch) => match advance(input, cur.1) {
                Err(e) => Err(e),
                Ok(c1) => match optional_line(input, c1, Keyword::Mark) {
                    Err(e) => Err(e),
                    Ok((mark, c2)) => if !has_prefix(c2.0, kw(Keyword::OriginalOid)) {
                        Err(FastExportError::ExpectedOriginalOid)
                    } else {
                        match parse_oid(c2.0.skip(13)) {
                            None => Err(FastExportError::BadObjectId),
                            Some(original_id) => {
                                let marks2 = match mark {
                                    Some(m) => marks.push((m, original_id)),
                                    None => marks,
                                };
                                read_commit_after_id(input, marks2, c2.1, branch, original_id)
                            },
                        }
                    },
                },
            },
        }
    }
}

/// The rest of a `commit` command after its `original-oid` line.
pub open spec fn read_commit_after_id(
    input: Seq<u8>,
    marks: Seq<(Seq<u8>, Seq<u8>)>,
    pos: int,
    branch: Option<Seq<u8>>,
    original_id: Seq<u8>,
) -> Result<(CommitView, Seq<(Seq<u8>, Seq<u8>)>, Cursor), FastExportError> {
    match advance(input, pos) {
        Err(e) => Err(e),
        Ok(c3) => match optional_line(input, c3, Keyword::Author) {
            Err(e) => Err(e),
            Ok((author, c4)) => if !has_prefix(c4.0, kw(Keyword::Committer)) {
                Err(FastExportError::ExpectedCommitter)
            } else {
                let committer = c4.0.skip(10);
                match advance(input, c4.1) {
                    Err(e) => Err(e),
                    Ok(c5) => match optional_line(input, c5, Keyword::Encoding) {
                        Err(e) => Err(e),
                        Ok((encoding, c6)) => if !has_prefix(c6.0, kw(Keyword::Data)) {
                            Err(FastExportError::ExpectedData)
                        } else {
                            match parse_usize(c6.0.skip(5)) {
                                None => Err(FastExportError::BadDataLength),
                                Some(size) => match read_message(input, c6.1, size as int) {
                                    Err(e) => Err(e),
                                    Ok((message, c7)) => match read_commit_rest(input, marks, c7) {
                                        Err(e) => Err(e),
                                        Ok((parents, file_changes, c8)) => Ok(
                                            (
                                                CommitView {
                                                    branch,
                                                    author_info: match author {
                                                        Some(a) => a,
                                                        None => committer,
                                                    },
                                                    committer_info: committer,
                                                    encoding,
                                                    message,
                                                    file_changes,
                                                    parents,
                                                    original_id,
                                                },
                                                marks,
                                                c8,
                                            ),
                                        ),
                                    },
                                },
                            }
                        },
                    },
                }
            },
        },
    }
}

/// The value of a hexadecimal digit.
fn hex_digit_exec(b: u8) -> (r: Option<u8>)
    ensures
        match hex_digit(b) {
            Some(v) => r == Some(v as u8) && 0 <= v < 16,
            None => r is None,
        },
{
    if 48 <= b && b <= 57 {
        Some(b - 48)
    } else if 97 <= b && b <= 102 {
        Some(b - 87)
    } else if 65 <= b && b <= 70 {
        Some(b - 55)
    } else {
        None
    }
}

/// A SHA-1 object id written as 40 hexadecimal digits, as its 20 bytes.
pub fn parse_oid_exec(s: &[u8]) -> (r: Option<Vec<u8>>)
    ensures
        match parse_oid(s@) {
            Some(o) => r matches Some(x) && x@ == o,
            None => r is None,
        },
{
    if s.len() != 40 {
        return None;
    }
    let mut v: Vec<u8> = Vec::new();
    let mut i: usize = 0;
    while i < 20
        invariant
            s@.len() == 40,
            i <= 20,
            v@.len() == i,
            forall|j: int| 0 <= j < 2 * i ==> (#[trigger] hex_digit(s@[j])) is Some,
            forall|k: int|
                0 <= k < i ==> #[trigger] v@[k] == (hex_digit(s@[2 * k])->0 * 16 + hex_digit(
                    s@[2 * k + 1],
                )->0) as u8,
        decreases 20 - i,
    {
        let hi = match hex_digit_exec(s[2 * i]) {
            Some(h) => h,
            None => {
                assert(!(hex_digit(s@[2 * i as int]) is Some));
                return None;
            },
        };
        let lo = match hex_digit_exec(s[2 * i + 1]) {
            Some(l) => l,
            None => {
                assert(!(hex_digit(s@[2 * i + 1]) is Some));
                return None;
            },
        };
        v.push(hi * 16 + lo);
        i = i + 1;
    }
    assert(v@ =~= Seq::new(
        20,
        |k: int| (hex_digit(s@[2 * k])->0 * 16 + hex_digit(s@[2 * k + 1])->0) as u8,
    ));
    Some(v)
}

/// Digits keep their value non-negative.
pub proof fn lemma_decimal_value_nonneg(d: Seq<u8>)
    requires
        all_decimal(d),
    ensures
        decimal_value(d) >= 0,
    decreases d.len(),
{
    if d.len() > 0 {
        assert(all_decimal(d.drop_last())) by {
            assert forall|i: int| 0 <= i < d.drop_last().len() implies 48 <= #[trigger] d.drop_last()[i]
                <= 57 by {
                assert(d.drop_last()[i] == d[i]);
            };
        };
        lemma_decimal_value_nonneg(d.drop_last());
    }
}

/// A prefix of the digits has no larger value.
pub proof fn lemma_decimal_value_prefix(d: Seq<u8>, k: int)
    requires
        all_decimal(d),
        0 <= k <= d.len(),
    ensures
        decimal_value(d.take(k)) <= decimal_value(d),
    decreases d.len(),
{
    if k < d.len() {
        assert(all_decimal(d.drop_last())) by {
            assert forall|i: int| 0 <= i < d.drop_last().len() implies 48 <= #[trigger] d.drop_last()[i]
                <= 57 by {
                assert(d.drop_last()[i] == d[i]);
            };
        };
        lemma_decimal_value_prefix(d.drop_last(), k);
        lemma_decimal_value_nonneg(d.drop_last());
        assert(d.drop_last().take(k) =~= d.take(k));
        assert(48 <= d[d.len() - 1] <= 57);
    } else {
        assert(d.take(k) =~= d);
    }
}

/// `usize::from_str` on bytes.
fn parse_usize_exec(s: &[u8]) -> (r: Option<usize>)
    ensures
        r == parse_usize(s@),
{
    let start: usize = if s.len() > 0 && s[0] == 43u8 {
        1
    } else {
        0
    };
    let ghost d = usize_digits(s@);
    assert(d =~= s@.skip(start as int));
    if start == s.len() {
        return None;
    }
    let mut i = start;
    while i < s.len()
        invariant
            start <= i <= s@.len(),
            d == s@.skip(start as int),
            d == usize_digits(s@),
            forall|j: int| start <= j < i ==> 48 <= #[trigger] s@[j] <= 57,
        decreases s.len() - i,
    {
        if !(48 <= s[i] && s[i] <= 57) {
            assert(!(48 <= d[i - start] <= 57));
            return None;
        }
        i = i + 1;
    }
    assert(all_decimal(d)) by {
        assert forall|j: int| 0 <= j < d.len() implies 48 <= #[trigger] d[j] <= 57 by {
            assert(d[j] == s@[start + j]);
        };
    };
    let mut acc: usize = 0;
    let mut i = start;
    while i < s.len()
        invariant
            start <= i <= s@.len(),
            d == s@.skip(start as int),
            d == usize_digits(s@),
            all_decimal(d),
            acc == decimal_value(d.take(i - start)),
        decreases s.len() - i,
    {
        let ghost k = i - start;
        assert(d.take(k + 1).drop_last() =~= d.take(k));
        assert(d.take(k + 1).last() == s@[i as int]);
        let digit = (s[i] - 48) as usize;
        let next = match acc.checked_mul(10) {
            Some(m) => m.checked_add(digit),
            None => None,
        };
        match next {
            Some(n) => {
                acc = n;
            },
            None => {
                proof {
                    lemma_decimal_value_prefix(d, k + 1);
                    assert(decimal_value(d.take(k + 1)) == acc * 10 + (s@[i as int] - 48));
                    assert(decimal_value(d) > usize::MAX);
                }
                return None;
            },
        }
        i = i + 1;
    }
    assert(d.take(d.len() as int) =~= d);
    Some(acc)
}

/// The line at `pos` and the position after it.
fn advance_exec(input: &[u8], pos: usize) -> (r: Result<(Vec<u8>, usize), FastExportError>)
    requires
        pos <= input@.len(),
    ensures
        match advance(input@, pos as int) {
            Ok(c) => r matches Ok(x) && cursor_view(x) == c && pos < x.1 <= input@.len(),
            Err(e) => r matches Err(x) && x == e,
        },
{
    if pos >= input.len() {
        return Err(FastExportError::UnexpectedEof);
    }
    proof {
        lemma_first_index_some(input@.skip(pos as int), 10u8);
    }
    match find_byte(input, 10u8, pos) {
        None => Err(FastExportError::MissingNewline),
        Some(i) => {
            if i == pos || input[i - 1] < 128 {
                let line = sub_bytes(input, pos, i);
                Ok((line, i + 1))
            } else {
                Err(FastExportError::MissingNewline)
            }
        },
    }
}

/// A path that a commit modifies, with its new mode and object id.
#[derive(Debug, Clone, PartialEq, Eq)]
pub struct FileModify {
    pub path: Vec<u8>,
    pub mode: Vec<u8>,
    pub hash: Vec<u8>,
}

/// A path that a commit deletes.
#[derive(Debug, Clone, PartialEq, Eq)]
pub struct FileDelete {
    pub path: Vec<u8>,
}

/// A changed path of a commit.
#[derive(Debug, Clone, PartialEq, Eq)]
pub enum ChangedFile {
    Deleted(FileDelete),
    Modified(FileModify),
}

pub open spec fn change_view(c: ChangedFile) -> ChangeView {
    match c {
        ChangedFile::Deleted(d) => ChangeView::Deleted { path: d.path@ },
        ChangedFile::Modified(m) => ChangeView::Modified {
            mode: m.mode@,
            hash: m.hash@,
            path: m.path@,
        },
    }
}

pub open spec fn changes_view(s: Seq<ChangedFile>) -> Seq<ChangeView> {
    s.map_values(|c: ChangedFile| change_view(c))
}

pub open spec fn bytes_seqs(s: Seq<Vec<u8>>) -> Seq<Seq<u8>> {
    s.map_values(|v: Vec<u8>| v@)
}

pub open spec fn marks_view(s: Seq<(Vec<u8>, Vec<u8>)>) -> Seq<(Seq<u8>, Seq<u8>)> {
    s.map_values(|p: (Vec<u8>, Vec<u8>)| (p.0@, p.1@))
}

pub open spec fn opt_bytes(o: Option<Vec<u8>>) -> Option<Seq<u8>> {
    match o {
        Some(v) => Some(v@),
        None => None,
    }
}

fn copy_bytes(v: &Vec<u8>) -> (r: Vec<u8>)
    ensures
        r@ == v@,
{
    crate::git::bytes_to_vec(v.as_slice())
}

/// The object id last recorded for a mark.
fn lookup_mark_exec(marks: &Vec<(Vec<u8>, Vec<u8>)>, m: &[u8]) -> (r: Option<Vec<u8>>)
    ensures
        match lookup_mark(marks_view(marks@), m@) {
            Some(o) => r matches Some(x) && x@ == o,
            None => r is None,
        },
{
    let ghost mv = marks_view(marks@);
    let mut i = marks.len();
    assert(mv.take(i as int) =~= mv);
    while i > 0
        invariant
            i <= marks@.len(),
            mv == marks_view(marks@),
            lookup_mark(mv.take(i as int), m@) == lookup_mark(mv, m@),
        decreases i,
    {
        assert(mv.take(i as int).drop_last() =~= mv.take(i - 1));
        assert(mv.take(i as int).last() == (marks@[i - 1].0@, marks@[i - 1].1@));
        if bytes_eq(marks[i - 1].0.as_slice(), m) {
            return Some(copy_bytes(&marks[i - 1].1));
        }
        i = i - 1;
    }
    None
}

/// A commit given as `:<mark>` or as an object id.
fn resolve_commit_exec(marks: &Vec<(Vec<u8>, Vec<u8>)>, r: &[u8]) -> (res: Result<
    Vec<u8>,
    FastExportError,
>)
    ensures
        match resolve_commit(marks_view(marks@), r@) {
            Ok(o) => res matches Ok(x) && x@ == o,
            Err(e) => res == Err::<Vec<u8>, FastExportError>(e),
        },
{
    if r.len() > 0 && r[0] == 58u8 {
        let m = sub_bytes(r, 1, r.len());
        assert(m@ =~= r@.skip(1));
        match lookup_mark_exec(marks, m.as_slice()) {
            Some(o) => Ok(o),
            None => Err(FastExportError::UnknownMark),
        }
    } else {
        match parse_oid_exec(r) {
            Some(o) => Ok(o),
            None => Err(FastExportError::BadObjectId),
        }
    }
}

fn find_byte(s: &[u8], b: u8, from: usize) -> (r: Option<usize>)
    requires
        from <= s@.len(),
    ensures
        match r {
            Some(i) => from <= i < s@.len() && first_index(s@.skip(from as int), b) == Some(
                i - from,
            ),
            None => first_index(s@.skip(from as int), b) is None,
        },
{
    let ghost rest = s@.skip(from as int);
    let mut i = from;
    while i < s.len() && s[i] != b
        invariant
            from <= i <= s@.len(),
            rest == s@.skip(from as int),
            forall|j: int| 0 <= j < i - from ==> rest[j] != b,
        decreases s.len() - i,
    {
        i = i + 1;
    }
    if i == s.len() {
        proof {
            lemma_first_index(rest, b, rest.len() as int);
        }
        None
    } else {
        proof {
            lemma_first_index(rest, b, i - from);
        }
        Some(i)
    }
}

/// `<mode> SP <dataref> SP <path>`.
fn split_modify_exec(d: &[u8]) -> (r: Option<(Vec<u8>, Vec<u8>, Vec<u8>)>)
    ensures
        match split_modify(d@) {
            Some((a, b, c)) => r matches Some(x) && x.0@ == a && x.1@ == b && x.2@ == c,
            None => r is None,
        },
{
    assert(d@.skip(0) =~= d@);
    let n = d.len();
    match find_byte(d, 32u8, 0) {
        None => None,
        Some(i) => {
            assert(first_index(d@, 32u8) == Some(i as int));
            let ghost rest = d@.skip(i + 1);
            match find_byte(d, 32u8, i + 1) {
                None => None,
                Some(j) => {
                    let a = sub_bytes(d, 0, i);
                    let b = sub_bytes(d, i + 1, j);
                    let c = sub_bytes(d, j + 1, n);
                    assert(a@ =~= d@.take(i as int));
                    assert(b@ =~= rest.take(j - i - 1));
                    assert(c@ =~= rest.skip(j - i - 1 + 1));
                    Some((a, b, c))
                },
            }
        },
    }
}

/// Whether `s` starts with the keyword.
fn starts_with_kw(s: &[u8], k: Keyword) -> (r: bool)
    ensures
        r == has_prefix(s@, kw(k)),
{
    let p = kw_bytes(k);
    bytes_start_with(s, p.as_slice())
}

/// The `merge` lines from the current one on.
fn read_merges_exec(input: &[u8], marks: &Vec<(Vec<u8>, Vec<u8>)>, start: (Vec<u8>, usize)) -> (r:
    Result<(Vec<Vec<u8>>, (Vec<u8>, usize)), FastExportError>)
    requires
        start.1 <= input@.len(),
    ensures
        match read_merges(input@, marks_view(marks@), cursor_view(start)) {
            Ok((ps, c)) => r matches Ok(x) && bytes_seqs(x.0@) == ps && cursor_view(x.1) == c
                && x.1.1 <= input@.len(),
            Err(e) => r matches Err(x) && x == e,
        },
{
    let ghost mv = marks_view(marks@);
    let ghost target = read_merges(input@, mv, cursor_view(start));
    let mut cur = start;
    let mut acc: Vec<Vec<u8>> = Vec::new();
    loop
        invariant
            mv == marks_view(marks@),
            target == read_merges(input@, mv, cursor_view(start)),
            cur.1 <= input@.len(),
            target == match read_merges(input@, mv, cursor_view(cur)) {
                Ok((ps, c)) => Ok((bytes_seqs(acc@) + ps, c)),
                Err(e) => Err(e),
            },
        decreases input@.len() - cur.1,
    {
        if !starts_with_kw(cur.0.as_slice(), Keyword::Merge) {
            assert(bytes_seqs(acc@) + Seq::<Seq<u8>>::empty() =~= bytes_seqs(acc@));
            return Ok((acc, cur));
        }
        let r = sub_bytes(cur.0.as_slice(), 6, cur.0.len());
        assert(r@ =~= cur.0@.skip(6));
        let p = match resolve_commit_exec(marks, r.as_slice()) {
            Ok(p) => p,
            Err(e) => {
                return Err(e);
            },
        };
        let next = match advance_exec(input, cur.1) {
            Ok(c) => c,
            Err(e) => {
                return Err(e);
            },
        };
        proof {
            lemma_read_line_moves(input@, cur.1 as int);
        }
        let ghost old_acc = bytes_seqs(acc@);
        acc.push(p);
        proof {
            assert(bytes_seqs(acc@) =~= old_acc.push(p@));
            match read_merges(input@, mv, cursor_view(next)) {
                Ok((ps, c)) => {
                    assert(old_acc + (seq![p@] + ps) =~= bytes_seqs(acc@) + ps);
                },
                Err(e) => {},
            }
        }
        cur = next;
    }
}

/// The file change lines from the current one on.
fn read_changes_exec(input: &[u8], start: (Vec<u8>, usize)) -> (r: Result<
    (Vec<ChangedFile>, (Vec<u8>, usize)),
    FastExportError,
>)
    requires
        start.1 <= input@.len(),
    ensures
        match read_changes(input@, cursor_view(start)) {
            Ok((cs, c)) => r matches Ok(x) && changes_view(x.0@) == cs && cursor_view(x.1) == c
                && x.1.1 <= input@.len(),
            Err(e) => r matches Err(x) && x == e,
        },
{
    let ghost target = read_changes(input@, cursor_view(start));
    let mut cur = start;
    let mut acc: Vec<ChangedFile> = Vec::new();
    let del = kw_bytes(Keyword::DeleteAll);
    loop
        invariant
            target == read_changes(input@, cursor_view(start)),
            cur.1 <= input@.len(),
            del@ == kw(Keyword::DeleteAll),
            target == match read_changes(input@, cursor_view(cur)) {
                Ok((cs, c)) => Ok((changes_view(acc@) + cs, c)),
                Err(e) => Err(e),
            },
        decreases input@.len() - cur.1,
    {
        let l = cur.0.as_slice();
        let change: ChangedFile;
        if starts_with_kw(l, Keyword::Modify) {
            let d = sub_bytes(l, 2, l.len());
            assert(d@ =~= l@.skip(2));
            match split_modify_exec(d.as_slice()) {
                Some((mode, hash, path)) => {
                    change = ChangedFile::Modified(FileModify { path, mode, hash });
                },
                None => {
                    return Err(FastExportError::BadFileModify);
                },
            }
        } else if starts_with_kw(l, Keyword::Delete) {
            let d = sub_bytes(l, 2, l.len());
            assert(d@ =~= l@.skip(2));
            change = ChangedFile::Deleted(FileDelete { path: d });
        } else if starts_with_kw(l, Keyword::Copy) {
            return Err(FastExportError::FileCopy);
        } else if starts_with_kw(l, Keyword::Rename) {
            return Err(FastExportError::FileRename);
        } else if bytes_eq(l, del.as_slice()) {
            return Err(FastExportError::DeleteAll);
        } else if starts_with_kw(l, Keyword::Note) {
            return Err(FastExportError::NoteModify);
        } else {
            assert(changes_view(acc@) + Seq::<ChangeView>::empty() =~= changes_view(acc@));
            return Ok((acc, cur));
        }
        let next = match advance_exec(input, cur.1) {
            Ok(c) => c,
            Err(e) => {
                return Err(e);
            },
        };
        proof {
            lemma_read_line_moves(input@, cur.1 as int);
        }
        let ghost old_acc = changes_view(acc@);
        let ghost cv = change_view(change);
        acc.push(change);
        proof {
            assert(changes_view(acc@) =~= old_acc.push(cv));
            match read_changes(input@, cursor_view(next)) {
                Ok((cs, c)) => {
                    assert(old_acc + (seq![cv] + cs) =~= changes_view(acc@) + cs);
                },
                Err(e) => {},
            }
        }
        cur = next;
    }
}

fn optional_line_exec(input: &[u8], cur: (Vec<u8>, usize), k: Keyword) -> (r: Result<
    (Option<Vec<u8>>, (Vec<u8>, usize)),
    FastExportError,
>)
    requires
        cur.1 <= input@.len(),
    ensures
        match optional_line(input@, cursor_view(cur), k) {
            Ok((v, c)) => r matches Ok(x) && opt_bytes(x.0) == v && cursor_view(x.1) == c
                && x.1.1 <= input@.len(),
            Err(e) => r matches Err(x) && x == e,
        },
{
    if starts_with_kw(cur.0.as_slice(), k) {
        let n = kw_bytes(k).len();
        let v = sub_bytes(cur.0.as_slice(), n, cur.0.len());
        assert(v@ =~= cur.0@.skip(kw(k).len() as int));
        match advance_exec(input, cur.1) {
            Ok(c2) => Ok((Some(v), c2)),
            Err(e) => Err(e),
        }
    } else {
        Ok((None, cur))
    }
}

fn skip_empty_line_exec(input: &[u8], cur: (Vec<u8>, usize)) -> (r: Result<
    (Vec<u8>, usize),
    FastExportError,
>)
    requires
        cur.1 <= input@.len(),
    ensures
        match skip_empty_line(input@, cursor_view(cur)) {
            Ok(c) => r matches Ok(x) && cursor_view(x) == c && x.1 <= input@.len(),
            Err(e) => r matches Err(x) && x == e,
        },
{
    if cur.0.len() == 0 {
        advance_exec(input, cur.1)
    } else {
        Ok(cur)
    }
}

fn read_parents_exec(input: &[u8], marks: &Vec<(Vec<u8>, Vec<u8>)>, cur: (Vec<u8>, usize)) -> (r:
    Result<(Vec<Vec<u8>>, (Vec<u8>, usize)), FastExportError>)
    requires
        cur.1 <= input@.len(),
    ensures
        match read_parents(input@, marks_view(marks@), cursor_view(cur)) {
            Ok((ps, c)) => r matches Ok(x) && bytes_seqs(x.0@) == ps && cursor_view(x.1) == c
                && x.1.1 <= input@.len(),
            Err(e) => r matches Err(x) && x == e,
        },
{
    let mut parents: Vec<Vec<u8>> = Vec::new();
    let c1: (Vec<u8>, usize);
    if starts_with_kw(cur.0.as_slice(), Keyword::From) {
        let rf = sub_bytes(cur.0.as_slice(), 5, cur.0.len());
        assert(rf@ =~= cur.0@.skip(5));
        let p = match resolve_commit_exec(marks, rf.as_slice()) {
            Ok(p) => p,
            Err(e) => {
                return Err(e);
            },
        };
        c1 = match advance_exec(input, cur.1) {
            Ok(c) => c,
            Err(e) => {
                return Err(e);
            },
        };
        parents.push(p);
        assert(bytes_seqs(parents@) =~= seq![p@]);
    } else if starts_with_kw(cur.0.as_slice(), Keyword::Merge) {
        return Err(FastExportError::MergeWithoutFrom);
    } else {
        c1 = cur;
        assert(bytes_seqs(parents@) =~= Seq::<Seq<u8>>::empty());
    }
    let ghost first = bytes_seqs(parents@);
    match read_merges_exec(input, marks, c1) {
        Ok((ms, c2)) => {
            let mut i: usize = 0;
            while i < ms.len()
                invariant
                    i <= ms@.len(),
                    bytes_seqs(parents@) == first + bytes_seqs(ms@).take(i as int),
                decreases ms.len() - i,
            {
                let ghost before = bytes_seqs(parents@);
                let c = copy_bytes(&ms[i]);
                parents.push(c);
                assert(bytes_seqs(parents@) =~= before.push(ms@[i as int]@));
                assert(bytes_seqs(ms@).take(i + 1) =~= bytes_seqs(ms@).take(i as int).push(
                    ms@[i as int]@,
                ));
                assert(bytes_seqs(parents@) =~= first + bytes_seqs(ms@).take(i + 1));
                i = i + 1;
            }
            assert(bytes_seqs(ms@).take(ms@.len() as int) =~= bytes_seqs(ms@));
            Ok((parents, c2))
        },
        Err(e) => Err(e),
    }
}

fn read_message_exec(input: &[u8], pos: usize, size: usize) -> (r: Result<
    (Vec<u8>, (Vec<u8>, usize)),
    FastExportError,
>)
    requires
        pos <= input@.len(),
    ensures
        match read_message(input@, pos as int, size as int) {
            Ok((m, c)) => r matches Ok(x) && x.0@ == m && cursor_view(x.1) == c && x.1.1
                <= input@.len(),
            Err(e) => r matches Err(x) && x == e,
        },
{
    if size > input.len() - pos {
        return Err(FastExportError::TruncatedMessage);
    }
    let message = sub_bytes(input, pos, pos + size);
    let c1 = match advance_exec(input, pos + size) {
        Ok(c) => c,
        Err(e) => {
            return Err(e);
        },
    };
    let c2 = match skip_empty_line_exec(input, c1) {
        Ok(c) => c,
        Err(e) => {
            return Err(e);
        },
    };
    let c3 = match skip_empty_line_exec(input, c2) {
        Ok(c) => c,
        Err(e) => {
            return Err(e);
        },
    };
    Ok((message, c3))
}

fn read_commit_rest_exec(
    input: &[u8],
    marks: &Vec<(Vec<u8>, Vec<u8>)>,
    cur: (Vec<u8>, usize),
) -> (r: Result<(Vec<Vec<u8>>, Vec<ChangedFile>, (Vec<u8>, usize)), FastExportError>)
    requires
        cur.1 <= input@.len(),
    ensures
        match read_commit_rest(input@, marks_view(marks@), cursor_view(cur)) {
            Ok((ps, cs, c)) => r matches Ok(x) && bytes_seqs(x.0@) == ps && changes_view(x.1@)
                == cs && cursor_view(x.2) == c && x.2.1 <= input@.len(),
            Err(e) => r matches Err(x) && x == e,
        },
{
    match read_parents_exec(input, marks, cur) {
        Err(e) => Err(e),
        Ok((parents, c1)) => match read_changes_exec(input, c1) {
            Err(e) => Err(e),
            Ok((changes, c2)) => Ok((parents, changes, c2)),
        },
    }
}

/// A commit read from the output of `git fast-export`.
#[derive(Debug)]
pub struct FastExportCommit {
    pub branch: Option<Vec<u8>>,
    pub author_info: Vec<u8>,
    pub committer_info: Vec<u8>,
    pub encoding: Option<Vec<u8>>,
    pub message: Vec<u8>,
    pub file_changes: Vec<ChangedFile>,
    pub parents: Vec<Vec<u8>>,
    pub original_id: Vec<u8>,
}

pub open spec fn commit_view(c: FastExportCommit) -> CommitView {
    CommitView {
        branch: opt_bytes(c.branch),
        author_info: c.author_info@,
        committer_info: c.committer_info@,
        encoding: opt_bytes(c.encoding),
        message: c.message@,
        file_changes: changes_view(c.file_changes@),
        parents: bytes_seqs(c.parents@),
        original_id: c.original_id@,
    }
}

fn read_commit_exec(input: &[u8], marks: &mut Vec<(Vec<u8>, Vec<u8>)>, cur: (Vec<u8>, usize)) -> (r:
    Result<(FastExportCommit, (Vec<u8>, usize)), FastExportError>)
    requires
        cur.1 <= input@.len(),
    ensures
        match spec_read_commit(input@, marks_view(old(marks)@), cursor_view(cur)) {
            Ok((c, m2, c2)) => r matches Ok(x) && commit_view(x.0) == c && marks_view(
                final(marks)@,
            ) == m2 && cursor_view(x.1) == c2 && x.1.1 <= input@.len(),
            Err(e) => r matches Err(x) && x == e,
        },
{
    reveal(spec_read_commit);
    if !starts_with_kw(cur.0.as_slice(), Keyword::Commit) {
        return Err(FastExportError::ExpectedCommitLine);
    }
    let b = sub_bytes(cur.0.as_slice(), 7, cur.0.len());
    assert(b@ =~= cur.0@.skip(7));
    let branch: Option<Vec<u8>> = if valid_ref_name(b.as_slice()) {
        Some(b)
    } else if parse_oid_exec(b.as_slice()).is_some() {
        None
    } else {
        return Err(FastExportError::InvalidBranch);
    };
    let c1 = match advance_exec(input, cur.1) {
        Ok(c) => c,
        Err(e) => {
            return Err(e);
        },
    };
    let (mark, c2) = match optional_line_exec(input, c1, Keyword::Mark) {
        Ok(x) => x,
        Err(e) => {
            return Err(e);
        },
    };
    if !starts_with_kw(c2.0.as_slice(), Keyword::OriginalOid) {
        return Err(FastExportError::ExpectedOriginalOid);
    }
    let o = sub_bytes(c2.0.as_slice(), 13, c2.0.len());
    assert(o@ =~= c2.0@.skip(13));
    let original_id = match parse_oid_exec(o.as_slice()) {
        Some(x) => x,
        None => {
            return Err(FastExportError::BadObjectId);
        },
    };
    let ghost m0 = marks_view(marks@);
    match mark {
        Some(m) => {
            let id = copy_bytes(&original_id);
            marks.push((m, id));
            assert(marks_view(marks@) =~= m0.push((m@, original_id@)));
        },
        None => {},
    }
    let c3 = match advance_exec(input, c2.1) {
        Ok(c) => c,
        Err(e) => {
            return Err(e);
        },
    };
    let (author, c4) = match optional_line_exec(input, c3, Keyword::Author) {
        Ok(x) => x,
        Err(e) => {
            return Err(e);
        },
    };
    if !starts_with_kw(c4.0.as_slice(), Keyword::Committer) {
        return Err(FastExportError::ExpectedCommitter);
    }
    let committer = sub_bytes(c4.0.as_slice(), 10, c4.0.len());
    assert(committer@ =~= c4.0@.skip(10));
    let c5 = match advance_exec(input, c4.1) {
        Ok(c) => c,
        Err(e) => {
            return Err(e);
        },
    };
    let (encoding, c6) = match optional_line_exec(input, c5, Keyword::Encoding) {
        Ok(x) => x,
        Err(e) => {
            return Err(e);
        },
    };
    if !starts_with_kw(c6.0.as_slice(), Keyword::Data) {
        return Err(FastExportError::ExpectedData);
    }
    let ds = sub_bytes(c6.0.as_slice(), 5, c6.0.len());
    assert(ds@ =~= c6.0@.skip(5));
    let size = match parse_usize_exec(ds.as_slice()) {
        Some(n) => n,
        None => {
            return Err(FastExportError::BadDataLength);
        },
    };
    let (message, c7) = match read_message_exec(input, c6.1, size) {
        Ok(x) => x,
        Err(e) => {
            return Err(e);
        },
    };
    let (parents, file_changes, c8) = match read_commit_rest_exec(input, marks, c7) {
        Ok(x) => x,
        Err(e) => {
            return Err(e);
        },
    };
    let author_info = match author {
        Some(a) => a,
        None => copy_bytes(&committer),
    };
    Ok(
        (
            FastExportCommit {
                branch,
                author_info,
                committer_info: committer,
                encoding,
                message,
                file_changes,
                parents,
                original_id,
            },
            c8,
        ),
    )
}

/// A `reset` command: the branch and the commit it is reset to, or nothing
/// for a reset without `from` line, which leaves the line after the `reset`
/// line current.
#[verifier::opaque]
pub open spec fn spec_read_reset(input: Seq<u8>, marks: Seq<(Seq<u8>, Seq<u8>)>, cur: Cursor) -> Result<
    (Option<(Seq<u8>, Seq<u8>)>, Cursor),
    FastExportError,
> {
    if !has_prefix(cur.0, kw(Keyword::Reset)) {
        Err(FastExportError::ExpectedResetLine)
    } else {
        let branch = cur.0.skip(6);
        match advance(input, cur.1) {
            Err(e) => Err(e),
            Ok(c1) => if !has_prefix(c1.0, kw(Keyword::From)) {
                Ok((None, c1))
            } else {
                match resolve_commit(marks, c1.0.skip(5)) {
                    Err(e) => Err(e),
                    Ok(from) => if !is_valid_ref_name(branch) {
                        Err(FastExportError::InvalidBranch)
                    } else {
                        match advance(input, c1.1) {
                            Err(e) => Err(e),
                            Ok(c2) => Ok((Some((branch, from)), c2)),
                        }
                    },
                }
            },
        }
    }
}

fn read_reset_exec(input: &[u8], marks: &Vec<(Vec<u8>, Vec<u8>)>, cur: (Vec<u8>, usize)) -> (r:
    Result<(Option<(Vec<u8>, Vec<u8>)>, (Vec<u8>, usize)), FastExportError>)
    requires
        cur.1 <= input@.len(),
    ensures
        match spec_read_reset(input@, marks_view(marks@), cursor_view(cur)) {
            Ok((v, c)) => r matches Ok(x) && cursor_view(x.1) == c && x.1.1 <= input@.len()
                && match v {
                Some((b, f)) => x.0 matches Some(y) && y.0@ == b && y.1@ == f,
                None => x.0 is None,
            },
            Err(e) => r matches Err(x) && x == e,
        },
        r matches Ok(x) ==> cur.1 < x.1.1,
{
    reveal(spec_read_reset);
    if !starts_with_kw(cur.0.as_slice(), Keyword::Reset) {
        return Err(FastExportError::ExpectedResetLine);
    }
    let branch = sub_bytes(cur.0.as_slice(), 6, cur.0.len());
    assert(branch@ =~= cur.0@.skip(6));
    let c1 = match advance_exec(input, cur.1) {
        Ok(c) => c,
        Err(e) => {
            return Err(e);
        },
    };
    if !starts_with_kw(c1.0.as_slice(), Keyword::From) {
        return Ok((None, c1));
    }
    let f = sub_bytes(c1.0.as_slice(), 5, c1.0.len());
    assert(f@ =~= c1.0@.skip(5));
    let from = match resolve_commit_exec(marks, f.as_slice()) {
        Ok(x) => x,
        Err(e) => {
            return Err(e);
        },
    };
    if !valid_ref_name(branch.as_slice()) {
        return Err(FastExportError::InvalidBranch);
    }
    let c2 = match advance_exec(input, c1.1) {
        Ok(c) => c,
        Err(e) => {
            return Err(e);
        },
    };
    Ok((Some((branch, from)), c2))
}

/// An entry of the output: a commit, or a reset of a branch to a commit.
pub enum EntryView {
    Commit(CommitView),
    Reset { branch: Seq<u8>, from: Seq<u8> },
}

/// The marks seen and the current line.
pub type ParserState = (Seq<(Seq<u8>, Seq<u8>)>, Cursor);

pub enum NextEntry {
    /// `done` or the end of the output.
    Done(ParserState),
    Entry(EntryView, ParserState),
    Failed(FastExportError),
}

/// The next entry: empty lines and `feature done` are skipped, as are
/// resets without `from` line; `done` or the end of the output ends the
/// entries.
pub open spec fn spec_next_entry(input: Seq<u8>, st: ParserState) -> NextEntry
    decreases input.len() - st.1.1,
{
    let (marks, cur) = st;
    let line = cur.0;
    if line == kw(Keyword::Done) {
        NextEntry::Done(st)
    } else if has_prefix(line, kw(Keyword::Commit)) {
        match spec_read_commit(input, marks, cur) {
            Err(e) => NextEntry::Failed(e),
            Ok((c, m2, c2)) => NextEntry::Entry(EntryView::Commit(c), (m2, c2)),
        }
    } else if has_prefix(line, kw(Keyword::Reset)) {
        match spec_read_reset(input, marks, cur) {
            Err(e) => NextEntry::Failed(e),
            Ok((Some((branch, from)), c2)) => NextEntry::Entry(EntryView::Reset { branch, from }, (marks, c2)),
            Ok((None, c2)) => if cur.1 < c2.1 <= input.len() {
                spec_next_entry(input, (marks, c2))
            } else {
                NextEntry::Failed(FastExportError::UnexpectedEof)
            },
        }
    } else if !(line.len() == 0 || line == kw(Keyword::FeatureDone)) {
        NextEntry::Failed(FastExportError::UnexpectedCommand)
    } else {
        if 0 <= cur.1 {
            proof {
                lemma_read_line_moves(input, cur.1);
            }
            match read_line(input, cur.1) {
                LineRead::Eof => NextEntry::Done(st),
                LineRead::Bad => NextEntry::Failed(FastExportError::MissingNewline),
                LineRead::Line(l, p) => spec_next_entry(input, (marks, (l, p))),
            }
        } else {
            NextEntry::Failed(FastExportError::UnexpectedEof)
        }
    }
}

/// A reset of a branch to a commit.
#[derive(Debug)]
pub struct FastExportReset {
    pub branch: Vec<u8>,
    pub from: Vec<u8>,
}

/// An entry of the output of `git fast-export`.
#[derive(Debug)]
pub enum FastExportEntry {
    Commit(FastExportCommit),
    Reset(FastExportReset),
}

pub open spec fn entry_view(e: FastExportEntry) -> EntryView {
    match e {
        FastExportEntry::Commit(c) => EntryView::Commit(commit_view(c)),
        FastExportEntry::Reset(r) => EntryView::Reset { branch: r.branch@, from: r.from@ },
    }
}

/// Reads the output of `git fast-export --no-data --show-original-ids
/// --use-done-feature` entry by entry.
pub struct FastExportParser {
    input: Vec<u8>,
    pos: usize,
    current_line: Vec<u8>,
    marks: Vec<(Vec<u8>, Vec<u8>)>,
}

impl FastExportParser {
    /// The position is inside the output.
    pub closed spec fn wf(self) -> bool {
        self.pos <= self.input@.len()
    }

    /// The output being read.
    pub closed spec fn input(self) -> Seq<u8> {
        self.input@
    }

    /// The marks seen and the current line, with the position after it.
    pub closed spec fn state(self) -> ParserState {
        (marks_view(self.marks@), (self.current_line@, self.pos as int))
    }

    /// A parser at the start of the output.
    pub fn new(input: Vec<u8>) -> (r: Self)
        ensures
            r.wf(),
            r.input() == input@,
            r.state() == (Seq::<(Seq<u8>, Seq<u8>)>::empty(), (Seq::<u8>::empty(), 0int)),
    {
        let r = FastExportParser { input, pos: 0, current_line: Vec::new(), marks: Vec::new() };
        assert(marks_view(r.marks@) =~= Seq::<(Seq<u8>, Seq<u8>)>::empty());
        r
    }

    /// Reads the `commit` command at the current line.
    pub fn read_commit(&mut self) -> (r: Result<FastExportCommit, FastExportError>)
        requires
            old(self).wf(),
        ensures
            final(self).wf(),
            final(self).input() == old(self).input(),
            match spec_read_commit(old(self).input(), old(self).state().0, old(self).state().1) {
                Ok((c, m2, c2)) => r matches Ok(x) && commit_view(x) == c && final(self).state()
                    == (m2, c2),
                Err(e) => r matches Err(x) && x == e,
            },
    {
        let cur = (copy_bytes(&self.current_line), self.pos);
        match read_commit_exec(self.input.as_slice(), &mut self.marks, cur) {
            Ok((c, (line, p))) => {
                self.current_line = line;
                self.pos = p;
                Ok(c)
            },
            Err(e) => Err(e),
        }
    }

    /// Reads the `reset` command at the current line: `None` for a reset
    /// without `from` line.
    pub fn read_reset(&mut self) -> (r: Result<Option<FastExportReset>, FastExportError>)
        requires
            old(self).wf(),
        ensures
            final(self).wf(),
            final(self).input() == old(self).input(),
            match spec_read_reset(old(self).input(), old(self).state().0, old(self).state().1) {
                Ok((v, c)) => final(self).state() == (old(self).state().0, c) && match v {
                    Some((b, f)) => r matches Ok(Some(x)) && x.branch@ == b && x.from@ == f,
                    None => r matches Ok(None),
                },
                Err(e) => r matches Err(x) && x == e,
            },
    {
        let cur = (copy_bytes(&self.current_line), self.pos);
        match read_reset_exec(self.input.as_slice(), &self.marks, cur) {
            Ok((v, (line, p))) => {
                self.current_line = line;
                self.pos = p;
                match v {
                    Some((branch, from)) => Ok(Some(FastExportReset { branch, from })),
                    None => Ok(None),
                }
            },
            Err(e) => Err(e),
        }
    }

    /// The next entry of the output, `None` after `done` or at its end.
    pub fn next_entry(&mut self) -> (r: Option<Result<FastExportEntry, FastExportError>>)
        requires
            old(self).wf(),
        ensures
            final(self).wf(),
            final(self).input() == old(self).input(),
            match spec_next_entry(old(self).input(), old(self).state()) {
                NextEntry::Done(st) => r is None && final(self).state() == st,
                NextEntry::Entry(e, st) => r matches Some(Ok(x)) && entry_view(x) == e
                    && final(self).state() == st,
                NextEntry::Failed(e) => r matches Some(Err(x)) && x == e,
            },
    {
        let ghost input = self.input@;
        let ghost target = spec_next_entry(input, self.state());
        let done = kw_bytes(Keyword::Done);
        let feature_done = kw_bytes(Keyword::FeatureDone);
        loop
            invariant
                self.wf(),
                self.input@ == input,
                input == old(self).input(),
                target == spec_next_entry(old(self).input(), old(self).state()),
                done@ == kw(Keyword::Done),
                feature_done@ == kw(Keyword::FeatureDone),
                target == spec_next_entry(input, self.state()),
            decreases input.len() - self.pos,
        {
            let ghost st = self.state();
            if bytes_eq(self.current_line.as_slice(), done.as_slice()) {
                return None;
            } else if starts_with_kw(self.current_line.as_slice(), Keyword::Commit) {
                return match self.read_commit() {
                    Ok(c) => Some(Ok(FastExportEntry::Commit(c))),
                    Err(e) => Some(Err(e)),
                };
            } else if starts_with_kw(self.current_line.as_slice(), Keyword::Reset) {
                let cur = (copy_bytes(&self.current_line), self.pos);
                match read_reset_exec(self.input.as_slice(), &self.marks, cur) {
                    Ok((Some((branch, from)), (line, p))) => {
                        self.current_line = line;
                        self.pos = p;
                        return Some(Ok(FastExportEntry::Reset(FastExportReset { branch, from })));
                    },
                    Ok((None, (line, p))) => {
                        self.current_line = line;
                        self.pos = p;
                    },
                    Err(e) => {
                        return Some(Err(e));
                    },
                }
            } else if !(self.current_line.len() == 0 || bytes_eq(
                self.current_line.as_slice(),
                feature_done.as_slice(),
            )) {
                return Some(Err(FastExportError::UnexpectedCommand));
            } else {
                if self.pos >= self.input.len() {
                    return None;
                }
                proof {
                    lemma_read_line_moves(input, self.pos as int);
                }
                match advance_exec(self.input.as_slice(), self.pos) {
                    Ok((line, p)) => {
                        self.current_line = line;
                        self.pos = p;
                    },
                    Err(e) => {
                        return Some(Err(e));
                    },
                }
            }
        }
    }
}

} // verus!
