//! Parsing of `.gitreview` files.
use crate::text::chars_eq;
use crate::text::chars_of;
use crate::text::lines_chars;
use crate::text::lines_of;
use crate::text::parse_i32;
use crate::text::spec_parse_i32;
use crate::text::split_once;
use crate::text::split_once_chars;
use crate::text::string_of;
use crate::text::trim;
use crate::text::trim_chars;
use crate::text::vv;
use vstd::prelude::*;

verus! {

/// The Gerrit server and project that a `.gitreview` file names.
pub struct GitReview {
    pub host: String,
    pub project: String,
    pub port: Option<i32>,
}

/// Why a `.gitreview` file could not be parsed.
pub enum GitReviewError {
    /// A line that is neither `key=value` with a known key nor the
    /// `[gerrit]` section header.
    UnparsableLine { line: String },
    /// A `port` value that is not an `i32`.
    InvalidPort { value: String },
}

/// What stands in for a host or project that the file does not give.
pub const SENTINEL_VALUE: &'static str = "git-toprepo::gitreview::SENTINEL_VALUE::PARSER_ERROR";

/// The values read so far: host, project and port.
pub type ReviewFields = (Seq<char>, Seq<char>, Option<i32>);

/// Why parsing stopped, with the offending line or port value.
pub enum ReviewFault {
    Line(Seq<char>),
    Port(Seq<char>),
}

pub open spec fn host_key() -> Seq<char> {
    seq!['h', 'o', 's', 't']
}

pub open spec fn project_key() -> Seq<char> {
    seq!['p', 'r', 'o', 'j', 'e', 'c', 't']
}

pub open spec fn port_key() -> Seq<char> {
    seq!['p', 'o', 'r', 't']
}

pub open spec fn gerrit_header() -> Seq<char> {
    seq!['[', 'g', 'e', 'r', 'r', 'i', 't', ']']
}

/// One line of the file: `host=`, `project=` and `port=` set their value
/// (the line trimmed, split at its first `=`); the untrimmed line
/// `[gerrit]` is skipped; anything else is an error.
pub open spec fn review_step(st: ReviewFields, line: Seq<char>) -> Result<ReviewFields, ReviewFault> {
    match split_once(trim(line), '=') {
        Some((k, v)) if k == host_key() => Ok((v, st.1, st.2)),
        Some((k, v)) if k == project_key() => Ok((st.0, v, st.2)),
        Some((k, v)) if k == port_key() => match spec_parse_i32(v) {
            Some(p) => Ok((st.0, st.1, Some(p))),
            None => Err(ReviewFault::Port(v)),
        },
        _ => if line == gerrit_header() {
            Ok(st)
        } else {
            Err(ReviewFault::Line(line))
        },
    }
}

/// The lines read in order, stopping at the first error.
pub open spec fn review_scan(lines: Seq<Seq<char>>) -> Result<ReviewFields, ReviewFault>
    decreases lines.len(),
{
    if lines.len() == 0 {
        Ok((SENTINEL_VALUE@, SENTINEL_VALUE@, None))
    } else {
        match review_scan(lines.drop_last()) {
            Ok(st) => review_step(st, lines.last()),
            Err(e) => Err(e),
        }
    }
}

/// Whether the file reads without error but leaves the host or the project
/// unset, where parsing panics.
pub open spec fn git_review_incomplete(content: Seq<char>) -> bool {
    match review_scan(lines_of(content)) {
        Ok(st) => st.0 == SENTINEL_VALUE@ || st.1 == SENTINEL_VALUE@,
        Err(_) => false,
    }
}

proof fn lemma_review_scan_err(lines: Seq<Seq<char>>, k: int, f: ReviewFault)
    requires
        0 <= k <= lines.len(),
        review_scan(lines.take(k)) == Err::<ReviewFields, ReviewFault>(f),
    ensures
        review_scan(lines) == Err::<ReviewFields, ReviewFault>(f),
    decreases lines.len() - k,
{
    if k < lines.len() {
        assert(lines.take(k + 1).drop_last() =~= lines.take(k));
        lemma_review_scan_err(lines, k + 1, f);
    } else {
        assert(lines.take(k) =~= lines);
    }
}

pub open spec fn review_error_view(e: GitReviewError) -> ReviewFault {
    match e {
        GitReviewError::UnparsableLine { line } => ReviewFault::Line(line@),
        GitReviewError::InvalidPort { value } => ReviewFault::Port(value@),
    }
}

/// Parses the content of a `.gitreview` file.
pub fn parse_git_review(content: &str) -> (r: Result<GitReview, GitReviewError>)
    requires
        !git_review_incomplete(content@),
    ensures
        match review_scan(lines_of(content@)) {
            Ok(st) => r matches Ok(g) && g.host@ == st.0 && g.project@ == st.1 && g.port == st.2,
            Err(f) => r matches Err(e) && review_error_view(e) == f,
        },
{
    match scan_git_review(content) {
        Ok((host, project, port)) => Ok(GitReview { host: string_of(&host), project: string_of(&project), port }),
        Err(e) => Err(e),
    }
}

/// Whether the content of a `.gitreview` file reads without error but
/// leaves the host or the project unset, where parsing it panics.
pub fn git_review_is_incomplete(content: &str) -> (b: bool)
    ensures
        b == git_review_incomplete(content@),
{
    match scan_git_review(content) {
        Ok((host, project, _port)) => {
            let sentinel = chars_of(SENTINEL_VALUE);
            chars_eq(&host, &sentinel) || chars_eq(&project, &sentinel)
        },
        Err(_) => false,
    }
}

/// The host, project and port that the lines of a `.gitreview` file set.
fn scan_git_review(content: &str) -> (r: Result<(Vec<char>, Vec<char>, Option<i32>), GitReviewError>)
    ensures
        match review_scan(lines_of(content@)) {
            Ok(st) => r matches Ok(x) && x.0@ == st.0 && x.1@ == st.1 && x.2 == st.2,
            Err(f) => r matches Err(e) && review_error_view(e) == f,
        },
{
    let text = chars_of(content);
    let lines = lines_chars(&text);
    let ghost ls = lines_of(content@);
    let mut host = chars_of(SENTINEL_VALUE);
    let mut project = chars_of(SENTINEL_VALUE);
    let mut port: Option<i32> = None;
    let hk = chars_of("host");
    let pk = chars_of("project");
    let tk = chars_of("port");
    let gh = chars_of("[gerrit]");
    proof {
        reveal_strlit("host");
        reveal_strlit("project");
        reveal_strlit("port");
        reveal_strlit("[gerrit]");
        assert(hk@ =~= host_key());
        assert(pk@ =~= project_key());
        assert(tk@ =~= port_key());
        assert(gh@ =~= gerrit_header());
        assert(ls.take(0) =~= Seq::<Seq<char>>::empty());
    }
    let mut i: usize = 0;
    while i < lines.len()
        invariant
            vv(lines@) == ls,
            ls == lines_of(content@),
            i <= lines@.len(),
            hk@ == host_key(),
            pk@ == project_key(),
            tk@ == port_key(),
            gh@ == gerrit_header(),
            review_scan(ls.take(i as int)) == Ok::<ReviewFields, ReviewFault>(
                (host@, project@, port),
            ),
        decreases lines.len() - i,
    {
        let line = &lines[i];
        proof {
            assert(ls.take(i + 1).drop_last() =~= ls.take(i as int));
            assert(ls.take(i + 1).last() == line@);
        }
        let t = trim_chars(line);
        match split_once_chars(&t, '=') {
            Some((k, v)) => {
                if chars_eq(&k, &hk) {
                    host = v;
                } else if chars_eq(&k, &pk) {
                    project = v;
                } else if chars_eq(&k, &tk) {
                    match parse_i32(&v) {
                        Some(p) => {
                            port = Some(p);
                        },
                        None => {
                            let e = GitReviewError::InvalidPort { value: string_of(&v) };
                            proof {
                                lemma_review_scan_err(ls, i + 1, review_error_view(e));
                            }
                            return Err(e);
                        },
                    }
                } else if !chars_eq(line, &gh) {
                    let e = GitReviewError::UnparsableLine { line: string_of(line) };
                    proof {
                        lemma_review_scan_err(ls, i + 1, review_error_view(e));
                    }
                    return Err(e);
                }
            },
            None => {
                if !chars_eq(line, &gh) {
                    let e = GitReviewError::UnparsableLine { line: string_of(line) };
                    proof {
                        lemma_review_scan_err(ls, i + 1, review_error_view(e));
                    }
                    return Err(e);
                }
            },
        }
        i = i + 1;
    }
    assert(ls.take(lines@.len() as int) =~= ls);
    Ok((host, project, port))
}

} // verus!
