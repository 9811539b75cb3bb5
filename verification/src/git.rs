//! Paths inside a git tree.
use crate::gitmodules::str_from_utf8;
use crate::text::chars_of;
use crate::text::string_of;
use crate::util::spec_trim_newline_suffix;
use crate::util::trim_newline_suffix;
use vstd::prelude::*;
use vstd::utf8::decode_utf8;
use vstd::utf8::valid_utf8;

verus! {

/// A `/` separated path relative to the root of a git tree, as raw bytes.
#[derive(Debug, Clone, PartialEq, Eq, Hash, PartialOrd, Ord, Default)]
pub struct GitPath(pub Vec<u8>);

impl View for GitPath {
    type V = Seq<u8>;

    open spec fn view(&self) -> Seq<u8> {
        self.0@
    }
}

/// `a` joined with `b` by a single `/`, where an empty side is left out.
pub open spec fn spec_join(a: Seq<u8>, b: Seq<u8>) -> Seq<u8> {
    if a.len() == 0 {
        b
    } else if b.len() == 0 {
        a
    } else {
        a.push('/' as u8) + b
    }
}

/// `path` with the leading directory `base` removed, if `path` lies in `base`
/// (or is `base` itself). The empty base contains every path.
pub open spec fn spec_relative_to(path: Seq<u8>, base: Seq<u8>) -> Option<Seq<u8>> {
    if base.len() == 0 {
        Some(path)
    } else if base.len() <= path.len() && path.subrange(0, base.len() as int) == base {
        if path.len() == base.len() {
            Some(Seq::empty())
        } else if path[base.len() as int] == '/' as u8 {
            Some(path.skip(base.len() + 1int))
        } else {
            None
        }
    } else {
        None
    }
}

/// Copies a byte slice.
pub fn bytes_to_vec(b: &[u8]) -> (r: Vec<u8>)
    ensures
        r@ == b@,
{
    let mut r: Vec<u8> = Vec::new();
    let mut i: usize = 0;
    while i < b.len()
        invariant
            i <= b@.len(),
            r@ == b@.subrange(0, i as int),
        decreases b.len() - i,
    {
        r.push(b[i]);
        i = i + 1;
    }
    r
}

/// Copies `s[from..to]`.
pub fn sub_bytes(s: &[u8], from: usize, to: usize) -> (r: Vec<u8>)
    requires
        from <= to <= s@.len(),
    ensures
        r@ == s@.subrange(from as int, to as int),
{
    let mut r: Vec<u8> = Vec::new();
    let mut i = from;
    while i < to
        invariant
            from <= i <= to <= s@.len(),
            r@ == s@.subrange(from as int, i as int),
        decreases to - i,
    {
        r.push(s[i]);
        i = i + 1;
    }
    r
}

/// Tests whether `p` is a prefix of `s`.
pub fn bytes_start_with(s: &[u8], p: &[u8]) -> (r: bool)
    ensures
        r == (p@.len() <= s@.len() && s@.subrange(0, p@.len() as int) == p@),
{
    if p.len() > s.len() {
        return false;
    }
    let mut i: usize = 0;
    while i < p.len()
        invariant
            p@.len() <= s@.len(),
            i <= p@.len(),
            forall|j: int| 0 <= j < i ==> s@[j] == p@[j],
        decreases p.len() - i,
    {
        if s[i] != p[i] {
            assert(s@.subrange(0, p@.len() as int)[i as int] != p@[i as int]);
            return false;
        }
        i = i + 1;
    }
    assert(s@.subrange(0, p@.len() as int) =~= p@);
    true
}

/// Tests two byte sequences for equality.
pub fn bytes_eq(a: &[u8], b: &[u8]) -> (r: bool)
    ensures
        r == (a@ == b@),
{
    if a.len() != b.len() {
        return false;
    }
    let r = bytes_start_with(a, b);
    proof {
        assert(a@.subrange(0, a@.len() as int) =~= a@);
        if r {
            assert(a@ =~= b@);
        }
    }
    r
}

impl GitPath {
    pub fn new(path: Vec<u8>) -> (r: Self)
        ensures
            r@ == path@,
    {
        GitPath(path)
    }

    /// An independent copy of the path.
    pub fn duplicate(&self) -> (r: Self)
        ensures
            r@ == self@,
    {
        GitPath(bytes_to_vec(self.0.as_slice()))
    }

    pub fn is_empty(&self) -> (r: bool)
        ensures
            r == (self@.len() == 0),
    {
        self.0.len() == 0
    }

    pub fn len(&self) -> (r: usize)
        ensures
            r == self@.len(),
    {
        self.0.len()
    }

    pub fn as_bytes(&self) -> (r: &[u8])
        ensures
            r@ == self@,
    {
        self.0.as_slice()
    }

    /// Byte-wise equality.
    pub fn same(&self, other: &GitPath) -> (r: bool)
        ensures
            r == (self@ == other@),
    {
        bytes_eq(self.0.as_slice(), other.0.as_slice())
    }

    /// Joins two paths together with `/`; an empty path is the identity.
    pub fn join(&self, other: &GitPath) -> (r: GitPath)
        ensures
            r@ == spec_join(self@, other@),
    {
        if self.is_empty() {
            other.duplicate()
        } else if other.is_empty() {
            self.duplicate()
        } else {
            let mut path = bytes_to_vec(self.0.as_slice());
            path.push('/' as u8);
            let mut i: usize = 0;
            let ghost start = path@;
            while i < other.0.len()
                invariant
                    i <= other@.len(),
                    start == self@.push('/' as u8),
                    path@ == start + other@.subrange(0, i as int),
                decreases other.0.len() - i,
            {
                path.push(other.0[i]);
                i = i + 1;
            }
            assert(other@.subrange(0, other@.len() as int) =~= other@);
            GitPath(path)
        }
    }

    /// Removes the leading directory `other` from the path.
    pub fn relative_to(&self, other: &GitPath) -> (r: Option<GitPath>)
        ensures
            r matches Some(p) ==> spec_relative_to(self@, other@) == Some(p@),
            r is None ==> spec_relative_to(self@, other@) is None,
    {
        if other.is_empty() {
            return Some(self.duplicate());
        } else if bytes_start_with(self.0.as_slice(), other.0.as_slice()) {
            if self.0.len() == other.0.len() {
                return Some(GitPath(Vec::new()));
            }
            if self.0[other.0.len()] == '/' as u8 {
                let mut r: Vec<u8> = Vec::new();
                let mut i = other.0.len() + 1;
                while i < self.0.len()
                    invariant
                        other@.len() + 1 <= i <= self@.len(),
                        r@ == self@.subrange(other@.len() + 1int, i as int),
                    decreases self.0.len() - i,
                {
                    r.push(self.0[i]);
                    i = i + 1;
                }
                return Some(GitPath(r));
            }
        }
        None
    }
}

/// Removing the directory a path was joined onto gives back the joined part.
pub proof fn law_relative_to_undoes_join(base: Seq<u8>, rest: Seq<u8>)
    ensures
        spec_relative_to(spec_join(base, rest), base) == Some(rest),
{
    let j = spec_join(base, rest);
    if base.len() > 0 {
        if rest.len() == 0 {
            assert(j.subrange(0, base.len() as int) =~= base);
        } else {
            assert(j.subrange(0, base.len() as int) =~= base);
            assert(j[base.len() as int] == '/' as u8);
            assert(j.skip(base.len() + 1int) =~= rest);
        }
    }
}

/// Why `git config <key>` gave no value.
#[derive(Debug, PartialEq, Eq)]
pub enum GitConfigGetError {
    /// It exited with another code than 0 or 1, or was killed; what it
    /// printed on its standard error.
    Failed { exit_code: Option<i32>, stderr: Vec<u8> },
    /// Its output is not UTF-8.
    InvalidUtf8,
}

/// The value that `git config <key>` printed, from its exit code and its
/// output: exit code 1 means that the key is not set, and the line ending of
/// a value is dropped; a failure keeps what was printed on standard error.
pub fn git_config_get_value(exit_code: Option<i32>, stdout: &[u8], stderr: &[u8]) -> (r: Result<
    Option<String>,
    GitConfigGetError,
>)
    ensures
        exit_code == Some(1i32) ==> r == Ok::<Option<String>, GitConfigGetError>(None),
        exit_code != Some(1i32) && exit_code != Some(0i32) ==> (r matches Err(
            GitConfigGetError::Failed { exit_code: c, stderr: e },
        ) && c == exit_code && e@ == stderr@),
        exit_code == Some(0i32) ==> if valid_utf8(stdout@) {
            r matches Ok(Some(v)) && v@ == spec_trim_newline_suffix(decode_utf8(stdout@))
        } else {
            r == Err::<Option<String>, GitConfigGetError>(GitConfigGetError::InvalidUtf8)
        },
{
    match exit_code {
        Some(1i32) => Ok(None),
        Some(0i32) => match str_from_utf8(stdout) {
            Some(text) => {
                let line = trim_newline_suffix(text);
                Ok(Some(string_of(&chars_of(line))))
            },
            None => Err(GitConfigGetError::InvalidUtf8),
        },
        _ => Err(GitConfigGetError::Failed { exit_code, stderr: bytes_to_vec(stderr) }),
    }
}

} // verus!
