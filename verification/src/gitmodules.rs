//! Resolution of relative submodule URLs against the URL of the repository
//! that holds the `.gitmodules` file.
use crate::git::bytes_eq;
use crate::git::bytes_to_vec;
use crate::text::chars_of;
use crate::text::has_prefix;
use crate::text::string_of;
use vstd::prelude::*;
use vstd::utf8::decode_utf8;
use vstd::utf8::encode_scalar;
use vstd::utf8::encode_utf8;
use vstd::utf8::valid_utf8;

verus! {

/// `/` and `\` both separate path components of a base URL.
pub open spec fn is_path_sep(c: char) -> bool {
    c == '/' || c == '\\'
}

/// `s` without its trailing separators.
pub open spec fn trim_end_seps(s: Seq<char>) -> Seq<char>
    decreases s.len(),
{
    if s.len() > 0 && is_path_sep(s.last()) {
        trim_end_seps(s.drop_last())
    } else {
        s
    }
}

/// Index of the last separator in `s`.
pub open spec fn rfind_sep(s: Seq<char>) -> Option<int>
    decreases s.len(),
{
    if s.len() == 0 {
        None
    } else if is_path_sep(s.last()) {
        Some(s.len() - 1)
    } else {
        rfind_sep(s.drop_last())
    }
}

/// Splits the last path component off `s`, trailing separators ignored, as
/// `(parent, component)`. A lone Windows drive letter such as `C:` is no
/// component.
pub open spec fn strip_last_component(s: Seq<char>) -> Option<(Seq<char>, Seq<char>)> {
    let t = trim_end_seps(s);
    if t.len() == 0 {
        None
    } else {
        match rfind_sep(t) {
            Some(i) => Some((t.take(i + 1), t.skip(i + 1))),
            None => if t.len() == 2 && t[1] == ':' {
                None
            } else {
                Some((Seq::empty(), t))
            },
        }
    }
}

pub open spec fn dot() -> Seq<char> {
    seq!['.']
}

pub open spec fn dot_dot() -> Seq<char> {
    seq!['.', '.']
}

/// Consumes the leading `/`, `./`, `.` and `../` of `other`, climbing out of
/// `base` for each `../`, until something else comes or `base` has nothing
/// left to climb out of. Gives the remaining base and the rest of `other`.
pub open spec fn join_walk(base: Seq<char>, other: Seq<char>) -> (Seq<char>, Seq<char>)
    decreases other.len(),
{
    if other.len() >= 1 && other[0] == '/' {
        join_walk(base, other.skip(1))
    } else if other.len() >= 2 && other[0] == '.' && other[1] == '/' {
        join_walk(base, other.skip(2))
    } else if other == dot() {
        join_walk(base, Seq::empty())
    } else if (other.len() >= 3 && other[0] == '.' && other[1] == '.' && other[2] == '/') || other
        == dot_dot() {
        match strip_last_component(base) {
            Some((parent, component)) => {
                if component == dot_dot() || component == dot() {
                    (base, other)
                } else if other == dot_dot() {
                    join_walk(parent, Seq::empty())
                } else {
                    join_walk(parent, other.skip(3))
                }
            },
            None => (base, other),
        }
    } else {
        (base, other)
    }
}

/// Number of bytes in the UTF-8 encoding of `c`.
pub open spec fn utf8_width(c: char) -> nat {
    encode_scalar(c as u32).len()
}

/// Whether the walk leaves nothing of `other` and a base that is a Windows
/// drive letter with separators after it, in which case the drive letter is
/// kept with one separator.
pub open spec fn ends_at_drive_letter(b: Seq<char>, o: Seq<char>) -> bool {
    let t = trim_end_seps(b);
    o.len() == 0 && encode_utf8(b).len() > 2 && t.len() == 2 && t[1] == ':'
}

/// The joined path.
pub open spec fn spec_join_relative_url_paths(base: Seq<char>, other: Seq<char>) -> Seq<char> {
    let (b, o) = join_walk(base, other);
    if o.len() == 0 {
        if ends_at_drive_letter(b, o) {
            // The first three bytes of `b`.
            b.take(4 - utf8_width(b[0]))
        } else {
            trim_end_seps(b)
        }
    } else if b.len() == 0 || is_path_sep(b.last()) {
        b + o
    } else {
        b + seq!['/'] + o
    }
}

/// Whether cutting the first three bytes off the remaining base would split
/// a character (a drive "letter" encoded in four bytes), where the join
/// panics.
pub open spec fn join_relative_url_paths_panics(base: Seq<char>, other: Seq<char>) -> bool {
    let (b, o) = join_walk(base, other);
    ends_at_drive_letter(b, o) && utf8_width(b[0]) == 4
}

proof fn lemma_trim_end_seps_prefix(s: Seq<char>)
    ensures
        trim_end_seps(s).len() <= s.len(),
        trim_end_seps(s) == s.take(trim_end_seps(s).len() as int),
        forall|k: int|
            trim_end_seps(s).len() <= k < s.len() ==> #[trigger] is_path_sep(s[k]),
        trim_end_seps(s).len() > 0 ==> !is_path_sep(trim_end_seps(s).last()),
    decreases s.len(),
{
    if s.len() > 0 && is_path_sep(s.last()) {
        lemma_trim_end_seps_prefix(s.drop_last());
        let t = trim_end_seps(s.drop_last());
        assert(s.drop_last().take(t.len() as int) =~= s.take(t.len() as int));
        assert forall|k: int| t.len() <= k < s.len() implies #[trigger] is_path_sep(s[k]) by {
            if k < s.len() - 1 {
                assert(s[k] == s.drop_last()[k]);
            }
        };
    } else {
        assert(s.take(s.len() as int) =~= s);
    }
}

proof fn lemma_encode_utf8_ascii_len(s: Seq<char>)
    requires
        forall|k: int| 0 <= k < s.len() ==> (#[trigger] s[k] as u32) < 0x80,
    ensures
        encode_utf8(s).len() == s.len(),
    decreases s.len(),
{
    if s.len() > 0 {
        lemma_encode_utf8_ascii_len(s.drop_first());
    }
}

proof fn lemma_encode_utf8_drive_len(b: Seq<char>)
    requires
        2 <= b.len(),
        b[1] == ':',
        forall|k: int| 2 <= k < b.len() ==> #[trigger] is_path_sep(b[k]),
    ensures
        encode_utf8(b).len() == utf8_width(b[0]) + 1 + (b.len() - 2),
{
    let rest = b.drop_first().drop_first();
    assert forall|k: int| 0 <= k < rest.len() implies (#[trigger] rest[k] as u32) < 0x80 by {
        assert(is_path_sep(b[k + 2]));
    };
    lemma_encode_utf8_ascii_len(rest);
    assert(encode_utf8(b) == encode_scalar(b[0] as u32) + encode_utf8(b.drop_first()));
    assert(encode_utf8(b.drop_first()) == encode_scalar(b.drop_first()[0] as u32) + encode_utf8(
        rest,
    ));
    assert(encode_scalar(':' as u32).len() == 1);
}

fn is_path_sep_exec(c: char) -> (r: bool)
    ensures
        r == is_path_sep(c),
{
    c == '/' || c == '\\'
}

fn utf8_width_exec(c: char) -> (w: usize)
    ensures
        w == utf8_width(c),
{
    let u = c as u32;
    if u < 0x80 {
        1
    } else if u < 0x800 {
        2
    } else if u < 0x10000 {
        3
    } else {
        4
    }
}

/// Length of `b[..n]` without its trailing separators.
fn trim_end_len(b: &Vec<char>, n: usize) -> (e: usize)
    requires
        n <= b@.len(),
    ensures
        e <= n,
        trim_end_seps(b@.take(n as int)) == b@.take(e as int),
{
    let mut e = n;
    while e > 0 && is_path_sep_exec(b[e - 1])
        invariant
            e <= n <= b@.len(),
            trim_end_seps(b@.take(n as int)) == trim_end_seps(b@.take(e as int)),
        decreases e,
    {
        assert(b@.take(e as int).drop_last() =~= b@.take(e - 1));
        e = e - 1;
    }
    e
}

/// Index of the last separator in `b[..n]`.
fn rfind_sep_exec(b: &Vec<char>, n: usize) -> (r: Option<usize>)
    requires
        n <= b@.len(),
    ensures
        match r {
            Some(i) => i < n && rfind_sep(b@.take(n as int)) == Some(i as int),
            None => rfind_sep(b@.take(n as int)) is None,
        },
{
    let mut j = n;
    while j > 0 && !is_path_sep_exec(b[j - 1])
        invariant
            j <= n <= b@.len(),
            rfind_sep(b@.take(n as int)) == rfind_sep(b@.take(j as int)),
        decreases j,
    {
        assert(b@.take(j as int).drop_last() =~= b@.take(j - 1));
        j = j - 1;
    }
    if j == 0 {
        None
    } else {
        Some(j - 1)
    }
}

/// Splits the last component off `b[..n]`: the parent is `b[..split]` and
/// the component `b[split..end]`.
fn strip_last_component_exec(b: &Vec<char>, n: usize) -> (r: Option<(usize, usize)>)
    requires
        n <= b@.len(),
    ensures
        match r {
            Some((split, end)) => split <= end <= n && strip_last_component(b@.take(n as int))
                == Some((b@.take(split as int), b@.subrange(split as int, end as int))),
            None => strip_last_component(b@.take(n as int)) is None,
        },
{
    let e = trim_end_len(b, n);
    if e == 0 {
        return None;
    }
    match rfind_sep_exec(b, e) {
        Some(i) => {
            assert(b@.take(e as int).take(i + 1) =~= b@.take(i + 1));
            assert(b@.take(e as int).skip(i + 1) =~= b@.subrange(i + 1, e as int));
            Some((i + 1, e))
        },
        None => {
            if e == 2 && b[1] == ':' {
                None
            } else {
                assert(b@.take(e as int) =~= b@.subrange(0, e as int));
                assert(b@.take(0) =~= Seq::<char>::empty());
                Some((0, e))
            }
        },
    }
}

/// Joins a base URL path with a relative URL path.
///
/// Separators of the base are `/` or `\`, and a Windows drive letter such
/// as `C:` is never climbed out of; the other path always uses `/`. Leading
/// `./` and `/` of the other path are dropped and each leading `../` climbs
/// out of one component of the base, as long as the base has a component
/// left that is neither `.` nor `..`.
pub fn join_relative_url_paths(base: &str, other: &str) -> (r: String)
    requires
        !join_relative_url_paths_panics(base@, other@),
    ensures
        r@ == spec_join_relative_url_paths(base@, other@),
{
    let b = chars_of(base);
    let o = chars_of(other);
    let mut bend: usize = b.len();
    let mut os: usize = 0;
    assert(b@.take(bend as int) =~= b@);
    assert(o@.skip(0) =~= o@);
    loop
        invariant
            b@ == base@,
            o@ == other@,
            bend <= b@.len(),
            os <= o@.len(),
            join_walk(b@.take(bend as int), o@.skip(os as int)) == join_walk(base@, other@),
        ensures
            bend <= b@.len(),
            os <= o@.len(),
            join_walk(base@, other@) == (b@.take(bend as int), o@.skip(os as int)),
        decreases o@.len() - os,
    {
        let rem = o.len() - os;
        let ghost bb = b@.take(bend as int);
        let ghost oo = o@.skip(os as int);
        proof {
            if oo == dot() {
                assert(oo.len() == 1 && oo[0] == o@[os as int] && o@[os as int] == '.');
            }
            if oo == dot_dot() {
                assert(oo.len() == 2 && oo[0] == o@[os as int] && o@[os as int] == '.');
                assert(oo[1] == o@[os + 1] && o@[os + 1] == '.');
            }
        }
        if rem >= 1 && o[os] == '/' {
            assert(oo.skip(1) =~= o@.skip(os + 1));
            os = os + 1;
        } else if rem >= 2 && o[os] == '.' && o[os + 1] == '/' {
            assert(oo.skip(2) =~= o@.skip(os + 2));
            os = os + 2;
        } else if rem == 1 && o[os] == '.' {
            assert(oo =~= dot());
            assert(o@.skip(os + 1) =~= Seq::<char>::empty());
            os = os + 1;
        } else if (rem >= 3 && o[os] == '.' && o[os + 1] == '.' && o[os + 2] == '/') || (rem == 2
            && o[os] == '.' && o[os + 1] == '.') {
            proof {
                if rem == 2 {
                    assert(oo =~= dot_dot());
                }
            }
            match strip_last_component_exec(&b, bend) {
                Some((split, end)) => {
                    let ghost comp = b@.subrange(split as int, end as int);
                    let is_dots = (end - split == 2 && b[split] == '.' && b[split + 1] == '.') || (
                    end - split == 1 && b[split] == '.');
                    proof {
                        if end - split == 2 && b[split as int] == '.' && b[split + 1] == '.' {
                            assert(comp =~= dot_dot());
                        }
                        if end - split == 1 && b[split as int] == '.' {
                            assert(comp =~= dot());
                        }
                        assert(dot().len() == 1 && dot()[0] == '.');
                        assert(dot_dot().len() == 2 && dot_dot()[0] == '.' && dot_dot()[1] == '.');
                        if comp == dot() {
                            assert(comp.len() == 1);
                            assert(comp[0] == b@[split as int]);
                        }
                        if comp == dot_dot() {
                            assert(comp.len() == 2);
                            assert(comp[0] == b@[split as int]);
                            assert(comp[1] == b@[split + 1]);
                        }
                    }
                    if is_dots {
                        break ;
                    }
                    bend = split;
                },
                None => {
                    break ;
                },
            }
            if rem == 2 {
                assert(o@.skip(os + 2) =~= Seq::<char>::empty());
                os = os + 2;
            } else {
                assert(oo.skip(3) =~= o@.skip(os + 3));
                os = os + 3;
            }
        } else {
            break ;
        }
    }
    let ghost bb = b@.take(bend as int);
    let ghost oo = o@.skip(os as int);
    let mut out: Vec<char>;
    if os == o.len() {
        assert(oo.len() == 0);
        let e = trim_end_len(&b, bend);
        proof {
            assert(b@.take(e as int) =~= bb.take(e as int));
            lemma_trim_end_seps_prefix(bb);
        }
        if e == 2 && b[1] == ':' && (bend > 2 || utf8_width_exec(b[0]) > 1) {
            proof {
                assert(bb[1] == ':');
                assert forall|k: int| 2 <= k < bb.len() implies #[trigger] is_path_sep(bb[k]) by {
                    assert(is_path_sep(bb[k]));
                };
                lemma_encode_utf8_drive_len(bb);
                assert(ends_at_drive_letter(bb, oo));
            }
            let w = utf8_width_exec(b[0]);
            out = crate::text::sub_chars(&b, 0, 4 - w);
            assert(out@ =~= bb.take(4 - w));
        } else {
            proof {
                if e == 2 && bb[1] == ':' {
                    lemma_trim_end_seps_prefix(bb);
                    assert forall|k: int| 2 <= k < bb.len() implies #[trigger] is_path_sep(
                        bb[k],
                    ) by {
                        assert(is_path_sep(bb[k]));
                    };
                    lemma_encode_utf8_drive_len(bb);
                }
            }
            out = crate::text::sub_chars(&b, 0, e);
            assert(out@ =~= b@.take(e as int));
        }
    } else {
        out = crate::text::sub_chars(&b, 0, bend);
        assert(out@ =~= bb);
        if !(bend == 0 || is_path_sep_exec(b[bend - 1])) {
            out.push('/');
        }
        let rest = crate::text::sub_chars(&o, os, o.len());
        assert(rest@ =~= oo);
        crate::text::push_all(&mut out, &rest);
    }
    string_of(&out)
}

/// The scheme of a URL.
#[derive(Debug, Clone, PartialEq, Eq)]
pub enum UrlScheme {
    File,
    Git,
    Ssh,
    Http,
    Https,
    Ext(String),
}

impl UrlScheme {
    pub fn duplicate(&self) -> (r: Self)
        ensures
            r == *self,
    {
        match self {
            UrlScheme::File => UrlScheme::File,
            UrlScheme::Git => UrlScheme::Git,
            UrlScheme::Ssh => UrlScheme::Ssh,
            UrlScheme::Http => UrlScheme::Http,
            UrlScheme::Https => UrlScheme::Https,
            UrlScheme::Ext(s) => UrlScheme::Ext(s.clone()),
        }
    }
}

/// A parsed submodule URL: what the join reads of it, and the rest that it
/// carries over.
#[derive(Debug, Clone, PartialEq, Eq)]
pub struct SubmoduleUrl {
    pub scheme: UrlScheme,
    pub user: Option<String>,
    pub password: Option<String>,
    pub host: Option<String>,
    pub port: Option<u16>,
    pub path: Vec<u8>,
    pub serialize_alternative_form: bool,
}

pub struct SubmoduleUrlView {
    pub scheme: UrlScheme,
    pub user: Option<String>,
    pub password: Option<String>,
    pub host: Option<String>,
    pub port: Option<u16>,
    pub path: Seq<u8>,
    pub serialize_alternative_form: bool,
}

impl View for SubmoduleUrl {
    type V = SubmoduleUrlView;

    open spec fn view(&self) -> SubmoduleUrlView {
        SubmoduleUrlView {
            scheme: self.scheme,
            user: self.user,
            password: self.password,
            host: self.host,
            port: self.port,
            path: self.path@,
            serialize_alternative_form: self.serialize_alternative_form,
        }
    }
}

fn duplicate_opt_string(o: &Option<String>) -> (r: Option<String>)
    ensures
        r == *o,
{
    match o {
        Some(s) => Some(s.clone()),
        None => None,
    }
}

/// `std::str::from_utf8`: the text that the bytes encode, where they are
/// valid UTF-8.
#[verifier::external_body]
pub(crate) fn str_from_utf8(b: &[u8]) -> (r: Option<&str>)
    ensures
        match r {
            Some(s) => valid_utf8(b@) && s@ == decode_utf8(b@),
            None => !valid_utf8(b@),
        },
{
    std::str::from_utf8(b).ok()
}

/// Whether the URL is a bare relative path: a file URL with no user,
/// password or host whose path is `.` or `..` or starts with `./` or `../`.
pub open spec fn is_relative_path_url(u: SubmoduleUrlView) -> bool {
    &&& u.scheme is File
    &&& u.user is None
    &&& u.password is None
    &&& u.host is None
    &&& (u.path == seq![46u8] || u.path == seq![46u8, 46u8] || has_prefix(u.path, seq![46u8, 47u8])
        || has_prefix(u.path, seq![46u8, 46u8, 47u8]))
}

/// Whether the join resolves `other` against `base`: `other` is a relative
/// path and both paths are valid UTF-8.
pub open spec fn joins_paths(base: SubmoduleUrlView, other: SubmoduleUrlView) -> bool {
    is_relative_path_url(other) && valid_utf8(base.path) && valid_utf8(other.path)
}

/// Joining URLs, as [`SubmoduleUrlExt::join`] does it.
pub open spec fn spec_join_urls(base: SubmoduleUrlView, other: SubmoduleUrlView) -> SubmoduleUrlView {
    if joins_paths(base, other) {
        SubmoduleUrlView {
            path: encode_utf8(
                spec_join_relative_url_paths(decode_utf8(base.path), decode_utf8(other.path)),
            ),
            ..base
        }
    } else {
        other
    }
}

/// Submodule URLs that can be resolved against the URL of their parent.
pub trait SubmoduleUrlExt: View + Sized {
    /// Whether `join` is defined on the two URLs.
    spec fn can_join(&self, other: &Self) -> bool;

    /// What `join` gives.
    spec fn joined(&self, other: &Self) -> Self::V;

    /// Joins two URLs. If the other URL is a relative path, it is joined to
    /// the path of this URL; otherwise it is taken as it is.
    fn join(&self, other: &Self) -> (r: Self)
        requires
            self.can_join(other),
        ensures
            r@ == self.joined(other),
    ;
}

impl SubmoduleUrlExt for SubmoduleUrl {
    open spec fn can_join(&self, other: &Self) -> bool {
        joins_paths(self@, other@) ==> !join_relative_url_paths_panics(
            decode_utf8(self@.path),
            decode_utf8(other@.path),
        )
    }

    open spec fn joined(&self, other: &Self) -> SubmoduleUrlView {
        spec_join_urls(self@, other@)
    }

    fn join(&self, other: &Self) -> (r: Self) {
        let p = other.path.as_slice();
        let relative = {
            let n = p.len();
            (n == 1 && p[0] == 46u8) || (n == 2 && p[0] == 46u8 && p[1] == 46u8) || (n >= 2 && p[0]
                == 46u8 && p[1] == 47u8) || (n >= 3 && p[0] == 46u8 && p[1] == 46u8 && p[2]
                == 47u8)
        };
        proof {
            let d = seq![46u8];
            let dd = seq![46u8, 46u8];
            let ds = seq![46u8, 47u8];
            let dds = seq![46u8, 46u8, 47u8];
            if p@ == d {
                assert(p@.len() == 1 && p@[0] == d[0]);
            }
            if p@ == dd {
                assert(p@.len() == 2 && p@[0] == dd[0] && p@[1] == dd[1]);
            }
            if has_prefix(p@, ds) {
                assert(p@.take(2)[0] == ds[0] && p@.take(2)[1] == ds[1]);
            }
            if has_prefix(p@, dds) {
                assert(p@.take(3)[0] == dds[0] && p@.take(3)[1] == dds[1] && p@.take(3)[2]
                    == dds[2]);
            }
            if p@.len() == 1 && p@[0] == 46u8 {
                assert(p@ =~= d);
            }
            if p@.len() == 2 && p@[0] == 46u8 && p@[1] == 46u8 {
                assert(p@ =~= dd);
            }
            if p@.len() >= 2 && p@[0] == 46u8 && p@[1] == 47u8 {
                assert(p@.take(2) =~= ds);
            }
            if p@.len() >= 3 && p@[0] == 46u8 && p@[1] == 46u8 && p@[2] == 47u8 {
                assert(p@.take(3) =~= dds);
            }
        }
        let plain = match &other.scheme {
            UrlScheme::File => other.user.is_none() && other.password.is_none()
                && other.host.is_none(),
            _ => false,
        };
        if plain && relative {
            if let Some(self_path) = str_from_utf8(self.path.as_slice()) {
                if let Some(other_path) = str_from_utf8(p) {
                    let joined = join_relative_url_paths(self_path, other_path);
                    let bytes = bytes_to_vec(joined.as_str().as_bytes());
                    return SubmoduleUrl {
                        scheme: self.scheme.duplicate(),
                        user: duplicate_opt_string(&self.user),
                        password: duplicate_opt_string(&self.password),
                        host: duplicate_opt_string(&self.host),
                        port: self.port,
                        path: bytes,
                        serialize_alternative_form: self.serialize_alternative_form,
                    };
                }
            }
        }
        SubmoduleUrl {
            scheme: other.scheme.duplicate(),
            user: duplicate_opt_string(&other.user),
            password: duplicate_opt_string(&other.password),
            host: duplicate_opt_string(&other.host),
            port: other.port,
            path: bytes_to_vec(p),
            serialize_alternative_form: other.serialize_alternative_form,
        }
    }
}

/// A `submodule` section of the outer `.gitmodules` that has a name and a
/// `path`.
#[derive(Debug, Clone, PartialEq, Eq)]
pub struct OuterSubmodule {
    pub name: Vec<u8>,
    pub path: Vec<u8>,
}

/// A section of the inner `.gitmodules`: its name, its subsection name and
/// its `path` value, if any.
#[derive(Debug, Clone, PartialEq, Eq)]
pub struct InnerSection {
    pub name: Vec<u8>,
    pub subsection: Option<Vec<u8>>,
    pub path: Option<Vec<u8>>,
    pub url: Option<SectionUrl>,
}

/// The `url` value of a section: a URL, when it parses as one, or else its
/// text as it stands.
#[derive(Debug, Clone, PartialEq, Eq)]
pub enum SectionUrl {
    Parsed(SubmoduleUrl),
    Unparsed(Vec<u8>),
}

pub enum SectionUrlView {
    Parsed(SubmoduleUrlView),
    Unparsed(Seq<u8>),
}

pub open spec fn section_url_view(u: SectionUrl) -> SectionUrlView {
    match u {
        SectionUrl::Parsed(x) => SectionUrlView::Parsed(x@),
        SectionUrl::Unparsed(b) => SectionUrlView::Unparsed(b@),
    }
}

pub open spec fn opt_url_view(u: Option<SectionUrl>) -> Option<SectionUrlView> {
    match u {
        Some(x) => Some(section_url_view(x)),
        None => None,
    }
}

/// Whether joining `u` onto `base` is defined: the path join does not
/// stop on a drive letter it cannot handle.
pub open spec fn url_joinable(base: SubmoduleUrlView, u: SubmoduleUrlView) -> bool {
    joins_paths(base, u) ==> !join_relative_url_paths_panics(
        decode_utf8(base.path),
        decode_utf8(u.path),
    )
}

/// The `url` of an imported section: a parsed URL is joined onto the URL of
/// the outer repository, text that is no URL stays as it is.
pub open spec fn imported_url(base: SubmoduleUrlView, u: Option<SectionUrlView>) -> Option<SectionUrlView> {
    match u {
        Some(SectionUrlView::Parsed(x)) => Some(SectionUrlView::Parsed(spec_join_urls(base, x))),
        Some(SectionUrlView::Unparsed(b)) => Some(SectionUrlView::Unparsed(b)),
        None => None,
    }
}

/// What happens to a section of the inner `.gitmodules`.
#[derive(Debug, PartialEq, Eq)]
pub enum InnerSectionAction {
    /// It is left out.
    Remove,
    /// It is imported under `full_name`; its `path` becomes `path`, when it
    /// has one, and its `url` becomes `url`: joined onto the outer
    /// repository's URL when it parses as a URL.
    Import { full_name: Vec<u8>, path: Option<Vec<u8>>, url: Option<SectionUrl> },
}

/// The import of an inner `.gitmodules`: the comment that describes it and
/// what happens to each of its sections.
#[derive(Debug, PartialEq, Eq)]
pub struct SubmoduleImportPlan {
    pub description: Vec<u8>,
    pub actions: Vec<InnerSectionAction>,
}

pub struct InnerSectionView {
    pub name: Seq<u8>,
    pub subsection: Option<Seq<u8>>,
    pub path: Option<Seq<u8>>,
    pub url: Option<SectionUrlView>,
}

pub enum ActionView {
    Remove,
    Import { full_name: Seq<u8>, path: Option<Seq<u8>>, url: Option<SectionUrlView> },
}

pub open spec fn opt_bytes_view(o: Option<Vec<u8>>) -> Option<Seq<u8>> {
    match o {
        Some(v) => Some(v@),
        None => None,
    }
}

pub open spec fn inner_view(s: InnerSection) -> InnerSectionView {
    InnerSectionView {
        name: s.name@,
        subsection: opt_bytes_view(s.subsection),
        path: opt_bytes_view(s.path),
        url: opt_url_view(s.url),
    }
}

pub open spec fn inner_views(s: Seq<InnerSection>) -> Seq<InnerSectionView> {
    s.map_values(|x: InnerSection| inner_view(x))
}

pub open spec fn outer_views(s: Seq<OuterSubmodule>) -> Seq<(Seq<u8>, Seq<u8>)> {
    s.map_values(|x: OuterSubmodule| (x.path@, x.name@))
}

pub open spec fn action_view(a: InnerSectionAction) -> ActionView {
    match a {
        InnerSectionAction::Remove => ActionView::Remove,
        InnerSectionAction::Import { full_name, path, url } => ActionView::Import {
            full_name: full_name@,
            path: opt_bytes_view(path),
            url: opt_url_view(url),
        },
    }
}

pub open spec fn action_views(s: Seq<InnerSectionAction>) -> Seq<ActionView> {
    s.map_values(|a: InnerSectionAction| action_view(a))
}

/// `submodule`, as bytes.
pub open spec fn submodule_word() -> Seq<u8> {
    encode_utf8("submodule"@)
}

/// A section of the outer configuration has the name: the outer sections
/// are read into a map from path to name, so of several sections with one
/// path only the last counts.
pub open spec fn outer_has_name(existing: Seq<(Seq<u8>, Seq<u8>)>, name: Seq<u8>) -> bool {
    exists|i: int|
        #![trigger existing[i]]
        0 <= i < existing.len() && existing[i].1 == name && forall|j: int|
            i < j < existing.len() ==> existing[j].0 != existing[i].0
}

/// A section of the outer configuration has the path.
pub open spec fn outer_has_path(existing: Seq<(Seq<u8>, Seq<u8>)>, path: Seq<u8>) -> bool {
    exists|i: int| 0 <= i < existing.len() && #[trigger] existing[i].0 == path
}

/// The path of the inner submodule `name`: the last `submodule` section of
/// that name with a `path` gives it.
pub open spec fn inner_path_of(inner: Seq<InnerSectionView>, name: Seq<u8>) -> Option<Seq<u8>>
    decreases inner.len(),
{
    if inner.len() == 0 {
        None
    } else if inner.last().name == submodule_word() && inner.last().subsection == Some(name)
        && inner.last().path is Some {
        inner.last().path
    } else {
        inner_path_of(inner.drop_last(), name)
    }
}

/// `a/b`.
pub open spec fn slash_join(a: Seq<u8>, b: Seq<u8>) -> Seq<u8> {
    a + seq![47u8] + b
}

/// The note about one inner section and what happens to it.
pub open spec fn section_step(
    existing: Seq<(Seq<u8>, Seq<u8>)>,
    inner: Seq<InnerSectionView>,
    nl: Seq<u8>,
    prefix: Seq<u8>,
    base: SubmoduleUrlView,
    s: InnerSectionView,
) -> (Seq<u8>, ActionView) {
    match s.subsection {
        Some(inner_name) if s.name == submodule_word() => {
            let full_name = slash_join(prefix, inner_name);
            let skipping = encode_utf8("# Skipping section: "@) + inner_name + nl;
            if outer_has_name(existing, full_name) {
                (encode_utf8("# Section already exists: "@) + full_name + nl + skipping, ActionView::Remove)
            } else {
                match inner_path_of(inner, inner_name) {
                    None => (
                        encode_utf8("# Submodule path missing in inner .gitmodules file."@) + nl
                            + skipping,
                        ActionView::Remove,
                    ),
                    Some(inner_path) => {
                        let full_path = slash_join(prefix, inner_path);
                        if outer_has_path(existing, full_path) {
                            (
                                encode_utf8("# Submodule path already described: "@) + full_path
                                    + nl + skipping,
                                ActionView::Remove,
                            )
                        } else {
                            (
                                Seq::empty(),
                                ActionView::Import {
                                    full_name,
                                    path: match s.path {
                                        Some(p) => Some(slash_join(prefix, p)),
                                        None => None,
                                    },
                                    url: imported_url(base, s.url),
                                },
                            )
                        }
                    },
                }
            }
        },
        _ => (
            encode_utf8("# Skipping unused section: "@) + s.name + match s.subsection {
                Some(sub) => seq![46u8] + sub,
                None => Seq::empty(),
            } + nl,
            ActionView::Remove,
        ),
    }
}

/// The notes and actions for the sections `secs` of the inner configuration
/// `inner`, in order.
pub open spec fn section_steps(
    existing: Seq<(Seq<u8>, Seq<u8>)>,
    inner: Seq<InnerSectionView>,
    nl: Seq<u8>,
    prefix: Seq<u8>,
    base: SubmoduleUrlView,
    secs: Seq<InnerSectionView>,
) -> (Seq<u8>, Seq<ActionView>)
    decreases secs.len(),
{
    if secs.len() == 0 {
        (Seq::empty(), Seq::empty())
    } else {
        let (d, a) = section_steps(existing, inner, nl, prefix, base, secs.drop_last());
        let (d2, a2) = section_step(existing, inner, nl, prefix, base, secs.last());
        (d + d2, a.push(a2))
    }
}

/// The import plan: a heading with the path of the inner `.gitmodules`, a
/// note on every section that is left out, and an empty line.
pub open spec fn spec_import_plan(
    existing: Seq<(Seq<u8>, Seq<u8>)>,
    nl: Seq<u8>,
    prefix: Seq<u8>,
    base: SubmoduleUrlView,
    inner: Seq<InnerSectionView>,
) -> (Seq<u8>, Seq<ActionView>) {
    let (d, a) = section_steps(existing, inner, nl, prefix, base, inner);
    (
        nl + nl + encode_utf8("# *** Import of "@) + prefix + encode_utf8("/.gitmodules ***"@) + nl
            + d + nl,
        a,
    )
}

fn push_bytes(v: &mut Vec<u8>, b: &[u8])
    ensures
        final(v)@ == old(v)@ + b@,
{
    let mut i: usize = 0;
    while i < b.len()
        invariant
            i <= b@.len(),
            v@ == old(v)@ + b@.take(i as int),
        decreases b.len() - i,
    {
        v.push(b[i]);
        assert(b@.take(i + 1) =~= b@.take(i as int).push(b@[i as int]));
        i = i + 1;
    }
    assert(b@.take(b@.len() as int) =~= b@);
}

fn join_with_slash(a: &[u8], b: &[u8]) -> (r: Vec<u8>)
    ensures
        r@ == slash_join(a@, b@),
{
    let mut r = bytes_to_vec(a);
    r.push(47u8);
    push_bytes(&mut r, b);
    r
}

fn outer_has_name_exec(existing: &[OuterSubmodule], name: &[u8]) -> (r: bool)
    ensures
        r == outer_has_name(outer_views(existing@), name@),
{
    let ghost ev = outer_views(existing@);
    let mut i: usize = 0;
    while i < existing.len()
        invariant
            i <= existing@.len(),
            ev == outer_views(existing@),
            forall|k: int|
                0 <= k < i ==> !(#[trigger] ev[k].1 == name@ && forall|j: int|
                    k < j < ev.len() ==> ev[j].0 != ev[k].0),
        decreases existing.len() - i,
    {
        if bytes_eq(existing[i].name.as_slice(), name) {
            let mut j = i + 1;
            let mut shadowed = false;
            while j < existing.len()
                invariant
                    i < j <= existing@.len(),
                    ev == outer_views(existing@),
                    !shadowed ==> forall|m: int| i < m < j ==> ev[m].0 != ev[i as int].0,
                    shadowed ==> exists|m: int| i < m < ev.len() && ev[m].0 == ev[i as int].0,
                decreases existing.len() - j,
            {
                if !shadowed && bytes_eq(existing[j].path.as_slice(), existing[i].path.as_slice()) {
                    shadowed = true;
                    assert(ev[j as int].0 == ev[i as int].0);
                }
                j = j + 1;
            }
            if !shadowed {
                assert(ev[i as int].1 == name@);
                return true;
            }
        }
        i = i + 1;
    }
    false
}

fn outer_has_path_exec(existing: &[OuterSubmodule], path: &[u8]) -> (r: bool)
    ensures
        r == outer_has_path(outer_views(existing@), path@),
{
    let ghost ev = outer_views(existing@);
    let mut i: usize = 0;
    while i < existing.len()
        invariant
            i <= existing@.len(),
            ev == outer_views(existing@),
            forall|k: int| 0 <= k < i ==> #[trigger] ev[k].0 != path@,
        decreases existing.len() - i,
    {
        if bytes_eq(existing[i].path.as_slice(), path) {
            assert(ev[i as int].0 == path@);
            return true;
        }
        i = i + 1;
    }
    false
}

fn inner_path_of_exec(inner: &[InnerSection], name: &[u8]) -> (r: Option<Vec<u8>>)
    ensures
        opt_bytes_view(r) == inner_path_of(inner_views(inner@), name@),
{
    let ghost iv = inner_views(inner@);
    let word = "submodule".as_bytes();
    let mut i = inner.len();
    assert(iv.take(i as int) =~= iv);
    while i > 0
        invariant
            i <= inner@.len(),
            iv == inner_views(inner@),
            word@ == submodule_word(),
            inner_path_of(iv.take(i as int), name@) == inner_path_of(iv, name@),
        decreases i,
    {
        let s = &inner[i - 1];
        assert(iv.take(i as int).drop_last() =~= iv.take(i - 1));
        assert(iv.take(i as int).last() == inner_view(inner@[i - 1]));
        if bytes_eq(s.name.as_slice(), word) {
            match &s.subsection {
                Some(sub) => {
                    if bytes_eq(sub.as_slice(), name) {
                        match &s.path {
                            Some(p) => {
                                return Some(bytes_to_vec(p.as_slice()));
                            },
                            None => {},
                        }
                    }
                },
                None => {},
            }
        }
        i = i - 1;
    }
    None
}

/// Plans the import of an inner `.gitmodules`, found at `path` in the outer
/// repository, into the outer one, whose `submodule` sections with a name
/// and a path are `existing`. Inner `submodule` sections are imported under
/// `<path>/<name>` with their path prefixed by `<path>/`, unless the outer
/// configuration already has a section of that name or that path, or the
/// submodule has no path; other sections are left out. The `url` of an
/// imported section is joined onto `base_url`, the URL of the outer
/// repository, when it parses as a URL. The description notes every section
/// that is left out, with `newline` as line ending.
pub fn plan_inner_submodule_import(
    existing: &[OuterSubmodule],
    newline: &[u8],
    base_url: &SubmoduleUrl,
    path: &[u8],
    inner: &[InnerSection],
) -> (r: SubmoduleImportPlan)
    requires
        forall|i: int|
            #![trigger inner@[i]]
            0 <= i < inner@.len() && (section_step(
                outer_views(existing@),
                inner_views(inner@),
                newline@,
                path@,
                base_url@,
                inner_view(inner@[i]),
            ).1 is Import) ==> match inner_view(inner@[i]).url {
                Some(SectionUrlView::Parsed(u)) => url_joinable(base_url@, u),
                _ => true,
            },
    ensures
        (r.description@, action_views(r.actions@)) == spec_import_plan(
            outer_views(existing@),
            newline@,
            path@,
            base_url@,
            inner_views(inner@),
        ),
{
    let ghost ev = outer_views(existing@);
    let ghost iv = inner_views(inner@);
    let word = "submodule".as_bytes();
    let mut notes: Vec<u8> = Vec::new();
    let mut actions: Vec<InnerSectionAction> = Vec::new();
    let mut i: usize = 0;
    while i < inner.len()
        invariant
            i <= inner@.len(),
            ev == outer_views(existing@),
            iv == inner_views(inner@),
            word@ == submodule_word(),
            (notes@, action_views(actions@)) == section_steps(ev, iv, newline@, path@, base_url@, iv.take(i as int)),
            forall|k: int|
                #![trigger inner@[k]]
                0 <= k < inner@.len() && (section_step(ev, iv, newline@, path@, base_url@, inner_view(inner@[k])).1 is Import)
                    ==> match inner_view(inner@[k]).url {
                    Some(SectionUrlView::Parsed(u)) => url_joinable(base_url@, u),
                    _ => true,
                },
        decreases inner.len() - i,
    {
        let s = &inner[i];
        assert(iv.take(i + 1).drop_last() =~= iv.take(i as int));
        assert(iv.take(i + 1).last() == inner_view(inner@[i as int]));
        let ghost step = section_step(ev, iv, newline@, path@, base_url@, inner_view(inner@[i as int]));
        let ghost notes0 = notes@;
        let ghost actions0 = action_views(actions@);
        let action: InnerSectionAction;
        let is_submodule = bytes_eq(s.name.as_slice(), word);
        match &s.subsection {
            Some(inner_name) if is_submodule => {
                let full_name = join_with_slash(path, inner_name.as_slice());
                if outer_has_name_exec(existing, full_name.as_slice()) {
                    push_bytes(&mut notes, "# Section already exists: ".as_bytes());
                    push_bytes(&mut notes, full_name.as_slice());
                    push_bytes(&mut notes, newline);
                    push_bytes(&mut notes, "# Skipping section: ".as_bytes());
                    push_bytes(&mut notes, inner_name.as_slice());
                    push_bytes(&mut notes, newline);
                    action = InnerSectionAction::Remove;
                } else {
                    match inner_path_of_exec(inner, inner_name.as_slice()) {
                        None => {
                            push_bytes(
                                &mut notes,
                                "# Submodule path missing in inner .gitmodules file.".as_bytes(),
                            );
                            push_bytes(&mut notes, newline);
                            push_bytes(&mut notes, "# Skipping section: ".as_bytes());
                            push_bytes(&mut notes, inner_name.as_slice());
                            push_bytes(&mut notes, newline);
                            action = InnerSectionAction::Remove;
                        },
                        Some(inner_path) => {
                            let full_path = join_with_slash(path, inner_path.as_slice());
                            if outer_has_path_exec(existing, full_path.as_slice()) {
                                push_bytes(
                                    &mut notes,
                                    "# Submodule path already described: ".as_bytes(),
                                );
                                push_bytes(&mut notes, full_path.as_slice());
                                push_bytes(&mut notes, newline);
                                push_bytes(&mut notes, "# Skipping section: ".as_bytes());
                                push_bytes(&mut notes, inner_name.as_slice());
                                push_bytes(&mut notes, newline);
                                action = InnerSectionAction::Remove;
                            } else {
                                let new_path = match &s.path {
                                    Some(p) => Some(join_with_slash(path, p.as_slice())),
                                    None => None,
                                };
                                proof {
                                    assert(step.1 is Import);
                                }
                                let new_url = match &s.url {
                                    Some(SectionUrl::Parsed(u)) => Some(SectionUrl::Parsed(base_url.join(u))),
                                    Some(SectionUrl::Unparsed(b)) => Some(SectionUrl::Unparsed(bytes_to_vec(b.as_slice()))),
                                    None => None,
                                };
                                action = InnerSectionAction::Import { full_name, path: new_path, url: new_url };
                            }
                        },
                    }
                }
            },
            _ => {
                push_bytes(&mut notes, "# Skipping unused section: ".as_bytes());
                push_bytes(&mut notes, s.name.as_slice());
                match &s.subsection {
                    Some(sub) => {
                        notes.push(46u8);
                        push_bytes(&mut notes, sub.as_slice());
                    },
                    None => {},
                }
                push_bytes(&mut notes, newline);
                action = InnerSectionAction::Remove;
            },
        }
        assert(notes@ =~= notes0 + step.0);
        actions.push(action);
        assert(action_views(actions@) =~= actions0.push(step.1));
        i = i + 1;
    }
    assert(iv.take(inner@.len() as int) =~= iv);
    let mut description: Vec<u8> = Vec::new();
    push_bytes(&mut description, newline);
    push_bytes(&mut description, newline);
    push_bytes(&mut description, "# *** Import of ".as_bytes());
    push_bytes(&mut description, path);
    push_bytes(&mut description, "/.gitmodules ***".as_bytes());
    push_bytes(&mut description, newline);
    push_bytes(&mut description, notes.as_slice());
    push_bytes(&mut description, newline);
    SubmoduleImportPlan { description, actions }
}

} // verus!
