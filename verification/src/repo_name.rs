//! Names of the top repository and of the subrepositories, and the git ref
//! namespaces that hold their refs.
use crate::git::bytes_start_with;
use crate::git::bytes_to_vec;
use crate::git::sub_bytes;
use crate::gitmodules::str_from_utf8;
use crate::text::first_index;
use crate::text::lemma_first_index;
use crate::text::chars_eq;
use crate::text::chars_of;
use crate::text::push_all;
use crate::text::string_of;
use vstd::prelude::*;
use vstd::utf8::decode_utf8;
use vstd::utf8::encode_scalar;
use vstd::utf8::encode_utf8;
use vstd::utf8::encode_utf8_decode_utf8;
use vstd::utf8::encode_utf8_valid_utf8;
use vstd::utf8::is_scalar;
use vstd::utf8::valid_utf8;

verus! {

/// The name of a subrepository.
#[derive(Clone, Debug, PartialEq, Eq, Hash, PartialOrd, Ord)]
pub struct SubRepoName(String);

impl View for SubRepoName {
    type V = Seq<char>;

    closed spec fn view(&self) -> Seq<char> {
        self.0@
    }
}

impl SubRepoName {
    pub fn new(name: String) -> (r: Self)
        ensures
            r@ == name@,
    {
        SubRepoName(name)
    }

    /// A copy of the name.
    pub fn duplicate(&self) -> (r: Self)
        ensures
            r == *self,
    {
        SubRepoName(self.0.clone())
    }

    /// The name as text.
    pub fn as_str(&self) -> (r: &str)
        ensures
            r@ == self@,
    {
        self.0.as_str()
    }
}

/// Either the top repository or a named subrepository.
#[derive(Clone, Debug, PartialEq, Eq, Hash, PartialOrd, Ord)]
pub enum RepoName {
    Top,
    SubRepo(SubRepoName),
}

pub open spec fn top_text() -> Seq<char> {
    seq!['t', 'o', 'p']
}

/// The text of a repository name: `top` for the top repository.
pub open spec fn repo_name_text(n: RepoName) -> Seq<char> {
    match n {
        RepoName::Top => top_text(),
        RepoName::SubRepo(s) => s@,
    }
}

pub open spec fn namespaces_text() -> Seq<char> {
    seq!['r', 'e', 'f', 's', '/', 'n', 'a', 'm', 'e', 's', 'p', 'a', 'c', 'e', 's', '/']
}

pub open spec fn namespaces_bytes() -> Seq<u8> {
    seq![114u8, 101, 102, 115, 47, 110, 97, 109, 101, 115, 112, 97, 99, 101, 115, 47]
}

/// Why a ref name is no ref of a repository namespace.
#[derive(Debug)]
pub enum RefNameError {
    /// It does not start with `refs/namespaces/`.
    NotAToprepoRef { fullname: Vec<u8> },
    /// No `/` follows the namespace name.
    TooShortRef { fullname: Vec<u8> },
    /// The namespace name is not valid UTF-8.
    InvalidEncoding { fullname: Vec<u8> },
}

/// The kinds of [`RefNameError`].
pub enum RefNameFault {
    NotAToprepoRef,
    TooShortRef,
    InvalidEncoding,
}

pub open spec fn ref_name_fault(e: RefNameError) -> (RefNameFault, Seq<u8>) {
    match e {
        RefNameError::NotAToprepoRef { fullname } => (RefNameFault::NotAToprepoRef, fullname@),
        RefNameError::TooShortRef { fullname } => (RefNameFault::TooShortRef, fullname@),
        RefNameError::InvalidEncoding { fullname } => (RefNameFault::InvalidEncoding, fullname@),
    }
}

/// The name of the repository whose namespace holds the ref `fullname`,
/// which is `refs/namespaces/<name>/...`.
pub open spec fn spec_from_ref(fullname: Seq<u8>) -> Result<Seq<char>, RefNameFault> {
    let p = namespaces_bytes();
    if !(p.len() <= fullname.len() && fullname.take(p.len() as int) == p) {
        Err(RefNameFault::NotAToprepoRef)
    } else {
        let rest = fullname.skip(p.len() as int);
        match first_index(rest, 47u8) {
            None => Err(RefNameFault::TooShortRef),
            Some(idx) => if valid_utf8(rest.take(idx)) {
                Ok(decode_utf8(rest.take(idx)))
            } else {
                Err(RefNameFault::InvalidEncoding)
            },
        }
    }
}

impl RepoName {
    /// A copy of the name.
    pub fn duplicate(&self) -> (r: Self)
        ensures
            r == *self,
    {
        match self {
            RepoName::Top => RepoName::Top,
            RepoName::SubRepo(n) => RepoName::SubRepo(n.duplicate()),
        }
    }

    /// `top` names the top repository, anything else a subrepository.
    pub fn new(s: &str) -> (r: Self)
        ensures
            repo_name_text(r) == s@,
            r is Top <==> s@ == top_text(),
    {
        let c = chars_of(s);
        let t = chars_of("top");
        proof {
            reveal_strlit("top");
            assert(t@ =~= top_text());
        }
        if chars_eq(&c, &t) {
            RepoName::Top
        } else {
            RepoName::SubRepo(SubRepoName::new(string_of(&c)))
        }
    }

    /// The name as text, `top` for the top repository.
    pub fn name(&self) -> (r: &str)
        ensures
            r@ == repo_name_text(*self),
    {
        match self {
            RepoName::Top => {
                proof {
                    reveal_strlit("top");
                }
                "top"
            },
            RepoName::SubRepo(name) => name.as_str(),
        }
    }

    /// `refs/namespaces/<name>/`, the prefix of the refs of this repository.
    pub fn to_ref_prefix(&self) -> (r: String)
        ensures
            r@ == namespaces_text() + repo_name_text(*self) + seq!['/'],
    {
        let mut v = chars_of("refs/namespaces/");
        proof {
            reveal_strlit("refs/namespaces/");
        }
        let n = chars_of(self.name());
        push_all(&mut v, &n);
        v.push('/');
        string_of(&v)
    }

    /// The repository whose namespace holds the ref `fullname`, such as
    /// `refs/namespaces/<name>/heads/main`.
    pub fn from_ref(fullname: &[u8]) -> (r: Result<RepoName, RefNameError>)
        ensures
            match spec_from_ref(fullname@) {
                Ok(t) => r matches Ok(n) && repo_name_text(n) == t && (n is Top <==> t
                    == top_text()),
                Err(k) => r matches Err(e) && ref_name_fault(e) == (k, fullname@),
            },
    {
        let p: [u8; 16] = [114u8, 101, 102, 115, 47, 110, 97, 109, 101, 115, 112, 97, 99, 101, 115, 47];
        let ps = p.as_slice();
        assert(ps@ =~= namespaces_bytes());
        if !bytes_start_with(fullname, ps) {
            return Err(RefNameError::NotAToprepoRef { fullname: bytes_to_vec(fullname) });
        }
        let n = fullname.len();
        let ghost rest = fullname@.skip(16);
        let mut i: usize = 16;
        while i < n && fullname[i] != 47u8
            invariant
                16 <= i <= n == fullname@.len(),
                rest == fullname@.skip(16),
                forall|j: int| 0 <= j < i - 16 ==> rest[j] != 47u8,
            decreases n - i,
        {
            i = i + 1;
        }
        if i == n {
            proof {
                lemma_first_index(rest, 47u8, rest.len() as int);
            }
            return Err(RefNameError::TooShortRef { fullname: bytes_to_vec(fullname) });
        }
        proof {
            lemma_first_index(rest, 47u8, i - 16);
        }
        let name_bytes = sub_bytes(fullname, 16, i);
        assert(name_bytes@ =~= rest.take(i - 16));
        match str_from_utf8(name_bytes.as_slice()) {
            Some(name) => Ok(RepoName::new(name)),
            None => Err(RefNameError::InvalidEncoding { fullname: bytes_to_vec(fullname) }),
        }
    }
}

/// The UTF-8 encoding of a scalar other than `/` holds no `/` byte.
proof fn lemma_scalar_no_slash(c: u32)
    requires
        is_scalar(c),
        c != 47u32,
    ensures
        !encode_scalar(c).contains(47u8),
{
    let e = encode_scalar(c);
    if c <= 0x7F {
        assert((c & 0x7F) as u8 != 47u8) by (bit_vector)
            requires
                c <= 0x7F,
                c != 47u32,
        ;
        assert(e =~= seq![(c & 0x7F) as u8]);
    } else {
        assert((0x80u8 | (c & 0x3F) as u8) != 47u8) by (bit_vector);
        assert((0x80u8 | ((c >> 6) & 0x3F) as u8) != 47u8) by (bit_vector);
        assert((0x80u8 | ((c >> 12) & 0x3F) as u8) != 47u8) by (bit_vector);
        assert((0xC0u8 | ((c >> 6) & 0x1F) as u8) != 47u8) by (bit_vector);
        assert((0xE0u8 | ((c >> 12) & 0x0F) as u8) != 47u8) by (bit_vector);
        assert((0xF0u8 | ((c >> 18) & 0x7) as u8) != 47u8) by (bit_vector);
    }
    assert forall|j: int| 0 <= j < e.len() implies e[j] != 47u8 by {};
}

/// Text without `/` encodes to bytes without `/`.
proof fn lemma_encode_no_slash(chars: Seq<char>)
    requires
        !chars.contains('/'),
    ensures
        !encode_utf8(chars).contains(47u8),
    decreases chars.len(),
{
    if chars.len() > 0 {
        let rest = chars.drop_first();
        assert(!rest.contains('/')) by {
            if rest.contains('/') {
                let k = choose|k: int| 0 <= k < rest.len() && rest[k] == '/';
                assert(chars[k + 1] == '/');
            }
        };
        lemma_encode_no_slash(rest);
        assert(chars[0] != '/');
        vstd::utf8::char_u32_cast(chars[0], chars[0] as u32);
        assert((47u32 as char) == '/');
        assert(chars[0] as u32 != 47u32);
        vstd::utf8::char_is_scalar(chars[0]);
        lemma_scalar_no_slash(chars[0] as u32);
        let a = encode_scalar(chars[0] as u32);
        let b = encode_utf8(rest);
        assert(!(a + b).contains(47u8)) by {
            if (a + b).contains(47u8) {
                let k = choose|k: int| 0 <= k < (a + b).len() && (a + b)[k] == 47u8;
                if k < a.len() {
                    assert(a[k] == 47u8);
                } else {
                    assert(b[k - a.len()] == 47u8);
                }
            }
        };
    }
}

/// Encoding text one part after the other gives the encodings one after the
/// other.
proof fn lemma_encode_concat(a: Seq<char>, b: Seq<char>)
    ensures
        encode_utf8(a + b) == encode_utf8(a) + encode_utf8(b),
    decreases a.len(),
{
    if a.len() == 0 {
        assert(a + b =~= b);
        assert(encode_utf8(a) + encode_utf8(b) =~= encode_utf8(b));
    } else {
        lemma_encode_concat(a.drop_first(), b);
        assert((a + b).drop_first() =~= a.drop_first() + b);
        assert((a + b)[0] == a[0]);
        let s = encode_scalar(a[0] as u32);
        assert(s + (encode_utf8(a.drop_first()) + encode_utf8(b)) =~= (s + encode_utf8(
            a.drop_first(),
        )) + encode_utf8(b));
    }
}

/// A reference under the prefix of a repository's namespace, such as
/// `refs/namespaces/<name>/heads/main`, is read back as a reference of that
/// repository, as long as its name holds no `/`.
pub proof fn law_repo_name_from_ref_prefix(name: Seq<char>, rest: Seq<u8>)
    requires
        !name.contains('/'),
    ensures
        spec_from_ref(encode_utf8(namespaces_text() + name + seq!['/']) + rest)
            == Ok::<Seq<char>, RefNameFault>(name),
{
    let ns = namespaces_text();
    lemma_encode_concat(ns + name, seq!['/']);
    lemma_encode_concat(ns, name);
    assert(vstd::utf8::is_ascii_chars(ns));
    vstd::utf8::is_ascii_chars_encode_utf8(ns);
    assert(encode_utf8(ns) =~= namespaces_bytes());
    vstd::utf8::is_ascii_chars_encode_utf8(seq!['/']);
    assert(encode_utf8(seq!['/']) =~= seq![47u8]);
    let en = encode_utf8(name);
    let full = encode_utf8(ns + name + seq!['/']) + rest;
    assert(full =~= namespaces_bytes() + en + seq![47u8] + rest);
    let p = namespaces_bytes();
    assert(full.take(p.len() as int) =~= p);
    let r = full.skip(p.len() as int);
    assert(r =~= en + seq![47u8] + rest);
    lemma_encode_no_slash(name);
    assert forall|j: int| 0 <= j < en.len() implies r[j] != 47u8 by {
        assert(r[j] == en[j]);
        if en[j] == 47u8 {
            assert(en.contains(47u8));
        }
    };
    lemma_first_index(r, 47u8, en.len() as int);
    assert(r.take(en.len() as int) =~= en);
    encode_utf8_valid_utf8(name);
    encode_utf8_decode_utf8(name);
}

} // verus!
