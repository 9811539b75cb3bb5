//! The git-toprepo configuration: where it is loaded from, how subrepos are
//! named after their URLs, and the checks on a subrepo's settings.
use crate::order::chars_lt;
use crate::order::chars_strictly_sorted;
use crate::order::lemma_chars_le_antisymmetric;
use crate::order::lemma_chars_le_total;
use crate::order::lemma_chars_le_transitive;
use crate::repo_name::RepoName;
use crate::repo_name::SubRepoName;
use crate::text::chars_of;
use crate::text::first_index;
use crate::text::has_char;
use crate::text::has_prefix;
use crate::text::has_suffix;
use crate::text::join_chars;
use crate::text::join_with;
use crate::text::lemma_first_index;
use crate::text::push_all;
use crate::text::split_once;
use crate::text::split_once_chars;
use crate::text::starts_with;
use crate::text::ends_with;
use crate::text::string_of;
use crate::text::strings_view;
use crate::text::sub_chars;
use sha2::Digest;
use vstd::prelude::*;
use vstd::utf8::encode_utf8;

verus! {

/// The git-config key that holds the location of the configuration.
pub const GIT_CONFIG_KEY: &'static str = "toprepo.config";

/// Where the configuration is loaded from.
#[derive(Debug, PartialEq, Eq)]
pub enum ConfigLocation {
    /// A blob in the repository, at `path` in the commit `gitref` points to.
    RepoBlob { gitref: String, path: String },
    /// A file relative to the root of the main worktree (the primary
    /// checkout of the repository).
    Local { path: String },
    /// A file relative to the root of the current worktree, which links to
    /// the main worktree but can be anywhere on the file system.
    Worktree { path: String },
}

pub enum ConfigLocationView {
    RepoBlob { gitref: Seq<char>, path: Seq<char> },
    Local { path: Seq<char> },
    Worktree { path: Seq<char> },
}

impl View for ConfigLocation {
    type V = ConfigLocationView;

    open spec fn view(&self) -> ConfigLocationView {
        match self {
            ConfigLocation::RepoBlob { gitref, path } => ConfigLocationView::RepoBlob {
                gitref: gitref@,
                path: path@,
            },
            ConfigLocation::Local { path } => ConfigLocationView::Local { path: path@ },
            ConfigLocation::Worktree { path } => ConfigLocationView::Worktree { path: path@ },
        }
    }
}

pub open spec fn repo_tag() -> Seq<char> {
    seq!['r', 'e', 'p', 'o', ':']
}

pub open spec fn ref_tag() -> Seq<char> {
    seq!['r', 'e', 'f', ':']
}

pub open spec fn local_tag() -> Seq<char> {
    seq!['l', 'o', 'c', 'a', 'l', ':']
}

pub open spec fn worktree_tag() -> Seq<char> {
    seq!['w', 'o', 'r', 'k', 't', 'r', 'e', 'e', ':']
}

/// The text of a location: `ref:<ref>:<path>`, `local:<path>` or
/// `worktree:<path>`.
pub open spec fn location_text(loc: ConfigLocationView) -> Seq<char> {
    match loc {
        ConfigLocationView::RepoBlob { gitref, path } => ref_tag() + gitref + seq![':'] + path,
        ConfigLocationView::Local { path } => local_tag() + path,
        ConfigLocationView::Worktree { path } => worktree_tag() + path,
    }
}

/// Why a text is no location.
#[derive(Debug, PartialEq, Eq)]
pub enum ConfigLocationError {
    /// `ref:` (or `repo:`) without a second `:` between the ref and the path.
    InvalidRepoLocation { location: String },
    /// Neither `ref:`, `repo:`, `local:` nor `worktree:`.
    InvalidLocation { location: String },
}

pub enum LocationFault {
    InvalidRepoLocation,
    InvalidLocation,
}

/// The location a text names: `ref:<ref>:<path>` (also written
/// `repo:<ref>:<path>`), `local:<path>` or `worktree:<path>`.
pub open spec fn spec_parse_location(s: Seq<char>) -> Result<ConfigLocationView, LocationFault> {
    if has_prefix(s, repo_tag()) {
        match split_once(s.skip(5), ':') {
            Some((gitref, path)) => Ok(ConfigLocationView::RepoBlob { gitref, path }),
            None => Err(LocationFault::InvalidRepoLocation),
        }
    } else if has_prefix(s, ref_tag()) {
        match split_once(s.skip(4), ':') {
            Some((gitref, path)) => Ok(ConfigLocationView::RepoBlob { gitref, path }),
            None => Err(LocationFault::InvalidRepoLocation),
        }
    } else if has_prefix(s, local_tag()) {
        Ok(ConfigLocationView::Local { path: s.skip(6) })
    } else if has_prefix(s, worktree_tag()) {
        Ok(ConfigLocationView::Worktree { path: s.skip(9) })
    } else {
        Err(LocationFault::InvalidLocation)
    }
}

pub open spec fn location_error_view(e: ConfigLocationError) -> (LocationFault, Seq<char>) {
    match e {
        ConfigLocationError::InvalidRepoLocation { location } => (
            LocationFault::InvalidRepoLocation,
            location@,
        ),
        ConfigLocationError::InvalidLocation { location } => (
            LocationFault::InvalidLocation,
            location@,
        ),
    }
}

impl ConfigLocation {
    /// Parses `ref:<ref>:<path>` (also written `repo:<ref>:<path>`),
    /// `local:<path>` or `worktree:<path>`.
    pub fn parse(s: &str) -> (r: Result<ConfigLocation, ConfigLocationError>)
        ensures
            match spec_parse_location(s@) {
                Ok(loc) => r matches Ok(l) && l@ == loc,
                Err(f) => r matches Err(e) && location_error_view(e) == (f, s@),
            },
    {
        let c = chars_of(s);
        let rt = chars_of("repo:");
        let ft = chars_of("ref:");
        let lt = chars_of("local:");
        let wt = chars_of("worktree:");
        proof {
            reveal_strlit("repo:");
            reveal_strlit("ref:");
            reveal_strlit("local:");
            reveal_strlit("worktree:");
            assert(rt@ =~= repo_tag());
            assert(ft@ =~= ref_tag());
            assert(lt@ =~= local_tag());
            assert(wt@ =~= worktree_tag());
        }
        if starts_with(&c, &rt) {
            let residual = sub_chars(&c, 5, c.len());
            assert(residual@ =~= s@.skip(5));
            match split_once_chars(&residual, ':') {
                Some((g, p)) => Ok(ConfigLocation::RepoBlob { gitref: string_of(&g), path: string_of(&p) }),
                None => Err(ConfigLocationError::InvalidRepoLocation { location: string_of(&c) }),
            }
        } else if starts_with(&c, &ft) {
            let residual = sub_chars(&c, 4, c.len());
            assert(residual@ =~= s@.skip(4));
            match split_once_chars(&residual, ':') {
                Some((g, p)) => Ok(ConfigLocation::RepoBlob { gitref: string_of(&g), path: string_of(&p) }),
                None => Err(ConfigLocationError::InvalidRepoLocation { location: string_of(&c) }),
            }
        } else if starts_with(&c, &lt) {
            let p = sub_chars(&c, 6, c.len());
            assert(p@ =~= s@.skip(6));
            Ok(ConfigLocation::Local { path: string_of(&p) })
        } else if starts_with(&c, &wt) {
            let p = sub_chars(&c, 9, c.len());
            assert(p@ =~= s@.skip(9));
            Ok(ConfigLocation::Worktree { path: string_of(&p) })
        } else {
            Err(ConfigLocationError::InvalidLocation { location: string_of(&c) })
        }
    }

    /// The text of the location, as it is parsed.
    pub fn to_text(&self) -> (r: String)
        ensures
            r@ == location_text(self@),
    {
        proof {
            reveal_strlit("ref:");
            reveal_strlit("local:");
            reveal_strlit("worktree:");
        }
        match self {
            ConfigLocation::RepoBlob { gitref, path } => {
                let mut v = chars_of("ref:");
                push_all(&mut v, &chars_of(gitref.as_str()));
                v.push(':');
                push_all(&mut v, &chars_of(path.as_str()));
                assert(v@ =~= location_text(self@));
                string_of(&v)
            },
            ConfigLocation::Local { path } => {
                let mut v = chars_of("local:");
                push_all(&mut v, &chars_of(path.as_str()));
                assert(v@ =~= location_text(self@));
                string_of(&v)
            },
            ConfigLocation::Worktree { path } => {
                let mut v = chars_of("worktree:");
                push_all(&mut v, &chars_of(path.as_str()));
                assert(v@ =~= location_text(self@));
                string_of(&v)
            },
        }
    }

    /// The object name that `git cat-file -e` checks for a `ref:` location,
    /// `<ref>:<path>`, or the path to look for in a worktree.
    pub fn existence_target(&self) -> (r: String)
        ensures
            match self@ {
                ConfigLocationView::RepoBlob { gitref, path } => r@ == gitref + seq![':'] + path,
                ConfigLocationView::Local { path } => r@ == path,
                ConfigLocationView::Worktree { path } => r@ == path,
            },
    {
        match self {
            ConfigLocation::RepoBlob { gitref, path } => {
                let mut v = chars_of(gitref.as_str());
                v.push(':');
                push_all(&mut v, &chars_of(path.as_str()));
                string_of(&v)
            },
            ConfigLocation::Local { path } => path.clone(),
            ConfigLocation::Worktree { path } => path.clone(),
        }
    }
}

/// A location written as text parses back to itself, provided the ref of
/// a `ref:` location holds no `:`.
pub proof fn law_location_text_parses_back(loc: ConfigLocationView)
    requires
        loc matches ConfigLocationView::RepoBlob { gitref, path } ==> !has_char(gitref, ':'),
    ensures
        spec_parse_location(location_text(loc)) == Ok::<ConfigLocationView, LocationFault>(loc),
{
    let t = location_text(loc);
    match loc {
        ConfigLocationView::RepoBlob { gitref, path } => {
            assert(t.subrange(0, 4) =~= ref_tag());
            if has_prefix(t, repo_tag()) {
                assert(t.subrange(0, 5)[2] == t[2]);
            }
            let rest = t.skip(4);
            assert(rest =~= gitref + seq![':'] + path);
            assert forall|j: int| 0 <= j < gitref.len() implies rest[j] != ':' by {
                assert(rest[j] == gitref[j]);
            };
            lemma_first_index(rest, ':', gitref.len() as int);
            assert(rest.take(gitref.len() as int) =~= gitref);
            assert(rest.skip(gitref.len() + 1int) =~= path);
        },
        ConfigLocationView::Local { path } => {
            assert(t[0] == 'l');
            assert(t.subrange(0, 6) =~= local_tag());
            assert(t.skip(6) =~= path);
        },
        ConfigLocationView::Worktree { path } => {
            assert(t[0] == 'w');
            assert(t[0] != repo_tag()[0]);
            assert(t.subrange(0, 9) =~= worktree_tag());
            assert(t.skip(9) =~= path);
            if has_prefix(t, local_tag()) {
                assert(t.subrange(0, 6)[0] == 'w');
            }
        },
    }
}

/// A text that parses as a location is the text of that location, where
/// it is not written with the older `repo:` tag.
pub proof fn law_parsed_location_is_its_text(s: Seq<char>)
    requires
        spec_parse_location(s) is Ok,
        !has_prefix(s, repo_tag()),
    ensures
        location_text(spec_parse_location(s)->Ok_0) == s,
{
    let loc = spec_parse_location(s)->Ok_0;
    if has_prefix(s, ref_tag()) {
        let rest = s.skip(4);
        let i = crate::text::first_index(rest, ':')->Some_0;
        lemma_first_index_found(rest, ':');
        assert(rest =~= rest.take(i) + seq![':'] + rest.skip(i + 1));
        assert(s =~= ref_tag() + rest);
    } else if has_prefix(s, local_tag()) {
        assert(s =~= local_tag() + s.skip(6));
    } else {
        assert(s =~= worktree_tag() + s.skip(9));
    }
}

proof fn lemma_first_index_found(s: Seq<char>, c: char)
    requires
        crate::text::first_index(s, c) is Some,
    ensures
        0 <= crate::text::first_index(s, c)->Some_0 < s.len(),
        s[crate::text::first_index(s, c)->Some_0] == c,
    decreases s.len(),
{
    if s.len() > 0 && s[0] != c {
        lemma_first_index_found(s.drop_first(), c);
    }
}

/// Settings about logging.
#[derive(Clone, Debug, Default)]
pub struct LogConfig {
    /// Warning messages that should be ignored and not displayed for the
    /// user.
    pub ignore_warnings: Vec<String>,
    /// Error messages that were displayed to the user during execution.
    pub reported_errors: Vec<String>,
    /// Warning messages that were displayed to the user during execution.
    pub reported_warnings: Vec<String>,
}

pub open spec fn dot_git() -> Seq<char> {
    seq!['.', 'g', 'i', 't']
}

/// The URL path without a trailing `.git`, or else without a trailing `/`.
pub open spec fn strip_url_suffix(p: Seq<char>) -> Seq<char> {
    if has_suffix(p, dot_git()) {
        p.take(p.len() - 4)
    } else if has_suffix(p, seq!['/']) {
        p.drop_last()
    } else {
        p
    }
}

/// The path without its leading `../`, `./` and `/`.
pub open spec fn strip_leading_dirs(p: Seq<char>) -> Seq<char>
    decreases p.len(),
{
    if has_prefix(p, seq!['.', '.', '/']) {
        strip_leading_dirs(p.skip(3))
    } else if has_prefix(p, seq!['.', '/']) {
        strip_leading_dirs(p.skip(2))
    } else if has_prefix(p, seq!['/']) {
        strip_leading_dirs(p.skip(1))
    } else {
        p
    }
}

/// `/` replaced by `_`.
pub open spec fn slashes_to_underscores(p: Seq<char>) -> Seq<char> {
    p.map_values(|c: char| if c == '/' { '_' } else { c })
}

/// The subrepo name made from a URL path, if it is not `top`.
pub open spec fn spec_default_name(url_path: Seq<char>) -> Option<Seq<char>> {
    let n = slashes_to_underscores(strip_leading_dirs(strip_url_suffix(url_path)));
    if n == crate::repo_name::top_text() {
        None
    } else {
        Some(n)
    }
}

/// The name a subrepo gets by default from the path of its URL: without
/// `.git` (or a trailing `/`) and leading `../`, `./` and `/`, with `/`
/// replaced by `_`. The name `top` is taken, so there is none then.
pub fn default_name_from_url(url_path: &str) -> (r: Option<SubRepoName>)
    ensures
        match spec_default_name(url_path@) {
            Some(n) => r matches Some(s) && s@ == n,
            None => r is None,
        },
{
    let c = chars_of(url_path);
    let dg = chars_of(".git");
    proof {
        reveal_strlit(".git");
        assert(dg@ =~= dot_git());
    }
    let n = c.len();
    let end: usize = if ends_with(&c, &dg) {
        n - 4
    } else if n > 0 && c[n - 1] == '/' {
        proof {
            assert(c@.subrange(n - 1, n as int) =~= seq!['/']);
        }
        n - 1
    } else {
        proof {
            if has_suffix(c@, seq!['/']) {
                assert(c@.subrange(n - 1, n as int)[0] == c@[n - 1]);
            }
        }
        n
    };
    let ghost stripped = strip_url_suffix(url_path@);
    assert(c@.take(end as int) =~= stripped);
    let mut start: usize = 0;
    assert(c@.take(end as int).skip(0) =~= c@.take(end as int));
    while start < end
        invariant
            start <= end <= c@.len(),
            c@ == url_path@,
            stripped == c@.take(end as int),
            strip_leading_dirs(c@.subrange(start as int, end as int)) == strip_leading_dirs(
                stripped,
            ),
        ensures
            start <= end <= c@.len(),
            c@ == url_path@,
            stripped == c@.take(end as int),
            strip_leading_dirs(c@.subrange(start as int, end as int)) == strip_leading_dirs(
                stripped,
            ),
            strip_leading_dirs(c@.subrange(start as int, end as int)) == c@.subrange(
                start as int,
                end as int,
            ),
        decreases end - start,
    {
        let ghost cur = c@.subrange(start as int, end as int);
        if end - start >= 3 && c[start] == '.' && c[start + 1] == '.' && c[start + 2] == '/' {
            assert(cur.subrange(0, 3) =~= seq!['.', '.', '/']);
            assert(cur.skip(3) =~= c@.subrange(start + 3, end as int));
            start = start + 3;
        } else if end - start >= 2 && c[start] == '.' && c[start + 1] == '/' {
            assert(cur.subrange(0, 2) =~= seq!['.', '/']);
            assert(cur.skip(2) =~= c@.subrange(start + 2, end as int));
            proof {
                if has_prefix(cur, seq!['.', '.', '/']) {
                    assert(cur.subrange(0, 3)[1] == cur[1]);
                }
            }
            start = start + 2;
        } else if c[start] == '/' {
            assert(cur.subrange(0, 1) =~= seq!['/']);
            assert(cur.skip(1) =~= c@.subrange(start + 1, end as int));
            proof {
                if has_prefix(cur, seq!['.', '.', '/']) {
                    assert(cur.subrange(0, 3)[0] == cur[0]);
                }
                if has_prefix(cur, seq!['.', '/']) {
                    assert(cur.subrange(0, 2)[0] == cur[0]);
                }
            }
            start = start + 1;
        } else {
            proof {
                if has_prefix(cur, seq!['.', '.', '/']) {
                    assert(cur.subrange(0, 3)[0] == cur[0]);
                    assert(cur.subrange(0, 3)[1] == cur[1]);
                    assert(cur.subrange(0, 3)[2] == cur[2]);
                }
                if has_prefix(cur, seq!['.', '/']) {
                    assert(cur.subrange(0, 2)[0] == cur[0]);
                    assert(cur.subrange(0, 2)[1] == cur[1]);
                }
                if has_prefix(cur, seq!['/']) {
                    assert(cur.subrange(0, 1)[0] == cur[0]);
                }
                assert(strip_leading_dirs(cur) == cur);
            }
            break ;
        }
    }
    let ghost rest = c@.subrange(start as int, end as int);
    let mut name: Vec<char> = Vec::new();
    let mut i = start;
    while i < end
        invariant
            start <= i <= end <= c@.len(),
            rest == c@.subrange(start as int, end as int),
            name@ == slashes_to_underscores(c@.subrange(start as int, i as int)),
        decreases end - i,
    {
        let ch = c[i];
        name.push(if ch == '/' {
            '_'
        } else {
            ch
        });
        assert(c@.subrange(start as int, i + 1) =~= c@.subrange(start as int, i as int).push(ch));
        assert(name@ =~= slashes_to_underscores(c@.subrange(start as int, i + 1)));
        i = i + 1;
    }
    let t = chars_of("top");
    proof {
        reveal_strlit("top");
        assert(t@ =~= crate::repo_name::top_text());
    }
    if crate::text::chars_eq(&name, &t) {
        None
    } else {
        Some(SubRepoName::new(string_of(&name)))
    }
}

/// Fetch settings of a subrepo.
#[derive(Clone, Debug, PartialEq, Eq)]
pub struct FetchConfig {
    pub prune: bool,
    pub depth: i32,
    pub url: Option<String>,
}

impl Default for FetchConfig {
    fn default() -> (r: Self)
        ensures
            r.prune,
            r.depth == 0,
            r.url is None,
    {
        FetchConfig { prune: true, depth: 0, url: None }
    }
}

/// Push settings of a subrepo.
#[derive(Clone, Debug, Default, PartialEq, Eq)]
pub struct PushConfig {
    pub args: Vec<String>,
    pub url: Option<String>,
}

/// The configuration of a subrepo. Without `fetch.url` the only entry of
/// `urls` is fetched from; without `push.url` it is pushed to where it is
/// fetched from.
#[derive(Clone, Debug, PartialEq, Eq)]
pub struct SubRepoConfig {
    pub urls: Vec<String>,
    pub fetch: FetchConfig,
    pub push: PushConfig,
    /// If `false`, the subrepo is not enabled, which avoids fetching an old
    /// repository.
    pub enabled: bool,
    /// Commits that are kept as submodules instead of being expanded.
    pub skip_expanding: Vec<String>,
}

/// Whether a subrepo configuration says where to fetch from: an explicit
/// fetch URL, exactly one URL, or a disabled subrepo with several URLs.
pub open spec fn subrepo_config_valid(c: SubRepoConfig) -> bool {
    c.fetch.url is Some || c.urls@.len() == 1 || (!c.enabled && c.urls@.len() > 1)
}

impl SubRepoConfig {
    /// Checks that the fetch URL is known: `fetch.url` is set or `urls` has
    /// exactly one element (or several for a disabled subrepo).
    pub fn validate(&self) -> (r: Result<(), String>)
        ensures
            r is Ok <==> subrepo_config_valid(*self),
    {
        if self.fetch.url.is_some() {
            Ok(())
        } else if self.urls.len() == 1 {
            Ok(())
        } else if !self.enabled && self.urls.len() > 1 {
            Ok(())
        } else {
            Err(
                string_of(
                    &chars_of(
                        "Either .fetch.url needs to be set or .urls must have exactly one element",
                    ),
                ),
            )
        }
    }

    /// The URL to fetch from.
    pub fn resolve_fetch_url(&self) -> (r: &String)
        requires
            subrepo_config_valid(*self),
        ensures
            match self.fetch.url {
                Some(u) => *r == u,
                None => *r == self.urls@[0],
            },
    {
        match &self.fetch.url {
            Some(url) => url,
            None => &self.urls[0],
        }
    }

    /// The URL to push to.
    pub fn resolve_push_url(&self) -> (r: &String)
        requires
            self.push.url is Some || subrepo_config_valid(*self),
        ensures
            match self.push.url {
                Some(u) => *r == u,
                None => match self.fetch.url {
                    Some(u) => *r == u,
                    None => *r == self.urls@[0],
                },
            },
    {
        match &self.push.url {
            Some(url) => url,
            None => self.resolve_fetch_url(),
        }
    }

    /// The fetch settings with the URL filled in.
    pub fn get_fetch_config_with_url(&self) -> (r: FetchConfig)
        requires
            subrepo_config_valid(*self),
        ensures
            r.prune == self.fetch.prune,
            r.depth == self.fetch.depth,
            r.url == Some(match self.fetch.url {
                Some(u) => u,
                None => self.urls@[0],
            }),
    {
        FetchConfig {
            prune: self.fetch.prune,
            depth: self.fetch.depth,
            url: Some(self.resolve_fetch_url().clone()),
        }
    }

    /// The push settings with the URL filled in.
    pub fn get_push_config_with_url(&self) -> (r: PushConfig)
        requires
            self.push.url is Some || subrepo_config_valid(*self),
        ensures
            r.args@ == self.push.args@,
            r.url == Some(match self.push.url {
                Some(u) => u,
                None => match self.fetch.url {
                    Some(u) => u,
                    None => self.urls@[0],
                },
            }),
    {
        let mut args: Vec<String> = Vec::new();
        let mut i: usize = 0;
        while i < self.push.args.len()
            invariant
                i <= self.push.args@.len(),
                args@ == self.push.args@.take(i as int),
            decreases self.push.args.len() - i,
        {
            args.push(self.push.args[i].clone());
            assert(args@ =~= self.push.args@.take(i + 1));
            i = i + 1;
        }
        assert(args@ =~= self.push.args@);
        PushConfig { args, url: Some(self.resolve_push_url().clone()) }
    }
}

/// The lowercase hexadecimal digits, indexed by their value.
pub open spec fn hex_alphabet() -> Seq<char> {
    seq!['0', '1', '2', '3', '4', '5', '6', '7', '8', '9', 'a', 'b', 'c', 'd', 'e', 'f']
}

/// Bytes written as lowercase hexadecimal, two digits per byte, high nibble first.
pub open spec fn hex_text(bytes: Seq<u8>) -> Seq<char>
    decreases bytes.len(),
{
    if bytes.len() == 0 {
        Seq::empty()
    } else {
        seq![hex_alphabet()[bytes[0] as int / 16], hex_alphabet()[bytes[0] as int % 16]] + hex_text(
            bytes.drop_first(),
        )
    }
}

/// The SHA-256 digest of a byte string.
pub uninterp spec fn sha256_digest(data: Seq<u8>) -> Seq<u8>;

/// Calls `sha2::Sha256::digest` (through the `digest::Digest` trait) on the
/// bytes. The digest itself is only named here; that it is 32 bytes long is
/// the output size that `sha2` declares for SHA-256.
#[verifier::external_body]
fn sha256(data: &[u8]) -> (r: Vec<u8>)
    ensures
        r@ == sha256_digest(data@),
        r@.len() == 32,
{
    sha2::Sha256::digest(data).to_vec()
}

/// Calls `hex::encode`, which writes every byte as two lowercase hexadecimal
/// digits, the high nibble first.
#[verifier::external_body]
fn hex_encode(data: &[u8]) -> (r: String)
    ensures
        r@ == hex_text(data@),
{
    hex::encode(data)
}

/// A digest written as the lowercase hexadecimal text that is stored as the
/// configuration's checksum.
pub fn checksum_hex(digest: &[u8]) -> (r: String)
    ensures
        r@ == hex_text(digest@),
        r@.len() == 2 * digest@.len(),
{
    proof {
        lemma_hex_text_len(digest@);
    }
    hex_encode(digest)
}

/// The hexadecimal text has two digits per byte.
pub proof fn lemma_hex_text_len(bytes: Seq<u8>)
    ensures
        hex_text(bytes).len() == 2 * bytes.len(),
    decreases bytes.len(),
{
    if bytes.len() > 0 {
        lemma_hex_text_len(bytes.drop_first());
    }
}

/// The checksum of a configuration text: the SHA-256 digest of its UTF-8
/// bytes, in lowercase hexadecimal (64 digits).
pub fn config_checksum(config_toml: &str) -> (r: String)
    ensures
        r@ == hex_text(sha256_digest(encode_utf8(config_toml@))),
        r@.len() == 64,
{
    let digest = sha256(config_toml.as_bytes());
    checksum_hex(digest.as_slice())
}

impl Default for SubRepoConfig {
    fn default() -> (r: Self)
        ensures
            subrepo_view(r) == default_subrepo_view(),
    {
        let r = SubRepoConfig {
            urls: Vec::new(),
            fetch: FetchConfig { prune: true, depth: 0, url: None },
            push: PushConfig { args: Vec::new(), url: None },
            enabled: false,
            skip_expanding: Vec::new(),
        };
        assert(strings_view(r.urls@) =~= Seq::<Seq<char>>::empty());
        assert(strings_view(r.push.args@) =~= Seq::<Seq<char>>::empty());
        assert(strings_view(r.skip_expanding@) =~= Seq::<Seq<char>>::empty());
        r
    }
}

/// A subrepo configuration, as values.
pub struct SubRepoConfigView {
    pub urls: Seq<Seq<char>>,
    pub fetch_prune: bool,
    pub fetch_depth: i32,
    pub fetch_url: Option<Seq<char>>,
    pub push_args: Seq<Seq<char>>,
    pub push_url: Option<Seq<char>>,
    pub enabled: bool,
    pub skip_expanding: Seq<Seq<char>>,
}

pub open spec fn opt_text(o: Option<String>) -> Option<Seq<char>> {
    match o {
        Some(s) => Some(s@),
        None => None,
    }
}

pub open spec fn subrepo_view(c: SubRepoConfig) -> SubRepoConfigView {
    SubRepoConfigView {
        urls: strings_view(c.urls@),
        fetch_prune: c.fetch.prune,
        fetch_depth: c.fetch.depth,
        fetch_url: opt_text(c.fetch.url),
        push_args: strings_view(c.push.args@),
        push_url: opt_text(c.push.url),
        enabled: c.enabled,
        skip_expanding: strings_view(c.skip_expanding@),
    }
}

/// The configuration that a subrepo gets when it is added for a URL: no
/// URLs, the default fetch and push settings, and not enabled.
pub open spec fn default_subrepo_view() -> SubRepoConfigView {
    SubRepoConfigView {
        urls: Seq::empty(),
        fetch_prune: true,
        fetch_depth: 0,
        fetch_url: None,
        push_args: Seq::empty(),
        push_url: None,
        enabled: false,
        skip_expanding: Seq::empty(),
    }
}

/// The configuration of git-toprepo: the subrepos by name, in the order of
/// their names.
pub struct GitTopRepoConfig {
    /// The checksum of the text the configuration was read from.
    pub checksum: String,
    /// The subrepos, sorted by name, each name once.
    pub subrepos: Vec<(SubRepoName, SubRepoConfig)>,
    /// The subrepos that were missing in the configuration and have been
    /// added to `subrepos` for a URL.
    pub missing_subrepos: Vec<SubRepoName>,
    pub log: LogConfig,
}

pub open spec fn entries_view(s: Seq<(SubRepoName, SubRepoConfig)>) -> Seq<(Seq<char>, SubRepoConfigView)> {
    s.map_values(|e: (SubRepoName, SubRepoConfig)| (e.0@, subrepo_view(e.1)))
}

pub open spec fn entry_names(s: Seq<(Seq<char>, SubRepoConfigView)>) -> Seq<Seq<char>> {
    s.map_values(|e: (Seq<char>, SubRepoConfigView)| e.0)
}

pub open spec fn names_view(s: Seq<SubRepoName>) -> Seq<Seq<char>> {
    s.map_values(|n: SubRepoName| n@)
}

/// The configuration lists the URL.
pub open spec fn has_url(c: SubRepoConfigView, url: Seq<char>) -> bool {
    c.urls.contains(url)
}

/// The names of the subrepos that list the URL, in order.
pub open spec fn matching_names(s: Seq<(Seq<char>, SubRepoConfigView)>, url: Seq<char>) -> Seq<Seq<char>>
    decreases s.len(),
{
    if s.len() == 0 {
        Seq::empty()
    } else {
        let m = matching_names(s.drop_last(), url);
        if has_url(s.last().1, url) {
            m.push(s.last().0)
        } else {
            m
        }
    }
}

/// The subrepo whose URLs list `url` exactly: none if none does or if it was
/// added for a missing configuration; an error if several do.
pub open spec fn spec_get_name_from_url(
    entries: Seq<(Seq<char>, SubRepoConfigView)>,
    missing: Seq<Seq<char>>,
    url: Seq<char>,
) -> Result<Option<Seq<char>>, Seq<char>> {
    let m = matching_names(entries, url);
    if m.len() == 0 {
        Ok(None)
    } else if m.len() >= 2 {
        Err("Multiple remote candidates for "@ + url + ": "@ + join_with(m, ", "@))
    } else if missing.contains(m[0]) {
        Ok(None)
    } else {
        Ok(Some(m[0]))
    }
}

/// The configuration of the subrepo `name`, if there is one.
pub open spec fn config_of(s: Seq<(Seq<char>, SubRepoConfigView)>, name: Seq<char>) -> Option<
    SubRepoConfigView,
>
    decreases s.len(),
{
    if s.len() == 0 {
        None
    } else if s.last().0 == name {
        Some(s.last().1)
    } else {
        config_of(s.drop_last(), name)
    }
}

fn copy_name(n: &SubRepoName) -> (r: SubRepoName)
    ensures
        r@ == n@,
{
    SubRepoName::new(string_of(&chars_of(n.as_str())))
}

fn lists_url(c: &SubRepoConfig, url: &String) -> (r: bool)
    ensures
        r == has_url(subrepo_view(*c), url@),
{
    let ghost uv = strings_view(c.urls@);
    let mut k: usize = 0;
    while k < c.urls.len()
        invariant
            k <= c.urls@.len(),
            uv == strings_view(c.urls@),
            forall|j: int| 0 <= j < k ==> uv[j] != url@,
        decreases c.urls.len() - k,
    {
        if c.urls[k] == *url {
            assert(uv[k as int] == url@);
            return true;
        }
        k = k + 1;
    }
    assert(!uv.contains(url@));
    false
}

fn is_listed(names: &Vec<SubRepoName>, name: &SubRepoName) -> (r: bool)
    ensures
        r == names_view(names@).contains(name@),
{
    let ghost nv = names_view(names@);
    let target = name.as_str();
    let mut k: usize = 0;
    while k < names.len()
        invariant
            k <= names@.len(),
            nv == names_view(names@),
            target@ == name@,
            forall|j: int| 0 <= j < k ==> nv[j] != name@,
        decreases names.len() - k,
    {
        if crate::text::chars_eq(&chars_of(names[k].as_str()), &chars_of(target)) {
            assert(nv[k as int] == name@);
            return true;
        }
        k = k + 1;
    }
    assert(!nv.contains(name@));
    false
}

impl GitTopRepoConfig {
    /// The subrepos are sorted by name, each name once.
    pub open spec fn wf(&self) -> bool {
        chars_strictly_sorted(entry_names(entries_view(self.subrepos@)))
    }

    /// A configuration without subrepos.
    pub fn new() -> (r: Self)
        ensures
            r.wf(),
            r.subrepos@.len() == 0,
            r.missing_subrepos@.len() == 0,
            r.checksum@.len() == 0,
            r.log.ignore_warnings@.len() == 0,
            r.log.reported_errors@.len() == 0,
            r.log.reported_warnings@.len() == 0,
    {
        let r = GitTopRepoConfig {
            checksum: String::new(),
            subrepos: Vec::new(),
            missing_subrepos: Vec::new(),
            log: LogConfig {
                ignore_warnings: Vec::new(),
                reported_errors: Vec::new(),
                reported_warnings: Vec::new(),
            },
        };
        assert(entry_names(entries_view(r.subrepos@)) =~= Seq::<Seq<char>>::empty());
        r
    }

    /// Gets the subrepo whose URLs list `url` exactly. A URL that is missing
    /// should be added by the user to the subrepo's `urls`.
    pub fn get_name_from_url(&self, url: &str) -> (r: Result<Option<SubRepoName>, String>)
        ensures
            match spec_get_name_from_url(
                entries_view(self.subrepos@),
                names_view(self.missing_subrepos@),
                url@,
            ) {
                Ok(Some(n)) => r matches Ok(Some(x)) && x@ == n,
                Ok(None) => r matches Ok(None),
                Err(m) => r matches Err(x) && x@ == m,
            },
    {
        let ghost ev = entries_view(self.subrepos@);
        let url_s = string_of(&chars_of(url));
        let mut found: Vec<Vec<char>> = Vec::new();
        let mut first: Option<SubRepoName> = None;
        let mut i: usize = 0;
        while i < self.subrepos.len()
            invariant
                i <= self.subrepos@.len(),
                ev == entries_view(self.subrepos@),
                url_s@ == url@,
                found@.map_values(|p: Vec<char>| p@) == matching_names(ev.take(i as int), url@),
                match first {
                    Some(f) => found@.len() > 0 && f@ == found@[0]@,
                    None => found@.len() == 0,
                },
            decreases self.subrepos.len() - i,
        {
            assert(ev.take(i + 1).drop_last() =~= ev.take(i as int));
            assert(ev.take(i + 1).last() == ev[i as int]);
            let (name, c) = (&self.subrepos[i].0, &self.subrepos[i].1);
            if lists_url(c, &url_s) {
                let ghost f0 = found@.map_values(|p: Vec<char>| p@);
                if first.is_none() {
                    first = Some(copy_name(name));
                }
                found.push(chars_of(name.as_str()));
                assert(found@.map_values(|p: Vec<char>| p@) =~= f0.push(name@));
            }
            i = i + 1;
        }
        assert(ev.take(self.subrepos@.len() as int) =~= ev);
        let ghost m = matching_names(ev, url@);
        assert(found@.map_values(|p: Vec<char>| p@) == m);
        if found.len() == 0 {
            return Ok(None);
        }
        if found.len() >= 2 {
            let mut msg = chars_of("Multiple remote candidates for ");
            push_all(&mut msg, &chars_of(url));
            push_all(&mut msg, &chars_of(": "));
            push_all(&mut msg, &join_chars(&found, ", "));
            return Err(string_of(&msg));
        }
        let name = match first {
            Some(f) => f,
            None => {
                return Ok(None);
            },
        };
        assert(name@ == m[0]);
        if is_listed(&self.missing_subrepos, &name) {
            Ok(None)
        } else {
            Ok(Some(name))
        }
    }

    fn subrepo_enabled(&self, n: &SubRepoName) -> (r: bool)
        ensures
            r == match config_of(entries_view(self.subrepos@), n@) {
                Some(c) => c.enabled,
                None => true,
            },
    {
        let ghost ev = entries_view(self.subrepos@);
        let target = chars_of(n.as_str());
        let mut i = self.subrepos.len();
        assert(ev.take(i as int) =~= ev);
        while i > 0
            invariant
                i <= self.subrepos@.len(),
                ev == entries_view(self.subrepos@),
                target@ == n@,
                config_of(ev.take(i as int), n@) == config_of(ev, n@),
            decreases i,
        {
            assert(ev.take(i as int).drop_last() =~= ev.take(i - 1));
            assert(ev.take(i as int).last() == ev[i - 1]);
            assert(ev[i - 1] == (self.subrepos@[i - 1].0@, subrepo_view(
                self.subrepos@[i - 1].1,
            )));
            if crate::text::chars_eq(
                &chars_of(self.subrepos[i - 1].0.as_str()),
                &target,
            ) {
                return self.subrepos[i - 1].1.enabled;
            }
            i = i - 1;
        }
        true
    }

    /// Whether the repository is fetched and expanded: the top repository
    /// always, a subrepo unless its configuration disables it.
    pub fn is_enabled(&self, repo_name: &RepoName) -> (r: bool)
        ensures
            r == match repo_name {
                RepoName::Top => true,
                RepoName::SubRepo(n) => match config_of(entries_view(self.subrepos@), n@) {
                    Some(c) => c.enabled,
                    None => true,
                },
            },
    {
        match repo_name {
            RepoName::Top => true,
            RepoName::SubRepo(n) => self.subrepo_enabled(n),
        }
    }
}

/// The configuration says where to fetch from.
pub open spec fn view_valid(c: SubRepoConfigView) -> bool {
    c.fetch_url is Some || c.urls.len() == 1 || (!c.enabled && c.urls.len() > 1)
}

/// The first subrepo whose configuration does not say where to fetch from.
pub open spec fn first_invalid_subrepo(s: Seq<(Seq<char>, SubRepoConfigView)>) -> Option<int>
    decreases s.len(),
{
    if s.len() == 0 {
        None
    } else {
        match first_invalid_subrepo(s.drop_last()) {
            Some(i) => Some(i),
            None => if !view_valid(s.last().1) {
                Some(s.len() - 1)
            } else {
                None
            },
        }
    }
}

/// Every listed URL with the name of its subrepo, subrepo by subrepo.
pub open spec fn url_pairs(s: Seq<(Seq<char>, SubRepoConfigView)>) -> Seq<(Seq<char>, Seq<char>)>
    decreases s.len(),
{
    if s.len() == 0 {
        Seq::empty()
    } else {
        url_pairs(s.drop_last()) + s.last().1.urls.map_values(|u: Seq<char>| (s.last().0, u))
    }
}

pub open spec fn pair_urls(p: Seq<(Seq<char>, Seq<char>)>) -> Seq<Seq<char>> {
    p.map_values(|x: (Seq<char>, Seq<char>)| x.1)
}

/// The first URL that is listed a second time, with the subrepo that listed
/// it first and the one that listed it again.
pub open spec fn first_duplicate(p: Seq<(Seq<char>, Seq<char>)>) -> Option<
    (Seq<char>, Seq<char>, Seq<char>),
>
    decreases p.len(),
{
    if p.len() == 0 {
        None
    } else {
        match first_duplicate(p.drop_last()) {
            Some(d) => Some(d),
            None => match first_index(pair_urls(p.drop_last()), p.last().1) {
                Some(i) => Some((p.last().1, p[i].0, p.last().0)),
                None => None,
            },
        }
    }
}

/// The checks of a configuration: every subrepo says where to fetch from,
/// and no URL is listed twice.
pub open spec fn spec_validate(entries: Seq<(Seq<char>, SubRepoConfigView)>) -> Result<(), Seq<char>> {
    match first_invalid_subrepo(entries) {
        Some(i) => Err(
            "Invalid subrepo configuration for "@ + entries[i].0 + ": "@
                + "Either .fetch.url needs to be set or .urls must have exactly one element"@,
        ),
        None => match first_duplicate(url_pairs(entries)) {
            Some((u, a, b)) => Err(
                "URLs must be unique across all repos, found "@ + u + " in "@ + a + " and "@ + b,
            ),
            None => Ok(()),
        },
    }
}

proof fn lemma_first_duplicate_extends(p: Seq<(Seq<char>, Seq<char>)>, q: Seq<(Seq<char>, Seq<char>)>)
    requires
        first_duplicate(p) is Some,
    ensures
        first_duplicate(p + q) == first_duplicate(p),
    decreases q.len(),
{
    if q.len() == 0 {
        assert(p + q =~= p);
    } else {
        lemma_first_duplicate_extends(p, q.drop_last());
        assert((p + q).drop_last() =~= p + q.drop_last());
    }
}

proof fn lemma_first_invalid_extends(s: Seq<(Seq<char>, SubRepoConfigView)>, t: Seq<(Seq<char>, SubRepoConfigView)>)
    requires
        first_invalid_subrepo(s) is Some,
    ensures
        first_invalid_subrepo(s + t) == first_invalid_subrepo(s),
    decreases t.len(),
{
    if t.len() == 0 {
        assert(s + t =~= s);
    } else {
        lemma_first_invalid_extends(s, t.drop_last());
        assert((s + t).drop_last() =~= s + t.drop_last());
    }
}

impl GitTopRepoConfig {
    /// Checks that every subrepo says where to fetch from.
    fn check_subrepos(&self) -> (r: Option<usize>)
        ensures
            match first_invalid_subrepo(entries_view(self.subrepos@)) {
                Some(i) => r matches Some(x) && x as int == i,
                None => r is None,
            },
            r matches Some(i) ==> i < self.subrepos@.len(),
            first_invalid_subrepo(entries_view(self.subrepos@)) matches Some(j) ==> 0 <= j
                < self.subrepos@.len(),
    {
        let ghost ev = entries_view(self.subrepos@);
        let mut i: usize = 0;
        while i < self.subrepos.len()
            invariant
                i <= self.subrepos@.len(),
                ev == entries_view(self.subrepos@),
                first_invalid_subrepo(ev.take(i as int)) is None,
            decreases self.subrepos.len() - i,
        {
            assert(ev.take(i + 1).drop_last() =~= ev.take(i as int));
            assert(ev.take(i + 1).last() == ev[i as int]);
            assert(ev[i as int].1 == subrepo_view(self.subrepos@[i as int].1));
            if self.subrepos[i].1.validate().is_err() {
                proof {
                    assert(first_invalid_subrepo(ev.take(i + 1)) == Some(i as int));
                    lemma_first_invalid_extends(ev.take(i + 1), ev.skip(i + 1));
                    assert(ev.take(i + 1) + ev.skip(i + 1) =~= ev);
                }
                return Some(i);
            }
            i = i + 1;
        }
        assert(ev.take(self.subrepos@.len() as int) =~= ev);
        None
    }

    /// Checks that no URL is listed twice: the first one that is, with the
    /// subrepos that list it.
    fn find_duplicate_url(&self) -> (r: Option<(String, Vec<char>, Vec<char>)>)
        ensures
            match first_duplicate(url_pairs(entries_view(self.subrepos@))) {
                Some((u, a, b)) => r matches Some(x) && x.0@ == u && x.1@ == a && x.2@ == b,
                None => r is None,
            },
    {
        let ghost ev = entries_view(self.subrepos@);
        let mut seen_urls: Vec<String> = Vec::new();
        let mut seen_names: Vec<Vec<char>> = Vec::new();
        let mut i: usize = 0;
        while i < self.subrepos.len()
            invariant
                i <= self.subrepos@.len(),
                ev == entries_view(self.subrepos@),
                seen_urls@.len() == seen_names@.len(),
                seen_names@.map_values(|n: Vec<char>| n@).zip_with(strings_view(seen_urls@))
                    == url_pairs(ev.take(i as int)),
                first_duplicate(url_pairs(ev.take(i as int))) is None,
            decreases self.subrepos.len() - i,
        {
            assert(ev.take(i + 1).drop_last() =~= ev.take(i as int));
            assert(ev.take(i + 1).last() == ev[i as int]);
            let name = chars_of(self.subrepos[i].0.as_str());
            let urls = &self.subrepos[i].1.urls;
            let ghost base = url_pairs(ev.take(i as int));
            let ghost uv = strings_view(urls@);
            assert(uv == ev[i as int].1.urls);
            let ghost all = uv.map_values(|u: Seq<char>| (name@, u));
            assert(url_pairs(ev.take(i + 1)) == base + all);
            let mut k: usize = 0;
            while k < urls.len()
                invariant
                    k <= urls@.len(),
                    i < self.subrepos@.len(),
                    ev == entries_view(self.subrepos@),
                    base == url_pairs(ev.take(i as int)),
                    url_pairs(ev.take(i + 1)) == base + all,
                    urls@ == self.subrepos@[i as int].1.urls@,
                    name@ == ev[i as int].0,
                    uv == strings_view(urls@),
                    all == uv.map_values(|u: Seq<char>| (name@, u)),
                    seen_urls@.len() == seen_names@.len(),
                    seen_names@.map_values(|n: Vec<char>| n@).zip_with(strings_view(seen_urls@))
                        == base + all.take(k as int),
                    first_duplicate(base + all.take(k as int)) is None,
                decreases urls.len() - k,
            {
                let ghost sp = base + all.take(k as int);
                let u = &urls[k];
                let mut j: usize = 0;
                while j < seen_urls.len() && !(seen_urls[j] == *u)
                    invariant
                        j <= seen_urls@.len(),
                        seen_urls@.len() == seen_names@.len(),
                        sp == seen_names@.map_values(|n: Vec<char>| n@).zip_with(
                            strings_view(seen_urls@),
                        ),
                        forall|m: int| 0 <= m < j ==> pair_urls(sp)[m] != u@,
                    decreases seen_urls.len() - j,
                {
                    assert(pair_urls(sp)[j as int] == seen_urls@[j as int]@);
                    j = j + 1;
                }
                assert(all.take(k + 1) =~= all.take(k as int).push((name@, u@)));
                assert(base + all.take(k + 1) =~= sp.push((name@, u@)));
                assert(sp.push((name@, u@)).drop_last() =~= sp);
                if j < seen_urls.len() {
                    proof {
                        assert(pair_urls(sp)[j as int] == u@);
                        lemma_first_index(pair_urls(sp), u@, j as int);
                        assert(first_duplicate(sp.push((name@, u@))) == Some(
                            (u@, sp[j as int].0, name@),
                        ));
                        lemma_first_duplicate_extends(
                            sp.push((name@, u@)),
                            all.skip(k + 1) + url_pairs(ev).skip(url_pairs(ev.take(i + 1)).len() as int),
                        );
                        lemma_url_pairs_prefix(ev, i + 1);
                        assert(sp.push((name@, u@)) + (all.skip(k + 1) + url_pairs(ev).skip(
                            url_pairs(ev.take(i + 1)).len() as int,
                        )) =~= url_pairs(ev));
                        assert(sp[j as int].0 == seen_names@[j as int]@);
                    }
                    let first = copy_chars(&seen_names[j]);
                    return Some((u.clone(), first, name));
                }
                proof {
                    lemma_first_index(pair_urls(sp), u@, sp.len() as int);
                }
                let ghost before = seen_names@.map_values(|n: Vec<char>| n@).zip_with(
                    strings_view(seen_urls@),
                );
                seen_urls.push(u.clone());
                seen_names.push(copy_chars(&name));
                assert(seen_names@.map_values(|n: Vec<char>| n@).zip_with(strings_view(seen_urls@))
                    =~= before.push((name@, u@)));
                k = k + 1;
            }
            assert(all.take(urls@.len() as int) =~= all);
            i = i + 1;
        }
        assert(ev.take(self.subrepos@.len() as int) =~= ev);
        None
    }

    /// Checks the configuration: every subrepo must say where to fetch from,
    /// and no URL may be listed by two subrepos (or twice by one).
    pub fn validate(&self) -> (r: Result<(), String>)
        ensures
            match spec_validate(entries_view(self.subrepos@)) {
                Ok(()) => r is Ok,
                Err(m) => r matches Err(x) && x@ == m,
            },
    {
        match self.check_subrepos() {
            Some(i) => {
                assert(entries_view(self.subrepos@)[i as int].0 == self.subrepos@[i as int].0@);
                let mut m = chars_of("Invalid subrepo configuration for ");
                push_all(&mut m, &chars_of(self.subrepos[i].0.as_str()));
                push_all(&mut m, &chars_of(": "));
                push_all(
                    &mut m,
                    &chars_of(
                        "Either .fetch.url needs to be set or .urls must have exactly one element",
                    ),
                );
                assert(m@ =~= "Invalid subrepo configuration for "@ + self.subrepos@[i as int].0@
                    + ": "@
                    + "Either .fetch.url needs to be set or .urls must have exactly one element"@);
                let ghost fi = first_invalid_subrepo(entries_view(self.subrepos@));
                assert(fi == Some(i as int));
                return Err(string_of(&m));
            },
            None => {},
        }
        match self.find_duplicate_url() {
            Some((u, a, b)) => {
                let mut m = chars_of("URLs must be unique across all repos, found ");
                push_all(&mut m, &chars_of(u.as_str()));
                push_all(&mut m, &chars_of(" in "));
                push_all(&mut m, &a);
                push_all(&mut m, &chars_of(" and "));
                push_all(&mut m, &b);
                Err(string_of(&m))
            },
            None => Ok(()),
        }
    }
}

fn copy_chars(v: &Vec<char>) -> (r: Vec<char>)
    ensures
        r@ == v@,
{
    let mut r: Vec<char> = Vec::new();
    push_all(&mut r, v);
    r
}

proof fn lemma_url_pairs_prefix(s: Seq<(Seq<char>, SubRepoConfigView)>, n: int)
    requires
        0 <= n <= s.len(),
    ensures
        url_pairs(s) == url_pairs(s.take(n)) + url_pairs(s).skip(url_pairs(s.take(n)).len() as int),
        url_pairs(s.take(n)).len() <= url_pairs(s).len(),
        url_pairs(s).take(url_pairs(s.take(n)).len() as int) == url_pairs(s.take(n)),
    decreases s.len() - n,
{
    if n == s.len() {
        assert(s.take(n) =~= s);
        assert(url_pairs(s).skip(url_pairs(s).len() as int) =~= Seq::<(Seq<char>, Seq<char>)>::empty());
        assert(url_pairs(s) + Seq::<(Seq<char>, Seq<char>)>::empty() =~= url_pairs(s));
        assert(url_pairs(s).take(url_pairs(s).len() as int) =~= url_pairs(s));
    } else {
        lemma_url_pairs_prefix(s, n + 1);
        assert(s.take(n + 1).drop_last() =~= s.take(n));
        let a = url_pairs(s.take(n));
        let b = url_pairs(s.take(n + 1));
        let whole = url_pairs(s);
        assert(b == a + s[n].1.urls.map_values(|u: Seq<char>| (s[n].0, u)));
        assert(whole.take(b.len() as int) == b);
        assert(whole.take(a.len() as int) =~= b.take(a.len() as int));
        assert(b.take(a.len() as int) =~= a);
        assert(whole =~= a + whole.skip(a.len() as int));
    }
}

/// The text in lowercase, as `str::to_lowercase` gives it.
pub uninterp spec fn lowercase(s: Seq<char>) -> Seq<char>;

/// Calls `str::to_lowercase`, which lowercases the text by Unicode's rules.
/// Its result is named by [`lowercase`]; nothing else is said of it.
#[verifier::external_body]
fn to_lowercase_text(s: &str) -> (r: String)
    ensures
        r@ == lowercase(s@),
{
    s.to_lowercase()
}

/// The name under which a subrepo is added for `name`: the last existing
/// name that differs from it only in case, else `name` itself.
pub open spec fn case_fold_name(names: Seq<Seq<char>>, name: Seq<char>) -> Seq<char>
    decreases names.len(),
{
    if names.len() == 0 {
        name
    } else if lowercase(names.last()) == lowercase(name) {
        names.last()
    } else {
        case_fold_name(names.drop_last(), name)
    }
}

/// The number of leading names that come before `name`.
pub open spec fn names_before(names: Seq<Seq<char>>, name: Seq<char>) -> int
    decreases names.len(),
{
    if names.len() > 0 && chars_lt(names[0], name) {
        1 + names_before(names.drop_first(), name)
    } else {
        0
    }
}

/// The configuration with `url` added to its URLs, unless it lists it.
pub open spec fn with_url(c: SubRepoConfigView, url: Seq<char>) -> SubRepoConfigView {
    if has_url(c, url) {
        c
    } else {
        SubRepoConfigView { urls: c.urls.push(url), ..c }
    }
}

/// The subrepos with `url` added to the subrepo `name`, which is added where
/// its name belongs, with the default configuration, if it is not there.
pub open spec fn spec_add_url(
    entries: Seq<(Seq<char>, SubRepoConfigView)>,
    name: Seq<char>,
    url: Seq<char>,
) -> Seq<(Seq<char>, SubRepoConfigView)> {
    let p = names_before(entry_names(entries), name);
    if p < entries.len() && entries[p].0 == name {
        entries.update(p, (name, with_url(entries[p].1, url)))
    } else {
        entries.insert(p, (name, with_url(default_subrepo_view(), url)))
    }
}

/// The outcome of looking up or adding a subrepo for a URL.
#[derive(Debug, PartialEq, Eq)]
pub enum GetOrInsertOk {
    /// The subrepo was found in the configuration.
    Found(SubRepoName),
    /// The subrepo was not in the configuration and has been added.
    Missing(SubRepoName),
    /// The subrepo was not in the configuration, and was added before.
    MissingAgain(SubRepoName),
}

proof fn lemma_names_before(names: Seq<Seq<char>>, name: Seq<char>, p: int)
    requires
        0 <= p <= names.len(),
        forall|i: int| 0 <= i < p ==> chars_lt(#[trigger] names[i], name),
        p < names.len() ==> !chars_lt(names[p], name),
    ensures
        names_before(names, name) == p,
    decreases p,
{
    if p > 0 {
        assert forall|i: int| 0 <= i < p - 1 implies chars_lt(#[trigger] names.drop_first()[i], name) by {
            assert(names.drop_first()[i] == names[i + 1]);
        };
        if p - 1 < names.len() - 1 {
            assert(names.drop_first()[p - 1] == names[p]);
        }
        lemma_names_before(names.drop_first(), name, p - 1);
        assert(chars_lt(names[0], name));
    }
}

proof fn lemma_insert_keeps_sorted(names: Seq<Seq<char>>, p: int, x: Seq<char>)
    requires
        chars_strictly_sorted(names),
        0 <= p <= names.len(),
        forall|i: int| 0 <= i < p ==> chars_lt(#[trigger] names[i], x),
        p < names.len() ==> chars_lt(x, names[p]),
    ensures
        chars_strictly_sorted(names.insert(p, x)),
{
    let s1 = names.insert(p, x);
    assert forall|i: int, j: int| 0 <= i < j < s1.len() implies chars_lt(
        #[trigger] s1[i],
        #[trigger] s1[j],
    ) by {
        if j < p {
            assert(s1[i] == names[i] && s1[j] == names[j]);
        } else if j == p {
            assert(s1[i] == names[i]);
        } else if i == p {
            assert(s1[j] == names[j - 1]);
            if j - 1 > p {
                assert(chars_lt(names[p], names[j - 1]));
                lemma_chars_le_transitive(x, names[p], names[j - 1]);
                if x == names[j - 1] {
                    lemma_chars_le_antisymmetric(x, names[p]);
                }
            }
        } else if i < p {
            assert(s1[i] == names[i] && s1[j] == names[j - 1]);
            assert(chars_lt(names[i], x));
            if j - 1 == p {
                lemma_chars_le_transitive(names[i], x, names[p]);
                if names[i] == names[p] {
                    lemma_chars_le_antisymmetric(names[i], x);
                }
            } else {
                assert(chars_lt(names[i], names[j - 1]));
            }
        } else {
            assert(s1[i] == names[i - 1] && s1[j] == names[j - 1]);
        }
    };
}

fn chars_lt_exec(a: &[char], b: &[char]) -> (r: bool)
    ensures
        r == chars_lt(a@, b@),
{
    crate::order::chars_le_exec(a, b) && !crate::text::chars_eq(a, b)
}

impl GitTopRepoConfig {
    /// Gets the subrepo whose URLs list `url`, or adds one. A new subrepo is
    /// named after `url_path`, the path of the URL, unless a subrepo's name
    /// differs from that only in case; it lists the URL and is reported as
    /// missing, or as missing again when it was reported before.
    pub fn get_or_insert_from_url(&mut self, url: &str, url_path: &str) -> (r: Result<
        GetOrInsertOk,
        String,
    >)
        requires
            old(self).wf(),
        ensures
            final(self).wf(),
            final(self).checksum == old(self).checksum,
            final(self).log == old(self).log,
            match spec_get_name_from_url(
                entries_view(old(self).subrepos@),
                names_view(old(self).missing_subrepos@),
                url@,
            ) {
                Err(m) => r matches Err(x) && x@ == m && *final(self) == *old(self),
                Ok(Some(n)) => r matches Ok(GetOrInsertOk::Found(x)) && x@ == n && *final(self)
                    == *old(self),
                Ok(None) => match spec_default_name(url_path@) {
                    None => r matches Err(x) && x@ == "URL "@ + url@
                        + " cannot be automatically converted to a valid repo name. Please create a manual config entry with the URL."@
                        && *final(self) == *old(self),
                    Some(d) => {
                        let name = case_fold_name(entry_names(entries_view(old(self).subrepos@)), d);
                        &&& entries_view(final(self).subrepos@) == spec_add_url(
                            entries_view(old(self).subrepos@),
                            name,
                            url@,
                        )
                        &&& if names_view(old(self).missing_subrepos@).contains(name) {
                            r matches Ok(GetOrInsertOk::MissingAgain(x)) && x@ == name
                                && final(self).missing_subrepos == old(self).missing_subrepos
                        } else {
                            r matches Ok(GetOrInsertOk::Missing(x)) && x@ == name && names_view(
                                final(self).missing_subrepos@,
                            ) == names_view(old(self).missing_subrepos@).push(name)
                        }
                    },
                },
            },
    {
        match self.get_name_from_url(url) {
            Err(e) => {
                return Err(e);
            },
            Ok(Some(n)) => {
                return Ok(GetOrInsertOk::Found(n));
            },
            Ok(None) => {},
        }
        let default = match default_name_from_url(url_path) {
            Some(d) => d,
            None => {
                let mut m = chars_of("URL ");
                push_all(&mut m, &chars_of(url));
                push_all(
                    &mut m,
                    &chars_of(
                        " cannot be automatically converted to a valid repo name. Please create a manual config entry with the URL.",
                    ),
                );
                return Err(string_of(&m));
            },
        };
        let ghost ev = entries_view(self.subrepos@);
        let ghost names = entry_names(ev);
        let mut name = chars_of(default.as_str());
        let mut i: usize = 0;
        while i < self.subrepos.len()
            invariant
                i <= self.subrepos@.len(),
                ev == entries_view(self.subrepos@),
                names == entry_names(ev),
                name@ == case_fold_name(names.take(i as int), default@),
                lowercase(name@) == lowercase(default@),
            decreases self.subrepos.len() - i,
        {
            assert(names.take(i + 1).drop_last() =~= names.take(i as int));
            assert(names.take(i + 1).last() == self.subrepos@[i as int].0@);
            let existing = self.subrepos[i].0.as_str();
            let current = string_of(&name);
            if to_lowercase_text(current.as_str()) == to_lowercase_text(existing) {
                name = chars_of(existing);
            }
            i = i + 1;
        }
        assert(names.take(self.subrepos@.len() as int) =~= names);
        let ghost target = name@;
        let url_s = string_of(&chars_of(url));
        let mut p: usize = 0;
        while p < self.subrepos.len() && chars_lt_exec(
            &chars_of(self.subrepos[p].0.as_str()),
            &name,
        )
            invariant
                p <= self.subrepos@.len(),
                ev == entries_view(self.subrepos@),
                names == entry_names(ev),
                name@ == target,
                forall|k: int| 0 <= k < p ==> chars_lt(#[trigger] names[k], target),
            decreases self.subrepos.len() - p,
        {
            p = p + 1;
        }
        proof {
            lemma_names_before(names, target, p as int);
        }
        let found = p < self.subrepos.len() && crate::text::chars_eq(
            &chars_of(self.subrepos[p].0.as_str()),
            &name,
        );
        if found {
            let mut entry = self.subrepos.remove(p);
            let ghost c0 = subrepo_view(entry.1);
            if !lists_url(&entry.1, &url_s) {
                entry.1.urls.push(url_s);
                assert(strings_view(entry.1.urls@) =~= c0.urls.push(url@));
            }
            assert(subrepo_view(entry.1) == with_url(c0, url@));
            self.subrepos.insert(p, entry);
            assert(entries_view(self.subrepos@) =~= ev.update(
                p as int,
                (target, with_url(ev[p as int].1, url@)),
            ));
            assert(entry_names(entries_view(self.subrepos@)) =~= names);
        } else {
            proof {
                if (p as int) < names.len() {
                    lemma_chars_le_total(names[p as int], target);
                }
                lemma_insert_keeps_sorted(names, p as int, target);
            }
            let mut c = SubRepoConfig::default();
            c.urls.push(url_s);
            assert(strings_view(c.urls@) =~= seq![url@]);
            assert(subrepo_view(c) == with_url(default_subrepo_view(), url@));
            self.subrepos.insert(p, (SubRepoName::new(string_of(&name)), c));
            assert(entries_view(self.subrepos@) =~= ev.insert(
                p as int,
                (target, with_url(default_subrepo_view(), url@)),
            ));
            assert(entry_names(entries_view(self.subrepos@)) =~= names.insert(p as int, target));
        }
        let repo_name = SubRepoName::new(string_of(&name));
        if is_listed(&self.missing_subrepos, &repo_name) {
            Ok(GetOrInsertOk::MissingAgain(repo_name))
        } else {
            let ghost m0 = names_view(self.missing_subrepos@);
            self.missing_subrepos.push(copy_name(&repo_name));
            assert(names_view(self.missing_subrepos@) =~= m0.push(target));
            Ok(GetOrInsertOk::Missing(repo_name))
        }
    }
}

proof fn lemma_matching_names_listed(s: Seq<(Seq<char>, SubRepoConfigView)>, url: Seq<char>)
    ensures
        forall|k: int|
            0 <= k < matching_names(s, url).len() ==> entry_names(s).contains(
                #[trigger] matching_names(s, url)[k],
            ),
    decreases s.len(),
{
    if s.len() > 0 {
        lemma_matching_names_listed(s.drop_last(), url);
        let m0 = matching_names(s.drop_last(), url);
        assert forall|k: int| 0 <= k < matching_names(s, url).len() implies entry_names(s).contains(
            #[trigger] matching_names(s, url)[k],
        ) by {
            if k < m0.len() {
                assert(matching_names(s, url)[k] == m0[k]);
                let j = choose|j: int| 0 <= j < entry_names(s.drop_last()).len() && entry_names(
                    s.drop_last(),
                )[j] == m0[k];
                assert(entry_names(s)[j] == m0[k]);
            } else {
                assert(matching_names(s, url)[k] == s.last().0);
                assert(entry_names(s)[s.len() - 1] == s.last().0);
            }
        };
    }
}

proof fn lemma_config_of_listed(s: Seq<(Seq<char>, SubRepoConfigView)>, name: Seq<char>)
    requires
        entry_names(s).contains(name),
    ensures
        config_of(s, name) is Some,
    decreases s.len(),
{
    if s.last().0 != name {
        let j = choose|j: int| 0 <= j < entry_names(s).len() && entry_names(s)[j] == name;
        assert(j < s.len() - 1);
        assert(entry_names(s.drop_last())[j] == name);
        lemma_config_of_listed(s.drop_last(), name);
    }
}

impl GitTopRepoConfig {
    /// Gets the subrepo whose URLs list `url`, with its configuration,
    /// without adding one.
    pub fn get_from_url(&self, url: &str) -> (r: Result<Option<(SubRepoName, &SubRepoConfig)>, String>)
        ensures
            match spec_get_name_from_url(
                entries_view(self.subrepos@),
                names_view(self.missing_subrepos@),
                url@,
            ) {
                Err(m) => r matches Err(x) && x@ == m,
                Ok(None) => r matches Ok(None),
                Ok(Some(n)) => r matches Ok(Some((x, c))) && x@ == n && config_of(
                    entries_view(self.subrepos@),
                    n,
                ) == Some(subrepo_view(*c)),
            },
    {
        let name = match self.get_name_from_url(url) {
            Err(e) => {
                return Err(e);
            },
            Ok(None) => {
                return Ok(None);
            },
            Ok(Some(n)) => n,
        };
        let ghost ev = entries_view(self.subrepos@);
        proof {
            lemma_matching_names_listed(ev, url@);
            lemma_config_of_listed(ev, name@);
        }
        let target = chars_of(name.as_str());
        let mut i = self.subrepos.len();
        assert(ev.take(i as int) =~= ev);
        while i > 0
            invariant
                i <= self.subrepos@.len(),
                ev == entries_view(self.subrepos@),
                target@ == name@,
                config_of(ev.take(i as int), name@) == config_of(ev, name@),
                config_of(ev, name@) is Some,
                spec_get_name_from_url(ev, names_view(self.missing_subrepos@), url@) == Ok::<
                    Option<Seq<char>>,
                    Seq<char>,
                >(Some(name@)),
            decreases i,
        {
            assert(ev.take(i as int).drop_last() =~= ev.take(i - 1));
            assert(ev.take(i as int).last() == ev[i - 1]);
            assert(ev[i - 1] == (self.subrepos@[i - 1].0@, subrepo_view(self.subrepos@[i - 1].1)));
            if crate::text::chars_eq(&chars_of(self.subrepos[i - 1].0.as_str()), &target) {
                return Ok(Some((name, &self.subrepos[i - 1].1)));
            }
            i = i - 1;
        }
        Ok(None)
    }
}

} // verus!
