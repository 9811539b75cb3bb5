//! Character level helpers shared by the string processing modules.
use vstd::prelude::*;

verus! {

/// `p` is a prefix of `s`.
pub open spec fn has_prefix<T>(s: Seq<T>, p: Seq<T>) -> bool {
    p.len() <= s.len() && s.subrange(0, p.len() as int) == p
}

/// `p` is a suffix of `s`.
pub open spec fn has_suffix<T>(s: Seq<T>, p: Seq<T>) -> bool {
    p.len() <= s.len() && s.subrange(s.len() - p.len(), s.len() as int) == p
}

/// `c` occurs in `s`.
pub open spec fn has_char(s: Seq<char>, c: char) -> bool {
    exists|i: int| 0 <= i < s.len() && s[i] == c
}

/// Unicode `White_Space`, the property behind `char::is_whitespace`.
pub open spec fn is_ws(c: char) -> bool {
    ||| '\t' <= c <= '\r'
    ||| c == ' '
    ||| c == '\u{85}'
    ||| c == '\u{a0}'
    ||| c == '\u{1680}'
    ||| '\u{2000}' <= c <= '\u{200a}'
    ||| c == '\u{2028}'
    ||| c == '\u{2029}'
    ||| c == '\u{202f}'
    ||| c == '\u{205f}'
    ||| c == '\u{3000}'
}

/// Number of leading white space characters.
pub open spec fn ws_prefix_len(s: Seq<char>) -> nat
    decreases s.len(),
{
    if s.len() > 0 && is_ws(s[0]) {
        1 + ws_prefix_len(s.drop_first())
    } else {
        0
    }
}

/// Number of trailing white space characters.
pub open spec fn ws_suffix_len(s: Seq<char>) -> nat
    decreases s.len(),
{
    if s.len() > 0 && is_ws(s.last()) {
        1 + ws_suffix_len(s.drop_last())
    } else {
        0
    }
}

/// `str::trim_start`.
pub open spec fn trim_start(s: Seq<char>) -> Seq<char> {
    s.skip(ws_prefix_len(s) as int)
}

/// `str::trim_end`.
pub open spec fn trim_end(s: Seq<char>) -> Seq<char> {
    s.take(s.len() - ws_suffix_len(s))
}

/// `str::trim`.
pub open spec fn trim(s: Seq<char>) -> Seq<char> {
    trim_end(trim_start(s))
}

pub proof fn lemma_ws_prefix_len(s: Seq<char>)
    ensures
        ws_prefix_len(s) <= s.len(),
        forall|i: int| 0 <= i < ws_prefix_len(s) ==> is_ws(#[trigger] s[i]),
        ws_prefix_len(s) < s.len() ==> !is_ws(s[ws_prefix_len(s) as int]),
    decreases s.len(),
{
    if s.len() > 0 && is_ws(s[0]) {
        lemma_ws_prefix_len(s.drop_first());
        assert forall|i: int| 0 <= i < ws_prefix_len(s) implies is_ws(#[trigger] s[i]) by {
            if i > 0 {
                assert(s[i] == s.drop_first()[i - 1]);
            }
        }
    }
}

pub proof fn lemma_ws_suffix_len(s: Seq<char>)
    ensures
        ws_suffix_len(s) <= s.len(),
        forall|i: int| s.len() - ws_suffix_len(s) <= i < s.len() ==> is_ws(#[trigger] s[i]),
        ws_suffix_len(s) < s.len() ==> !is_ws(s[s.len() - ws_suffix_len(s) - 1]),
    decreases s.len(),
{
    if s.len() > 0 && is_ws(s.last()) {
        lemma_ws_suffix_len(s.drop_last());
        assert forall|i: int| s.len() - ws_suffix_len(s) <= i < s.len() implies is_ws(
            #[trigger] s[i],
        ) by {
            if i < s.len() - 1 {
                assert(s[i] == s.drop_last()[i]);
            }
        }
    }
}

/// `char::is_whitespace`.
pub fn char_is_ws(c: char) -> (r: bool)
    ensures
        r == is_ws(c),
{
    ('\t' <= c && c <= '\r') || c == ' ' || c == '\u{85}' || c == '\u{a0}' || c == '\u{1680}' || (
    '\u{2000}' <= c && c <= '\u{200a}') || c == '\u{2028}' || c == '\u{2029}' || c == '\u{202f}'
        || c == '\u{205f}' || c == '\u{3000}'
}

/// Copies the characters of `s` into a vector.
pub fn chars_of(s: &str) -> (v: Vec<char>)
    ensures
        v@ == s@,
{
    let mut v: Vec<char> = Vec::new();
    for c in it: s.chars()
        invariant
            v@ == it.seq().take(it.index() as int),
            it.seq() == s@,
    {
        v.push(c);
    }
    v
}

/// Builds a `String` holding exactly the given characters.
#[verifier::external_body]
pub fn string_of(v: &[char]) -> (s: String)
    ensures
        s@ == v@,
{
    v.iter().collect()
}

/// Copies `s[from..to]` into a new vector.
pub fn sub_chars(s: &[char], from: usize, to: usize) -> (r: Vec<char>)
    requires
        from <= to <= s@.len(),
    ensures
        r@ == s@.subrange(from as int, to as int),
{
    let mut r: Vec<char> = Vec::new();
    let mut i = from;
    while i < to
        invariant
            from <= i <= to <= s@.len(),
            r@ == s@.subrange(from as int, i as int),
        decreases to - i,
    {
        r.push(s[i]);
        i = i + 1;
    }
    r
}

/// Appends `b` to `a`.
pub fn push_all(a: &mut Vec<char>, b: &[char])
    ensures
        final(a)@ == old(a)@ + b@,
{
    let mut i: usize = 0;
    while i < b.len()
        invariant
            i <= b@.len(),
            a@ == old(a)@ + b@.subrange(0, i as int),
        decreases b.len() - i,
    {
        a.push(b[i]);
        i = i + 1;
    }
}

/// Tests whether `p` is a prefix of `s`.
pub fn starts_with(s: &[char], p: &[char]) -> (r: bool)
    ensures
        r == has_prefix(s@, p@),
{
    if p.len() > s.len() {
        return false;
    }
    let mut i: usize = 0;
    while i < p.len()
        invariant
            p@.len() <= s@.len(),
            i <= p@.len(),
            forall|j: int| 0 <= j < i ==> s@[j] == p@[j],
        decreases p.len() - i,
    {
        if s[i] != p[i] {
            assert(s@.subrange(0, p@.len() as int)[i as int] != p@[i as int]);
            return false;
        }
        i = i + 1;
    }
    assert(s@.subrange(0, p@.len() as int) =~= p@);
    true
}

/// Tests whether `p` is a suffix of `s`.
pub fn ends_with(s: &[char], p: &[char]) -> (r: bool)
    ensures
        r == has_suffix(s@, p@),
{
    if p.len() > s.len() {
        return false;
    }
    let off = s.len() - p.len();
    let mut j: usize = off;
    while j < s.len()
        invariant
            p@.len() <= s@.len(),
            off == s@.len() - p@.len(),
            off <= j <= s@.len(),
            forall|k: int| off <= k < j ==> s@[k] == p@[k - off],
        decreases s.len() - j,
    {
        if s[j] != p[j - off] {
            assert(s@.subrange(off as int, s@.len() as int)[j - off] != p@[j - off]);
            return false;
        }
        j = j + 1;
    }
    assert(s@.subrange(off as int, s@.len() as int) =~= p@);
    true
}

/// Tests two character sequences for equality.
pub fn chars_eq(a: &[char], b: &[char]) -> (r: bool)
    ensures
        r == (a@ == b@),
{
    if a.len() != b.len() {
        return false;
    }
    let r = starts_with(a, b);
    proof {
        assert(a@.subrange(0, a@.len() as int) =~= a@);
        if r {
            assert(a@ =~= b@);
        }
    }
    r
}

/// Index of the first occurrence of `c` at or after `from`.
pub fn find_char_from(s: &[char], c: char, from: usize) -> (r: Option<usize>)
    requires
        from <= s@.len(),
    ensures
        match r {
            Some(i) => from <= i < s@.len() && s@[i as int] == c && forall|j: int|
                from <= j < i ==> s@[j] != c,
            None => forall|j: int| from <= j < s@.len() ==> s@[j] != c,
        },
{
    let mut i = from;
    while i < s.len()
        invariant
            from <= i <= s@.len(),
            forall|j: int| from <= j < i ==> s@[j] != c,
        decreases s.len() - i,
    {
        if s[i] == c {
            return Some(i);
        }
        i = i + 1;
    }
    None
}

/// Number of leading white space characters of `s`.
pub fn count_ws_prefix(s: &[char]) -> (n: usize)
    ensures
        n == ws_prefix_len(s@),
{
    proof {
        lemma_ws_prefix_len(s@);
    }
    let mut i: usize = 0;
    while i < s.len() && char_is_ws(s[i])
        invariant
            i <= s@.len(),
            forall|j: int| 0 <= j < i ==> is_ws(#[trigger] s@[j]),
            ws_prefix_len(s@) <= s@.len(),
        decreases s.len() - i,
    {
        i = i + 1;
    }
    proof {
        lemma_ws_prefix_unique(s@, i as nat);
    }
    i
}

/// The white space prefix length is the first index holding a non-white-space
/// character.
pub proof fn lemma_ws_prefix_unique(s: Seq<char>, n: nat)
    requires
        n <= s.len(),
        forall|j: int| 0 <= j < n ==> is_ws(#[trigger] s[j]),
        n == s.len() || !is_ws(s[n as int]),
    ensures
        ws_prefix_len(s) == n,
    decreases s.len(),
{
    if n > 0 {
        assert(is_ws(s[0]));
        assert forall|j: int| 0 <= j < n - 1 implies is_ws(#[trigger] s.drop_first()[j]) by {
            assert(s.drop_first()[j] == s[j + 1]);
        }
        if n < s.len() {
            assert(s.drop_first()[n - 1] == s[n as int]);
        }
        lemma_ws_prefix_unique(s.drop_first(), (n - 1) as nat);
    } else if s.len() > 0 {
        assert(!is_ws(s[0]));
    }
}

/// The white space suffix length is determined by the last non-white-space
/// character.
pub proof fn lemma_ws_suffix_unique(s: Seq<char>, n: nat)
    requires
        n <= s.len(),
        forall|j: int| s.len() - n <= j < s.len() ==> is_ws(#[trigger] s[j]),
        n == s.len() || !is_ws(s[s.len() - n - 1]),
    ensures
        ws_suffix_len(s) == n,
    decreases s.len(),
{
    if n > 0 {
        assert(is_ws(s[s.len() - 1]));
        assert forall|j: int| s.len() - 1 - (n - 1) <= j < s.len() - 1 implies is_ws(
            #[trigger] s.drop_last()[j],
        ) by {
            assert(s.drop_last()[j] == s[j]);
        }
        if n < s.len() {
            assert(s.drop_last()[s.len() - 1 - (n - 1) - 1] == s[s.len() - n - 1]);
        }
        lemma_ws_suffix_unique(s.drop_last(), (n - 1) as nat);
    } else if s.len() > 0 {
        assert(!is_ws(s[s.len() - 1]));
    }
}

/// Number of trailing white space characters of `s`.
pub fn count_ws_suffix(s: &[char]) -> (n: usize)
    ensures
        n == ws_suffix_len(s@),
{
    let mut i: usize = 0;
    while i < s.len() && char_is_ws(s[s.len() - 1 - i])
        invariant
            i <= s@.len(),
            forall|j: int| s@.len() - i <= j < s@.len() ==> is_ws(#[trigger] s@[j]),
        decreases s.len() - i,
    {
        i = i + 1;
    }
    proof {
        lemma_ws_suffix_unique(s@, i as nat);
    }
    i
}

/// `str::trim` on a character vector.
pub fn trim_chars(s: &[char]) -> (r: Vec<char>)
    ensures
        r@ == trim(s@),
{
    let a = count_ws_prefix(s);
    proof {
        lemma_ws_prefix_len(s@);
    }
    let rest = sub_chars(s, a, s.len());
    let b = count_ws_suffix(&rest);
    proof {
        lemma_ws_suffix_len(rest@);
    }
    sub_chars(&rest, 0, rest.len() - b)
}

/// `str::trim_start` on a character vector.
pub fn trim_start_chars(s: &[char]) -> (r: Vec<char>)
    ensures
        r@ == trim_start(s@),
{
    let a = count_ws_prefix(s);
    proof {
        lemma_ws_prefix_len(s@);
    }
    sub_chars(s, a, s.len())
}

/// `str::trim_end` on a character vector.
pub fn trim_end_chars(s: &[char]) -> (r: Vec<char>)
    ensures
        r@ == trim_end(s@),
{
    let b = count_ws_suffix(s);
    proof {
        lemma_ws_suffix_len(s@);
    }
    sub_chars(s, 0, s.len() - b)
}

} // verus!

verus! {

/// Pieces of `s` between the occurrences of `sep`, as `str::split` yields
/// them.
pub open spec fn split_on(s: Seq<char>, sep: char) -> Seq<Seq<char>>
    decreases s.len(),
{
    if s.len() == 0 {
        seq![Seq::empty()]
    } else {
        let parts = split_on(s.drop_last(), sep);
        if s.last() == sep {
            parts.push(Seq::empty())
        } else {
            parts.update(parts.len() - 1, parts.last().push(s.last()))
        }
    }
}

pub proof fn lemma_split_on_len(s: Seq<char>, sep: char)
    ensures
        split_on(s, sep).len() >= 1,
    decreases s.len(),
{
    if s.len() > 0 {
        lemma_split_on_len(s.drop_last(), sep);
    }
}

/// A line with its `\r` removed, as for a line ended by `\r\n`.
pub open spec fn strip_cr(l: Seq<char>) -> Seq<char> {
    if l.len() > 0 && l.last() == '\r' {
        l.drop_last()
    } else {
        l
    }
}

/// The lines of `s` as `str::lines` yields them: split at `\n`, a `\r`
/// before the `\n` removed, and no final empty line after a trailing `\n`.
pub open spec fn lines_of(s: Seq<char>) -> Seq<Seq<char>> {
    let parts = split_on(s, '\n');
    let ended = parts.drop_last().map_values(|l: Seq<char>| strip_cr(l));
    if s.len() == 0 || s.last() == '\n' {
        ended
    } else {
        ended.push(parts.last())
    }
}

/// The character sequences held by a vector of character vectors.
pub open spec fn vv(s: Seq<Vec<char>>) -> Seq<Seq<char>> {
    s.map_values(|v: Vec<char>| v@)
}

/// `str::lines` on a character vector.
pub fn lines_chars(s: &[char]) -> (r: Vec<Vec<char>>)
    ensures
        vv(r@) == lines_of(s@),
{
    let mut r: Vec<Vec<char>> = Vec::new();
    let mut cur: Vec<char> = Vec::new();
    let mut i: usize = 0;
    while i < s.len()
        invariant
            i <= s@.len(),
            split_on(s@.take(i as int), '\n').len() >= 1,
            vv(r@) == split_on(s@.take(i as int), '\n').drop_last().map_values(
                |l: Seq<char>| strip_cr(l),
            ),
            cur@ == split_on(s@.take(i as int), '\n').last(),
        decreases s.len() - i,
    {
        let ghost parts = split_on(s@.take(i as int), '\n');
        assert(s@.take(i + 1).drop_last() =~= s@.take(i as int));
        let c = s[i];
        if c == '\n' {
            let ghost old_r = vv(r@);
            let mut line = cur;
            if line.len() > 0 && line[line.len() - 1] == '\r' {
                line.pop();
            }
            assert(line@ == strip_cr(parts.last()));
            r.push(line);
            assert(vv(r@) =~= old_r.push(strip_cr(parts.last())));
            cur = Vec::new();
            proof {
                let np = split_on(s@.take(i + 1), '\n');
                assert(np == parts.push(Seq::empty()));
                assert(np.drop_last() =~= parts);
                assert(parts =~= parts.drop_last().push(parts.last()));
                assert(vv(r@) =~= np.drop_last().map_values(|l: Seq<char>| strip_cr(l)));
            }
        } else {
            cur.push(c);
            proof {
                let np = split_on(s@.take(i + 1), '\n');
                assert(np == parts.update(parts.len() - 1, parts.last().push(c)));
                assert(np.drop_last() =~= parts.drop_last());
            }
        }
        i = i + 1;
    }
    assert(s@.take(s@.len() as int) =~= s@);
    proof {
        lemma_split_on_len(s@, '\n');
        if s@.len() > 0 && s@.last() != '\n' {
            let parts = split_on(s@, '\n');
            assert(s@.drop_last() =~= s@.take(s@.len() - 1));
            lemma_split_on_len(s@.drop_last(), '\n');
            assert(parts.last() == split_on(s@.drop_last(), '\n').last().push(s@.last()));
            assert(cur@.len() > 0);
        } else if s@.len() > 0 {
            let parts = split_on(s@, '\n');
            assert(parts.last().len() == 0);
        }
    }
    let ghost old_r = vv(r@);
    if cur.len() > 0 {
        r.push(cur);
        assert(vv(r@) =~= old_r.push(split_on(s@, '\n').last()));
    }
    r
}

} // verus!

verus! {

/// `s` has `\n\n` at index `j`.
pub open spec fn blank_at(s: Seq<char>, j: int) -> bool {
    s[j] == '\n' && s[j + 1] == '\n'
}

/// Index of the first `\n\n` in `s`.
pub open spec fn first_blank_line(s: Seq<char>) -> Option<int>
    decreases s.len(),
{
    if s.len() < 2 {
        None
    } else if s[0] == '\n' && s[1] == '\n' {
        Some(0)
    } else {
        match first_blank_line(s.drop_first()) {
            None => None,
            Some(i) => Some(i + 1),
        }
    }
}

/// The pieces of `s` between the occurrences of `\n\n`, matched from the
/// left without overlap, as `str::split("\n\n")` yields them.
pub open spec fn split_paragraphs(s: Seq<char>) -> Seq<Seq<char>>
    decreases s.len(),
{
    match first_blank_line(s) {
        None => seq![s],
        Some(i) => if 0 <= i && i + 2 <= s.len() {
            seq![s.take(i)] + split_paragraphs(s.skip(i + 2))
        } else {
            seq![s]
        },
    }
}

pub proof fn lemma_first_blank_line(s: Seq<char>)
    ensures
        match first_blank_line(s) {
            None => forall|j: int| 0 <= j < s.len() - 1 ==> !blank_at(s, j),
            Some(i) => 0 <= i && i + 2 <= s.len() && s[i] == '\n' && s[i + 1] == '\n' && forall|
                j: int,
            | 0 <= j < i ==> !blank_at(s, j),
        },
    decreases s.len(),
{
    if s.len() >= 2 && !(s[0] == '\n' && s[1] == '\n') {
        lemma_first_blank_line(s.drop_first());
        assert forall|j: int| 1 <= j < s.len() - 1 implies #[trigger] blank_at(s, j) == blank_at(
            s.drop_first(),
            j - 1,
        ) by {
            assert(s[j] == s.drop_first()[j - 1]);
            assert(s[j + 1] == s.drop_first()[j]);
        }
    }
}

/// The first `\n\n` is at `i` when none comes earlier.
pub proof fn lemma_first_blank_line_at(s: Seq<char>, i: int)
    requires
        0 <= i && i + 2 <= s.len(),
        s[i] == '\n' && s[i + 1] == '\n',
        forall|j: int| 0 <= j < i ==> !blank_at(s, j),
    ensures
        first_blank_line(s) == Some(i),
    decreases i,
{
    if i > 0 {
        assert(!blank_at(s, 0));
        assert forall|j: int| 0 <= j < i - 1 implies !blank_at(s.drop_first(), j) by {
            assert(!blank_at(s, j + 1));
            assert(s.drop_first()[j] == s[j + 1]);
            assert(s.drop_first()[j + 1] == s[j + 2]);
        }
        lemma_first_blank_line_at(s.drop_first(), i - 1);
    }
}

/// No `\n\n` at all.
pub proof fn lemma_first_blank_line_none(s: Seq<char>)
    requires
        forall|j: int| 0 <= j < s.len() - 1 ==> !blank_at(s, j),
    ensures
        first_blank_line(s) is None,
    decreases s.len(),
{
    if s.len() >= 2 {
        assert(!blank_at(s, 0));
        assert forall|j: int| 0 <= j < s.len() - 2 implies !blank_at(s.drop_first(), j) by {
            assert(!blank_at(s, j + 1));
            assert(s.drop_first()[j] == s[j + 1]);
            assert(s.drop_first()[j + 1] == s[j + 2]);
        }
        lemma_first_blank_line_none(s.drop_first());
    }
}

/// `str::split("\n\n")` on a character vector.
pub fn split_paragraphs_chars(s: &[char]) -> (r: Vec<Vec<char>>)
    ensures
        vv(r@) == split_paragraphs(s@),
{
    let mut r: Vec<Vec<char>> = Vec::new();
    let mut start: usize = 0;
    let mut i: usize = 0;
    assert(s@.skip(0) =~= s@);
    assert(vv(r@) + split_paragraphs(s@) =~= split_paragraphs(s@));
    while i < s.len() && s.len() - i > 1
        invariant
            start <= i <= s@.len(),
            vv(r@) + split_paragraphs(s@.skip(start as int)) == split_paragraphs(s@),
            forall|j: int| start <= j < i ==> !blank_at(s@, j),
        decreases s.len() - i,
    {
        if s[i] == '\n' && s[i + 1] == '\n' {
            let ghost rest = s@.skip(start as int);
            proof {
                assert forall|j: int| 0 <= j < i - start implies !blank_at(rest, j) by {
                    assert(!blank_at(s@, start + j));
                    assert(rest[j] == s@[start + j]);
                    assert(rest[j + 1] == s@[start + j + 1]);
                }
                lemma_first_blank_line_at(rest, i - start);
                assert(rest.take(i - start) =~= s@.subrange(start as int, i as int));
                assert(rest.skip(i - start + 2) =~= s@.skip(i + 2));
            }
            let ghost old_r = vv(r@);
            r.push(sub_chars(s, start, i));
            proof {
                assert(vv(r@) =~= old_r.push(s@.subrange(start as int, i as int)));
                assert(split_paragraphs(rest) == seq![rest.take(i - start)] + split_paragraphs(
                    rest.skip(i - start + 2),
                ));
                assert(vv(r@) + split_paragraphs(s@.skip(i + 2)) =~= old_r + split_paragraphs(
                    rest,
                ));
            }
            start = i + 2;
            i = i + 2;
        } else {
            i = i + 1;
        }
    }
    let ghost rest = s@.skip(start as int);
    proof {
        assert forall|j: int| 0 <= j < rest.len() - 1 implies !blank_at(rest, j) by {
            if start + j < i {
                assert(!blank_at(s@, start + j));
            }
            assert(rest[j] == s@[start + j]);
            assert(rest[j + 1] == s@[start + j + 1]);
            assert(start + j < i || start + j + 1 >= s@.len());
        }
        lemma_first_blank_line_none(rest);
    }
    let ghost old_r = vv(r@);
    r.push(sub_chars(s, start, s.len()));
    proof {
        assert(s@.subrange(start as int, s@.len() as int) =~= rest);
        assert(vv(r@) =~= old_r.push(rest));
        assert(vv(r@) =~= old_r + seq![rest]);
    }
    r
}

} // verus!

verus! {

/// The text of some bytes decoded as UTF-8, each invalid sequence replaced by
/// U+FFFD.
pub uninterp spec fn utf8_lossy(b: Seq<u8>) -> Seq<char>;

/// Calls `String::from_utf8_lossy`. Trusted: the result is the lossy decoding
/// of the bytes, which for valid UTF-8 is its exact decoding, as the standard
/// library documents.
#[verifier::external_body]
pub fn from_utf8_lossy(b: &[u8]) -> (s: String)
    ensures
        s@ == utf8_lossy(b@),
        vstd::utf8::valid_utf8(b@) ==> s@ == vstd::utf8::decode_utf8(b@),
{
    String::from_utf8_lossy(b).into_owned()
}

} // verus!

verus! {

/// An ASCII decimal digit.
pub open spec fn is_digit(c: char) -> bool {
    '0' <= c <= '9'
}

/// The value of a string of decimal digits.
pub open spec fn digits_value(s: Seq<char>) -> int
    decreases s.len(),
{
    if s.len() == 0 {
        0
    } else {
        digits_value(s.drop_last()) * 10 + (s.last() as int - '0' as int)
    }
}

/// Every character is a decimal digit.
pub open spec fn all_digits(s: Seq<char>) -> bool {
    forall|k: int| 0 <= k < s.len() ==> is_digit(#[trigger] s[k])
}

/// `i32::from_str`: an optional `+` or `-`, then one or more decimal digits,
/// whose value must fit in an `i32`.
pub open spec fn spec_parse_i32(s: Seq<char>) -> Option<i32> {
    let signed = s.len() > 0 && (s[0] == '+' || s[0] == '-');
    let digits = if signed {
        s.skip(1)
    } else {
        s
    };
    let v = if signed && s[0] == '-' {
        -digits_value(digits)
    } else {
        digits_value(digits)
    };
    if digits.len() > 0 && all_digits(digits) && i32::MIN <= v <= i32::MAX {
        Some(v as i32)
    } else {
        None
    }
}

proof fn lemma_digits_value_mono(s: Seq<char>, k: int)
    requires
        0 <= k <= s.len(),
        forall|j: int| 0 <= j < s.len() ==> is_digit(#[trigger] s[j]),
    ensures
        digits_value(s.take(k)) <= digits_value(s),
        0 <= digits_value(s.take(k)),
    decreases s.len(),
{
    if k == s.len() {
        assert(s.take(k) =~= s);
        if s.len() > 0 {
            lemma_digits_value_mono(s.drop_last(), 0);
            assert(s.drop_last().take(0) =~= s.take(0));
        }
    } else {
        lemma_digits_value_mono(s.drop_last(), k);
        assert(s.drop_last().take(k) =~= s.take(k));
        lemma_digits_value_mono(s.drop_last(), s.len() - 1);
        assert(s.drop_last().take(s.len() - 1) =~= s.drop_last());
    }
}

/// `i32::from_str` on characters.
#[verifier::spinoff_prover]
#[verifier::rlimit(40)]
pub fn parse_i32(s: &[char]) -> (r: Option<i32>)
    ensures
        r == spec_parse_i32(s@),
{
    let n = s.len();
    let signed = n > 0 && (s[0] == '+' || s[0] == '-');
    let neg = signed && s[0] == '-';
    let start: usize = if signed {
        1
    } else {
        0
    };
    let ghost digits = s@.skip(start as int);
    assert(digits.len() == n - start);
    assert(digits =~= (if signed {
        s@.skip(1)
    } else {
        s@
    }));
    if start >= n {
        return None;
    }
    let mut acc: i64 = 0;
    let mut i = start;
    while i < n
        invariant
            start <= i <= n == s@.len(),
            digits == s@.skip(start as int),
            digits == (if signed {
                s@.skip(1)
            } else {
                s@
            }),
            signed == (s@.len() > 0 && (s@[0] == '+' || s@[0] == '-')),
            neg == (signed && s@[0] == '-'),
            forall|k: int| start <= k < i ==> is_digit(#[trigger] s@[k]),
            acc == digits_value(digits.take(i - start)),
            0 <= acc <= 2147483648,
        decreases n - i,
    {
        let c = s[i];
        if !('0' <= c && c <= '9') {
            assert(!is_digit(digits[i - start]));
            return None;
        }
        let d = (c as u32 - '0' as u32) as i64;
        assert(d == c as int - '0' as int);
        assert(digits.take(i + 1 - start).last() == c);
        assert(digits.take(i + 1 - start).drop_last() =~= digits.take(i - start));
        let next = acc * 10 + d;
        if next > 2147483648 {
            proof {
                assert forall|k: int| 0 <= k < digits.take(i + 1 - start).len() implies is_digit(
                    #[trigger] digits.take(i + 1 - start)[k],
                ) by {
                    assert(digits.take(i + 1 - start)[k] == s@[k + start]);
                };
                assert(digits_value(digits.take(i + 1 - start)) == next);
                if all_digits(digits) {
                    lemma_digits_value_mono(digits, i + 1 - start);
                }
            }
            return None;
        }
        acc = next;
        i = i + 1;
    }
    assert(digits.take(n - start) =~= digits);
    assert forall|k: int| 0 <= k < digits.len() implies is_digit(#[trigger] digits[k]) by {
        assert(digits[k] == s@[k + start]);
    };
    if neg {
        Some((0 - acc) as i32)
    } else if acc <= 2147483647 {
        Some(acc as i32)
    } else {
        None
    }
}

} // verus!

verus! {

/// Index of the first `c` in `s`.
pub open spec fn first_index<T>(s: Seq<T>, c: T) -> Option<int>
    decreases s.len(),
{
    if s.len() == 0 {
        None
    } else if s[0] == c {
        Some(0)
    } else {
        match first_index(s.drop_first(), c) {
            Some(i) => Some(i + 1),
            None => None,
        }
    }
}

/// `str::split_once` with a one-character separator.
pub open spec fn split_once(s: Seq<char>, c: char) -> Option<(Seq<char>, Seq<char>)> {
    match first_index(s, c) {
        Some(i) => Some((s.take(i), s.skip(i + 1))),
        None => None,
    }
}

pub proof fn lemma_first_index<T>(s: Seq<T>, c: T, i: int)
    requires
        0 <= i <= s.len(),
        forall|j: int| 0 <= j < i ==> s[j] != c,
    ensures
        i < s.len() && s[i] == c ==> first_index(s, c) == Some(i),
        i == s.len() ==> first_index(s, c) is None,
    decreases s.len(),
{
    if s.len() > 0 && i > 0 {
        lemma_first_index(s.drop_first(), c, i - 1);
    }
}

/// `str::split_once` with a one-character separator, on characters.
pub fn split_once_chars(s: &[char], c: char) -> (r: Option<(Vec<char>, Vec<char>)>)
    ensures
        match split_once(s@, c) {
            Some((a, b)) => r matches Some((x, y)) && x@ == a && y@ == b,
            None => r is None,
        },
{
    let n = s.len();
    match find_char_from(s, c, 0) {
        Some(i) => {
            proof {
                lemma_first_index(s@, c, i as int);
            }
            let a = sub_chars(s, 0, i);
            let b = sub_chars(s, i + 1, n);
            assert(a@ =~= s@.take(i as int));
            assert(b@ =~= s@.skip(i + 1));
            Some((a, b))
        },
        None => {
            proof {
                lemma_first_index(s@, c, s@.len() as int);
            }
            None
        },
    }
}

} // verus!

verus! {

/// The character of a decimal digit.
pub open spec fn digit_char(d: nat) -> char {
    (d + '0' as nat) as char
}

/// The decimal notation of `n`, as `format!("{n}")` writes it.
pub open spec fn decimal_text(n: nat) -> Seq<char>
    decreases n,
{
    if n < 10 {
        seq![digit_char(n)]
    } else {
        decimal_text(n / 10).push(digit_char(n % 10))
    }
}

/// The decimal notation of `n`.
pub fn usize_to_decimal(n: usize) -> (r: Vec<char>)
    ensures
        r@ == decimal_text(n as nat),
    decreases n,
{
    let d = n % 10;
    let c = char_of_digit(d);
    if n < 10 {
        let mut r: Vec<char> = Vec::new();
        r.push(c);
        r
    } else {
        let mut r = usize_to_decimal(n / 10);
        r.push(c);
        r
    }
}

fn char_of_digit(d: usize) -> (c: char)
    requires
        d < 10,
    ensures
        c == digit_char(d as nat),
{
    if d == 0 {
        '0'
    } else if d == 1 {
        '1'
    } else if d == 2 {
        '2'
    } else if d == 3 {
        '3'
    } else if d == 4 {
        '4'
    } else if d == 5 {
        '5'
    } else if d == 6 {
        '6'
    } else if d == 7 {
        '7'
    } else if d == 8 {
        '8'
    } else {
        '9'
    }
}

} // verus!

verus! {

/// The tokens of `s` read so far, and the token being read.
pub open spec fn ws_fold(s: Seq<char>) -> (Seq<Seq<char>>, Seq<char>)
    decreases s.len(),
{
    if s.len() == 0 {
        (Seq::empty(), Seq::empty())
    } else {
        let (toks, cur) = ws_fold(s.drop_last());
        if is_ws(s.last()) {
            if cur.len() > 0 {
                (toks.push(cur), Seq::empty())
            } else {
                (toks, Seq::empty())
            }
        } else {
            (toks, cur.push(s.last()))
        }
    }
}

/// `str::split_whitespace`: the non-empty runs of non-white-space
/// characters.
pub open spec fn split_whitespace(s: Seq<char>) -> Seq<Seq<char>> {
    let (toks, cur) = ws_fold(s);
    if cur.len() > 0 {
        toks.push(cur)
    } else {
        toks
    }
}

/// `str::split_whitespace` on characters.
pub fn split_whitespace_chars(s: &[char]) -> (r: Vec<Vec<char>>)
    ensures
        vv(r@) == split_whitespace(s@),
{
    let mut toks: Vec<Vec<char>> = Vec::new();
    let mut cur: Vec<char> = Vec::new();
    let mut i: usize = 0;
    while i < s.len()
        invariant
            i <= s@.len(),
            (vv(toks@), cur@) == ws_fold(s@.take(i as int)),
        decreases s.len() - i,
    {
        assert(s@.take(i + 1).drop_last() =~= s@.take(i as int));
        let c = s[i];
        if char_is_ws(c) {
            if cur.len() > 0 {
                let ghost t0 = vv(toks@);
                toks.push(cur);
                assert(vv(toks@) =~= t0.push(cur@));
                cur = Vec::new();
            }
        } else {
            cur.push(c);
        }
        i = i + 1;
    }
    assert(s@.take(s@.len() as int) =~= s@);
    if cur.len() > 0 {
        let ghost t0 = vv(toks@);
        toks.push(cur);
        assert(vv(toks@) =~= t0.push(cur@));
    }
    toks
}

/// `char::to_ascii_lowercase`.
pub open spec fn ascii_lower(c: char) -> char {
    if 'A' <= c <= 'Z' {
        ((c as u32) + 32) as char
    } else {
        c
    }
}

/// `str::eq_ignore_ascii_case`.
pub open spec fn eq_ignore_ascii_case(a: Seq<char>, b: Seq<char>) -> bool {
    a.len() == b.len() && forall|k: int| 0 <= k < a.len() ==> ascii_lower(#[trigger] a[k])
        == ascii_lower(b[k])
}

pub fn ascii_lower_char(c: char) -> (r: char)
    ensures
        r == ascii_lower(c),
{
    if 'A' <= c && c <= 'Z' {
        let u = c as u32 + 32;
        proof {
            assert(u == (c as u32) + 32);
        }
        char_from_ascii_letter(u)
    } else {
        c
    }
}

fn char_from_ascii_letter(u: u32) -> (r: char)
    requires
        97 <= u <= 122,
    ensures
        r == u as char,
{
    let b = u as u8;
    let r = b as char;
    proof {
        assert(r as u32 == u);
    }
    r
}

/// `str::to_ascii_lowercase` on characters.
pub fn ascii_lower_chars(s: &[char]) -> (r: Vec<char>)
    ensures
        r@ == s@.map_values(|c: char| ascii_lower(c)),
{
    let mut r: Vec<char> = Vec::new();
    let mut i: usize = 0;
    while i < s.len()
        invariant
            i <= s@.len(),
            r@ == s@.take(i as int).map_values(|c: char| ascii_lower(c)),
        decreases s.len() - i,
    {
        r.push(ascii_lower_char(s[i]));
        assert(s@.take(i + 1).map_values(|c: char| ascii_lower(c)) =~= s@.take(i as int).map_values(
            |c: char| ascii_lower(c),
        ).push(ascii_lower(s@[i as int])));
        i = i + 1;
    }
    assert(s@.take(s@.len() as int) =~= s@);
    r
}

/// `str::eq_ignore_ascii_case` on characters.
pub fn eq_ignore_ascii_case_chars(a: &[char], b: &[char]) -> (r: bool)
    ensures
        r == eq_ignore_ascii_case(a@, b@),
{
    if a.len() != b.len() {
        return false;
    }
    let mut i: usize = 0;
    while i < a.len()
        invariant
            a@.len() == b@.len(),
            i <= a@.len(),
            forall|k: int| 0 <= k < i ==> ascii_lower(#[trigger] a@[k]) == ascii_lower(b@[k]),
        decreases a.len() - i,
    {
        if ascii_lower_char(a[i]) != ascii_lower_char(b[i]) {
            return false;
        }
        i = i + 1;
    }
    true
}

} // verus!

verus! {

/// Where `first_index` finds something, it is an index of that value.
pub proof fn lemma_first_index_some<T>(s: Seq<T>, c: T)
    ensures
        first_index(s, c) matches Some(k) ==> 0 <= k < s.len() && s[k] == c && forall|j: int|
            0 <= j < k ==> s[j] != c,
    decreases s.len(),
{
    if s.len() > 0 && s[0] != c {
        lemma_first_index_some(s.drop_first(), c);
        if let Some(k) = first_index(s.drop_first(), c) {
            assert forall|j: int| 0 <= j < k + 1 implies s[j] != c by {
                if j > 0 {
                    assert(s[j] == s.drop_first()[j - 1]);
                }
            };
        }
    }
}

/// The texts of a list of strings.
pub open spec fn strings_view(s: Seq<String>) -> Seq<Seq<char>> {
    s.map_values(|x: String| x@)
}

/// Appends a copy of `s`.
pub fn push_str(args: &mut Vec<String>, s: &str)
    ensures
        strings_view(final(args)@) == strings_view(old(args)@).push(s@),
{
    let ghost a0 = strings_view(args@);
    args.push(string_of(&chars_of(s)));
    assert(strings_view(args@) =~= a0.push(s@));
}

/// The decimal notation of an integer, with `-` before a negative one.
pub open spec fn int_text(n: int) -> Seq<char> {
    if n < 0 {
        seq!['-'] + decimal_text((-n) as nat)
    } else {
        decimal_text(n as nat)
    }
}

/// The decimal notation of `n`, as `format!("{n}")` writes it.
pub fn i32_to_decimal(n: i32) -> (r: Vec<char>)
    ensures
        r@ == int_text(n as int),
{
    if n < 0 {
        let m: usize = (0i64 - (n as i64)) as usize;
        let mut r: Vec<char> = Vec::new();
        r.push('-');
        let d = usize_to_decimal(m);
        push_all(&mut r, &d);
        assert(r@ =~= seq!['-'] + decimal_text((-n) as nat));
        r
    } else {
        usize_to_decimal(n as usize)
    }
}

/// The parts with `sep` between them.
pub open spec fn join_with(parts: Seq<Seq<char>>, sep: Seq<char>) -> Seq<char>
    decreases parts.len(),
{
    if parts.len() == 0 {
        Seq::empty()
    } else if parts.len() == 1 {
        parts[0]
    } else {
        join_with(parts.drop_last(), sep) + sep + parts.last()
    }
}

/// Joins the parts with `sep` between them.
pub fn join_chars(parts: &Vec<Vec<char>>, sep: &str) -> (r: Vec<char>)
    ensures
        r@ == join_with(parts@.map_values(|p: Vec<char>| p@), sep@),
{
    let ghost pv = parts@.map_values(|p: Vec<char>| p@);
    let s = chars_of(sep);
    let mut r: Vec<char> = Vec::new();
    let mut i: usize = 0;
    while i < parts.len()
        invariant
            i <= parts@.len(),
            pv == parts@.map_values(|p: Vec<char>| p@),
            s@ == sep@,
            r@ == join_with(pv.take(i as int), sep@),
        decreases parts.len() - i,
    {
        assert(pv.take(i + 1).drop_last() =~= pv.take(i as int));
        assert(pv.take(i + 1).last() == parts@[i as int]@);
        if i > 0 {
            push_all(&mut r, &s);
        } else {
            assert(pv.take(1)[0] == parts@[0]@);
        }
        push_all(&mut r, &parts[i]);
        i = i + 1;
    }
    assert(pv.take(parts@.len() as int) =~= pv);
    r
}

} // verus!

verus! {

/// A path of one ordinary component: not empty, not `.` or `..`, and
/// without `/`, `\` or `:`, which a path may read as a separator or a
/// prefix.
pub open spec fn single_component(p: Seq<char>) -> bool {
    &&& p.len() > 0
    &&& p != seq!['.']
    &&& p != seq!['.', '.']
    &&& forall|i: int| 0 <= i < p.len() ==> #[trigger] p[i] != '/' && p[i] != '\\' && p[i] != ':'
}

/// The index of the last `.` in `p`, or -1.
pub open spec fn last_dot(p: Seq<char>) -> int
    decreases p.len(),
{
    if p.len() == 0 {
        -1
    } else if p.last() == '.' {
        p.len() - 1
    } else {
        last_dot(p.drop_last())
    }
}

/// A file name without its extension: the part before the last `.`, or
/// the whole name where it has no `.` but at its start.
pub open spec fn stem_text(name: Seq<char>) -> Seq<char> {
    if last_dot(name) <= 0 {
        name
    } else {
        name.take(last_dot(name))
    }
}

} // verus!
