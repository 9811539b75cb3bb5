//! Lexicographic order, stable insertion sort and grouping of consecutive
//! items, used to lay out combined commit messages deterministically.
use vstd::prelude::*;

verus! {

/// `a <= b` in lexicographic order of character codes.
pub open spec fn chars_le(a: Seq<char>, b: Seq<char>) -> bool
    decreases a.len(),
{
    if a.len() == 0 {
        true
    } else if b.len() == 0 {
        false
    } else if a[0] != b[0] {
        (a[0] as int) < (b[0] as int)
    } else {
        chars_le(a.drop_first(), b.drop_first())
    }
}

/// `a <= b` in lexicographic order of bytes.
pub open spec fn bytes_le(a: Seq<u8>, b: Seq<u8>) -> bool
    decreases a.len(),
{
    if a.len() == 0 {
        true
    } else if b.len() == 0 {
        false
    } else if a[0] != b[0] {
        a[0] < b[0]
    } else {
        bytes_le(a.drop_first(), b.drop_first())
    }
}

pub fn chars_le_exec(a: &[char], b: &[char]) -> (r: bool)
    ensures
        r == chars_le(a@, b@),
{
    let mut i: usize = 0;
    assert(a@.skip(0) =~= a@);
    assert(b@.skip(0) =~= b@);
    while i < a.len() && i < b.len() && a[i] == b[i]
        invariant
            i <= a@.len(),
            i <= b@.len(),
            chars_le(a@, b@) == chars_le(a@.skip(i as int), b@.skip(i as int)),
        decreases a.len() - i,
    {
        proof {
            assert(a@.skip(i as int).drop_first() =~= a@.skip(i + 1));
            assert(b@.skip(i as int).drop_first() =~= b@.skip(i + 1));
        }
        i = i + 1;
    }
    if i == a.len() {
        true
    } else if i == b.len() {
        false
    } else {
        a[i] < b[i]
    }
}

pub fn bytes_le_exec(a: &[u8], b: &[u8]) -> (r: bool)
    ensures
        r == bytes_le(a@, b@),
{
    let mut i: usize = 0;
    assert(a@.skip(0) =~= a@);
    assert(b@.skip(0) =~= b@);
    while i < a.len() && i < b.len() && a[i] == b[i]
        invariant
            i <= a@.len(),
            i <= b@.len(),
            bytes_le(a@, b@) == bytes_le(a@.skip(i as int), b@.skip(i as int)),
        decreases a.len() - i,
    {
        proof {
            assert(a@.skip(i as int).drop_first() =~= a@.skip(i + 1));
            assert(b@.skip(i as int).drop_first() =~= b@.skip(i + 1));
        }
        i = i + 1;
    }
    if i == a.len() {
        true
    } else if i == b.len() {
        false
    } else {
        a[i] < b[i]
    }
}

/// What a [`SortKey`] holds.
pub struct SortKeyView {
    pub flag: bool,
    pub text: Seq<char>,
    pub text2: Seq<char>,
    pub path: Seq<u8>,
}

/// A key ordered by its fields in turn: `false` before `true`, then the
/// texts and the path lexicographically.
pub struct SortKey {
    pub flag: bool,
    pub text: Vec<char>,
    pub text2: Vec<char>,
    pub path: Vec<u8>,
}

impl View for SortKey {
    type V = SortKeyView;

    open spec fn view(&self) -> SortKeyView {
        SortKeyView { flag: self.flag, text: self.text@, text2: self.text2@, path: self.path@ }
    }
}

pub open spec fn key_le(a: SortKeyView, b: SortKeyView) -> bool {
    if a.flag != b.flag {
        !a.flag
    } else if a.text != b.text {
        chars_le(a.text, b.text)
    } else if a.text2 != b.text2 {
        chars_le(a.text2, b.text2)
    } else {
        bytes_le(a.path, b.path)
    }
}

fn chars_same(a: &[char], b: &[char]) -> (r: bool)
    ensures
        r == (a@ == b@),
{
    crate::text::chars_eq(a, b)
}

pub fn key_le_exec(a: &SortKey, b: &SortKey) -> (r: bool)
    ensures
        r == key_le(a@, b@),
{
    if a.flag != b.flag {
        !a.flag
    } else if !chars_same(a.text.as_slice(), b.text.as_slice()) {
        chars_le_exec(a.text.as_slice(), b.text.as_slice())
    } else if !chars_same(a.text2.as_slice(), b.text2.as_slice()) {
        chars_le_exec(a.text2.as_slice(), b.text2.as_slice())
    } else {
        bytes_le_exec(a.path.as_slice(), b.path.as_slice())
    }
}

/// The views of keyed items.
pub open spec fn keyed_view<T: View>(s: Seq<(SortKey, T)>) -> Seq<(SortKeyView, T::V)> {
    s.map_values(|x: (SortKey, T)| (x.0@, x.1@))
}

/// Number of leading items whose key is at most `k`.
pub open spec fn leading_le<V>(s: Seq<(SortKeyView, V)>, k: SortKeyView) -> nat
    decreases s.len(),
{
    if s.len() > 0 && key_le(s[0].0, k) {
        1 + leading_le(s.drop_first(), k)
    } else {
        0
    }
}

/// `x` inserted after the leading run of items whose keys are at most its
/// key; on a sorted sequence that is after all items not above it.
pub open spec fn insert_sorted<V>(s: Seq<(SortKeyView, V)>, x: (SortKeyView, V)) -> Seq<(SortKeyView, V)> {
    let p = leading_le(s, x.0) as int;
    s.take(p).push(x) + s.skip(p)
}

/// Stable insertion sort by key.
pub open spec fn sort_by_key<V>(s: Seq<(SortKeyView, V)>) -> Seq<(SortKeyView, V)>
    decreases s.len(),
{
    if s.len() == 0 {
        s
    } else {
        insert_sorted(sort_by_key(s.drop_last()), s.last())
    }
}

pub proof fn lemma_leading_le_unique<V>(s: Seq<(SortKeyView, V)>, k: SortKeyView, n: nat)
    requires
        n <= s.len(),
        forall|i: int| 0 <= i < n ==> key_le(#[trigger] s[i].0, k),
        n == s.len() || !key_le(s[n as int].0, k),
    ensures
        leading_le(s, k) == n,
    decreases s.len(),
{
    if n > 0 {
        assert(key_le(s[0].0, k));
        assert forall|i: int| 0 <= i < n - 1 implies key_le(#[trigger] s.drop_first()[i].0, k) by {
            assert(s.drop_first()[i] == s[i + 1]);
        }
        if n < s.len() {
            assert(s.drop_first()[n - 1] == s[n as int]);
        }
        lemma_leading_le_unique(s.drop_first(), k, (n - 1) as nat);
    } else if s.len() > 0 {
        assert(!key_le(s[0].0, k));
    }
}

/// Stable sort of keyed items, as `sort_by` with the key order.
pub fn sort_keyed<T: View>(items: Vec<(SortKey, T)>) -> (r: Vec<(SortKey, T)>)
    ensures
        keyed_view(r@) == sort_by_key(keyed_view(items@)),
{
    let mut items = items;
    let ghost orig = items@;
    let ghost ov = keyed_view(orig);
    let mut out: Vec<(SortKey, T)> = Vec::new();
    let mut rev: Vec<(SortKey, T)> = Vec::new();
    while items.len() > 0
        invariant
            orig == items@ + rev@.reverse(),
        decreases items.len(),
    {
        let x = items.pop().unwrap();
        proof {
            assert(orig =~= items@ + rev@.push(x).reverse());
        }
        rev.push(x);
    }
    assert(orig =~= rev@.reverse());
    let ghost n = rev@.len();
    assert(orig.skip(0) =~= orig);
    assert(keyed_view(out@) =~= sort_by_key(ov.take(0)));
    while rev.len() > 0
        invariant
            n == orig.len(),
            ov == keyed_view(orig),
            rev@.len() <= n,
            rev@.reverse() =~= orig.skip(n - rev@.len()),
            keyed_view(out@) == sort_by_key(ov.take(n - rev@.len())),
        decreases rev.len(),
    {
        let ghost rv = rev@;
        let x = rev.pop().unwrap();
        let ghost done = ov.take(n - rev@.len() - 1);
        proof {
            assert(x == rv.reverse()[0]);
            assert(rev@.reverse() =~= rv.reverse().drop_first());
            assert(orig.skip(n - rv.len()).drop_first() =~= orig.skip(n - rev@.len()));
            assert(orig[n - rv.len()] == orig.skip(n - rv.len())[0]);
            assert(ov.take(n - rev@.len()).drop_last() =~= done);
            assert(ov.take(n - rev@.len()).last() == (x.0@, x.1@));
        }
        let mut p: usize = 0;
        while p < out.len() && key_le_exec(&out[p].0, &x.0)
            invariant
                p <= out@.len(),
                forall|i: int| 0 <= i < p ==> key_le(#[trigger] keyed_view(out@)[i].0, x.0@),
            decreases out.len() - p,
        {
            assert(keyed_view(out@)[p as int].0 == out@[p as int].0@);
            p = p + 1;
        }
        proof {
            if p < out@.len() {
                assert(keyed_view(out@)[p as int].0 == out@[p as int].0@);
            }
            lemma_leading_le_unique(keyed_view(out@), x.0@, p as nat);
        }
        let ghost before = out@;
        out.insert(p, x);
        proof {
            assert(out@ =~= before.take(p as int).push(x) + before.skip(p as int));
            assert(keyed_view(out@) =~= keyed_view(before).take(p as int).push((x.0@, x.1@))
                + keyed_view(before).skip(p as int));
        }
    }
    assert(ov.take(n as int) =~= ov);
    out
}

/// The views of text-keyed items.
pub open spec fn texted_view<T: View>(s: Seq<(Vec<char>, T)>) -> Seq<(Seq<char>, T::V)> {
    s.map_values(|x: (Vec<char>, T)| (x.0@, x.1@))
}

/// Consecutive items with equal text keys, as `chunk_by` groups them.
pub open spec fn group_by_text<V>(s: Seq<(Seq<char>, V)>) -> Seq<Seq<(Seq<char>, V)>>
    decreases s.len(),
{
    if s.len() == 0 {
        Seq::empty()
    } else {
        let g = group_by_text(s.drop_last());
        if g.len() > 0 && g.last().len() > 0 && g.last().last().0 == s.last().0 {
            g.update(g.len() - 1, g.last().push(s.last()))
        } else {
            g.push(seq![s.last()])
        }
    }
}

pub proof fn lemma_group_by_text_nonempty<V>(s: Seq<(Seq<char>, V)>)
    ensures
        forall|i: int|
            0 <= i < group_by_text(s).len() ==> (#[trigger] group_by_text(s)[i]).len() > 0,
        s.len() > 0 ==> group_by_text(s).len() > 0,
    decreases s.len(),
{
    if s.len() > 0 {
        lemma_group_by_text_nonempty(s.drop_last());
        let g = group_by_text(s.drop_last());
        if g.len() > 0 && g.last().len() > 0 && g.last().last().0 == s.last().0 {
            let ng = g.update(g.len() - 1, g.last().push(s.last()));
            assert forall|i: int| 0 <= i < ng.len() implies (#[trigger] ng[i]).len() > 0 by {
                if i < g.len() - 1 {
                    assert(ng[i] == g[i]);
                }
            }
        } else {
            let ng = g.push(seq![s.last()]);
            assert forall|i: int| 0 <= i < ng.len() implies (#[trigger] ng[i]).len() > 0 by {
                if i < g.len() {
                    assert(ng[i] == g[i]);
                }
            }
        }
    }
}

/// The views of groups of text-keyed items.
pub open spec fn groups_view<T: View>(s: Seq<Vec<(Vec<char>, T)>>) -> Seq<Seq<(Seq<char>, T::V)>> {
    s.map_values(|g: Vec<(Vec<char>, T)>| texted_view(g@))
}

/// Groups consecutive items with equal text keys.
pub fn group_consecutive<T: View>(items: Vec<(Vec<char>, T)>) -> (r: Vec<Vec<(Vec<char>, T)>>)
    ensures
        groups_view(r@) == group_by_text(texted_view(items@)),
{
    let mut items = items;
    let ghost orig = items@;
    let ghost ov = texted_view(orig);
    let mut rev: Vec<(Vec<char>, T)> = Vec::new();
    while items.len() > 0
        invariant
            orig == items@ + rev@.reverse(),
        decreases items.len(),
    {
        let x = items.pop().unwrap();
        proof {
            assert(orig =~= items@ + rev@.push(x).reverse());
        }
        rev.push(x);
    }
    assert(orig =~= rev@.reverse());
    let ghost n = rev@.len();
    assert(orig.skip(0) =~= orig);
    let mut out: Vec<Vec<(Vec<char>, T)>> = Vec::new();
    assert(groups_view(out@) =~= group_by_text(ov.take(0)));
    while rev.len() > 0
        invariant
            n == orig.len(),
            ov == texted_view(orig),
            rev@.len() <= n,
            rev@.reverse() =~= orig.skip(n - rev@.len()),
            groups_view(out@) == group_by_text(ov.take(n - rev@.len())),
        decreases rev.len(),
    {
        let ghost rv = rev@;
        let x = rev.pop().unwrap();
        let ghost done = ov.take(n - rev@.len() - 1);
        proof {
            assert(x == rv.reverse()[0]);
            assert(rev@.reverse() =~= rv.reverse().drop_first());
            assert(orig.skip(n - rv.len()).drop_first() =~= orig.skip(n - rev@.len()));
            assert(orig[n - rv.len()] == orig.skip(n - rv.len())[0]);
            assert(ov.take(n - rev@.len()).drop_last() =~= done);
            assert(ov.take(n - rev@.len()).last() == (x.0@, x.1@));
            lemma_group_by_text_nonempty(done);
        }
        let ghost before = groups_view(out@);
        let same = if out.len() > 0 {
            let last = out.len() - 1;
            let lg = &out[last];
            proof {
                assert(before[last as int] == texted_view(lg@));
                if lg@.len() > 0 {
                    assert(texted_view(lg@).last() == (lg@.last().0@, lg@.last().1@));
                }
            }
            lg.len() > 0 && chars_same(lg[lg.len() - 1].0.as_slice(), x.0.as_slice())
        } else {
            false
        };
        if same {
            let last = out.len() - 1;
            let mut g = out.remove(last);
            let ghost gv = texted_view(g@);
            assert(before.last() == gv);
            g.push(x);
            out.push(g);
            proof {
                assert(texted_view(g@) =~= gv.push((x.0@, x.1@)));
                assert(groups_view(out@) =~= before.update(
                    before.len() - 1,
                    gv.push((x.0@, x.1@)),
                ));
            }
        } else {
            let mut g: Vec<(Vec<char>, T)> = Vec::new();
            g.push(x);
            out.push(g);
            proof {
                assert(texted_view(g@) =~= seq![(x.0@, x.1@)]);
                assert(groups_view(out@) =~= before.push(seq![(x.0@, x.1@)]));
            }
        }
    }
    assert(ov.take(n as int) =~= ov);
    out
}

} // verus!

verus! {

/// Sorting keeps the items: each sorted item is one of the input.
pub proof fn lemma_sort_by_key_items<V>(s: Seq<(SortKeyView, V)>)
    ensures
        sort_by_key(s).len() == s.len(),
        forall|i: int|
            0 <= i < s.len() ==> exists|j: int| 0 <= j < s.len() && #[trigger] sort_by_key(s)[i] == s[j],
    decreases s.len(),
{
    if s.len() > 0 {
        let t = sort_by_key(s.drop_last());
        lemma_sort_by_key_items(s.drop_last());
        let x = s.last();
        let p = leading_le(t, x.0) as int;
        lemma_leading_le_bound(t, x.0);
        let r = insert_sorted(t, x);
        assert(r == t.take(p).push(x) + t.skip(p));
        assert forall|i: int| 0 <= i < s.len() implies exists|j: int|
            0 <= j < s.len() && #[trigger] sort_by_key(s)[i] == s[j] by {
            if i < p {
                assert(r[i] == t[i]);
                let j = choose|j: int| 0 <= j < s.len() - 1 && t[i] == s.drop_last()[j];
                assert(s.drop_last()[j] == s[j]);
            } else if i == p {
                assert(r[i] == s[s.len() - 1]);
            } else {
                assert(r[i] == t[i - 1]);
                let j = choose|j: int| 0 <= j < s.len() - 1 && t[i - 1] == s.drop_last()[j];
                assert(s.drop_last()[j] == s[j]);
            }
        }
    }
}

pub proof fn lemma_leading_le_bound<V>(s: Seq<(SortKeyView, V)>, k: SortKeyView)
    ensures
        leading_le(s, k) <= s.len(),
    decreases s.len(),
{
    if s.len() > 0 && key_le(s[0].0, k) {
        lemma_leading_le_bound(s.drop_first(), k);
    }
}

/// Lexicographic order of bytes is total.
pub proof fn lemma_bytes_le_total(a: Seq<u8>, b: Seq<u8>)
    ensures
        bytes_le(a, b) || bytes_le(b, a),
    decreases a.len(),
{
    if a.len() > 0 && b.len() > 0 && a[0] == b[0] {
        lemma_bytes_le_total(a.drop_first(), b.drop_first());
    }
}

/// Lexicographic order of bytes is antisymmetric.
pub proof fn lemma_bytes_le_antisymmetric(a: Seq<u8>, b: Seq<u8>)
    requires
        bytes_le(a, b),
        bytes_le(b, a),
    ensures
        a == b,
    decreases a.len(),
{
    if a.len() > 0 && b.len() > 0 {
        lemma_bytes_le_antisymmetric(a.drop_first(), b.drop_first());
        assert(a =~= seq![a[0]] + a.drop_first());
        assert(b =~= seq![b[0]] + b.drop_first());
    }
}

/// Lexicographic order of bytes is transitive.
pub proof fn lemma_bytes_le_transitive(a: Seq<u8>, b: Seq<u8>, c: Seq<u8>)
    requires
        bytes_le(a, b),
        bytes_le(b, c),
    ensures
        bytes_le(a, c),
    decreases a.len(),
{
    if a.len() > 0 && b.len() > 0 && c.len() > 0 && a[0] == b[0] && b[0] == c[0] {
        lemma_bytes_le_transitive(a.drop_first(), b.drop_first(), c.drop_first());
    }
}

/// `a` comes strictly before `b`.
pub open spec fn bytes_lt(a: Seq<u8>, b: Seq<u8>) -> bool {
    bytes_le(a, b) && a != b
}

/// Every item comes strictly before the next ones: sorted, without
/// duplicates.
pub open spec fn strictly_sorted(s: Seq<Seq<u8>>) -> bool {
    forall|i: int, j: int| 0 <= i < j < s.len() ==> bytes_lt(#[trigger] s[i], #[trigger] s[j])
}

pub open spec fn byte_strings_view(v: Seq<Vec<u8>>) -> Seq<Seq<u8>> {
    v.map_values(|x: Vec<u8>| x@)
}

/// Whether `x` is one of the byte strings.
pub fn contains_bytes(v: &Vec<Vec<u8>>, x: &[u8]) -> (r: bool)
    ensures
        r == byte_strings_view(v@).contains(x@),
{
    let mut i: usize = 0;
    while i < v.len()
        invariant
            i <= v@.len(),
            forall|m: int| 0 <= m < i ==> (#[trigger] v@[m])@ != x@,
        decreases v.len() - i,
    {
        if crate::git::bytes_eq(v[i].as_slice(), x) {
            assert(byte_strings_view(v@)[i as int] == x@);
            return true;
        }
        i = i + 1;
    }
    assert forall|m: int| 0 <= m < byte_strings_view(v@).len() implies #[trigger] byte_strings_view(
        v@,
    )[m] != x@ by {
        assert(byte_strings_view(v@)[m] == v@[m]@);
    };
    false
}

/// Adds `x` to a sorted list without duplicates, where it belongs, unless it
/// is there already.
pub fn insert_sorted_unique(v: &mut Vec<Vec<u8>>, x: &[u8])
    requires
        strictly_sorted(byte_strings_view(old(v)@)),
    ensures
        strictly_sorted(byte_strings_view(final(v)@)),
        forall|y: Seq<u8>|
            #![trigger byte_strings_view(final(v)@).contains(y)]
            byte_strings_view(final(v)@).contains(y) <==> (byte_strings_view(old(v)@).contains(y)
                || y == x@),
{
    let ghost s0 = byte_strings_view(v@);
    let mut p: usize = 0;
    while p < v.len() && !bytes_le_exec(x, v[p].as_slice())
        invariant
            p <= v@.len(),
            s0 == byte_strings_view(v@),
            strictly_sorted(s0),
            forall|i: int| 0 <= i < p ==> bytes_lt(#[trigger] s0[i], x@),
        decreases v.len() - p,
    {
        proof {
            lemma_bytes_le_total(x@, s0[p as int]);
        }
        p = p + 1;
    }
    if p < v.len() && crate::git::bytes_eq(v[p].as_slice(), x) {
        assert(s0[p as int] == x@);
        assert forall|y: Seq<u8>| s0.contains(y) <==> (s0.contains(y) || y == x@) by {
            if y == x@ {
                assert(s0[p as int] == y);
            }
        };
        return;
    }
    let xv = crate::git::bytes_to_vec(x);
    v.insert(p, xv);
    let ghost s1 = byte_strings_view(v@);
    assert(s1 =~= s0.take(p as int).push(x@) + s0.skip(p as int));
    assert forall|i: int, j: int| 0 <= i < j < s1.len() implies bytes_lt(
        #[trigger] s1[i],
        #[trigger] s1[j],
    ) by {
        if j < p {
            assert(s1[i] == s0[i] && s1[j] == s0[j]);
        } else if j == p {
            assert(s1[i] == s0[i]);
        } else if i == p {
            assert(s1[j] == s0[j - 1]);
            assert(bytes_le(x@, s0[p as int]));
            assert(x@ != s0[p as int]);
            if j - 1 > p {
                assert(bytes_lt(s0[p as int], s0[j - 1]));
                lemma_bytes_le_transitive(x@, s0[p as int], s0[j - 1]);
                if x@ == s0[j - 1] {
                    lemma_bytes_le_antisymmetric(x@, s0[p as int]);
                }
            }
        } else if i < p {
            assert(s1[i] == s0[i] && s1[j] == s0[j - 1]);
            assert(bytes_lt(s0[i], x@));
            if j - 1 >= p {
                assert(bytes_le(x@, s0[p as int]));
                lemma_bytes_le_transitive(s0[i], x@, s0[p as int]);
                if j - 1 > p {
                    lemma_bytes_le_transitive(s0[i], s0[p as int], s0[j - 1]);
                }
                if s0[i] == s0[j - 1] {
                    if j - 1 == p {
                        lemma_bytes_le_antisymmetric(s0[i], x@);
                    } else {
                        lemma_bytes_le_antisymmetric(s0[i], s0[p as int]);
                        assert(bytes_lt(s0[p as int], s0[j - 1]));
                    }
                }
            }
        } else {
            assert(s1[i] == s0[i - 1] && s1[j] == s0[j - 1]);
        }
    };
    assert forall|y: Seq<u8>| s1.contains(y) <==> (s0.contains(y) || y == x@) by {
        if s1.contains(y) {
            let k = choose|k: int| 0 <= k < s1.len() && s1[k] == y;
            if k < p {
                assert(s0[k] == y);
            } else if k > p {
                assert(s0[k - 1] == y);
            }
        }
        if s0.contains(y) {
            let k = choose|k: int| 0 <= k < s0.len() && s0[k] == y;
            if k < p {
                assert(s1[k] == y);
            } else {
                assert(s1[k + 1] == y);
            }
        }
        if y == x@ {
            assert(s1[p as int] == y);
        }
    };
}

/// Lexicographic order of characters is total.
pub proof fn lemma_chars_le_total(a: Seq<char>, b: Seq<char>)
    ensures
        chars_le(a, b) || chars_le(b, a),
    decreases a.len(),
{
    if a.len() > 0 && b.len() > 0 && a[0] == b[0] {
        lemma_chars_le_total(a.drop_first(), b.drop_first());
    } else if a.len() > 0 && b.len() > 0 {
        assert((a[0] as int) != (b[0] as int));
    }
}

/// Lexicographic order of characters is antisymmetric.
pub proof fn lemma_chars_le_antisymmetric(a: Seq<char>, b: Seq<char>)
    requires
        chars_le(a, b),
        chars_le(b, a),
    ensures
        a == b,
    decreases a.len(),
{
    if a.len() > 0 && b.len() > 0 {
        lemma_chars_le_antisymmetric(a.drop_first(), b.drop_first());
        assert(a =~= seq![a[0]] + a.drop_first());
        assert(b =~= seq![b[0]] + b.drop_first());
    }
}

/// Lexicographic order of characters is transitive.
pub proof fn lemma_chars_le_transitive(a: Seq<char>, b: Seq<char>, c: Seq<char>)
    requires
        chars_le(a, b),
        chars_le(b, c),
    ensures
        chars_le(a, c),
    decreases a.len(),
{
    if a.len() > 0 && b.len() > 0 && c.len() > 0 && a[0] == b[0] && b[0] == c[0] {
        lemma_chars_le_transitive(a.drop_first(), b.drop_first(), c.drop_first());
    }
}

/// `a` comes strictly before `b`.
pub open spec fn chars_lt(a: Seq<char>, b: Seq<char>) -> bool {
    chars_le(a, b) && a != b
}

/// Sorted, without duplicates.
pub open spec fn chars_strictly_sorted(s: Seq<Seq<char>>) -> bool {
    forall|i: int, j: int| 0 <= i < j < s.len() ==> chars_lt(#[trigger] s[i], #[trigger] s[j])
}

} // verus!
