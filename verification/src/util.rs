//! Small generic helpers: uniqueness checks, path normalization and line
//! handling.
use crate::text::blank_at;
use crate::text::chars_of;
use crate::text::from_utf8_lossy;
use crate::text::has_suffix;
use crate::text::lemma_split_on_len;
use crate::text::push_all;
use crate::text::split_on;
use crate::text::string_of;
use crate::text::strings_view;
use crate::text::utf8_lossy;
use crate::text::vv;
use vstd::prelude::*;
use vstd::std_specs::cmp::PartialEqSpec;

verus! {

/// The first item if every item equals it, as `!=` decides.
pub open spec fn spec_single_unique<T: PartialEq>(s: Seq<T>) -> Option<T> {
    if s.len() == 0 {
        None
    } else if forall|i: int| 1 <= i < s.len() ==> (#[trigger] s[i]).eq_spec(&s[0]) {
        Some(s[0])
    } else {
        None
    }
}

/// Returns the first element if all elements are equal. Otherwise, returns
/// `None`.
pub fn single_unique<T: PartialEq>(items: Vec<T>) -> (r: Option<T>)
    ensures
        items@.len() == 0 ==> r is None,
        r matches Some(x) ==> items@.len() > 0 && x == items@[0],
        T::obeys_eq_spec() ==> r == spec_single_unique(items@),
{
    let ghost orig = items@;
    let mut rest = items;
    if rest.len() == 0 {
        return None;
    }
    let first = rest.remove(0);
    assert(rest@ =~= orig.drop_first());
    let mut i: usize = 0;
    while i < rest.len()
        invariant
            i <= rest@.len(),
            orig == items@,
            orig.len() == rest@.len() + 1,
            rest@ == orig.drop_first(),
            first == orig[0],
            T::obeys_eq_spec() ==> forall|j: int| 1 <= j <= i ==> (#[trigger] orig[j]).eq_spec(&orig[0]),
        decreases rest.len() - i,
    {
        if rest[i] != first {
            proof {
                assert(orig[i + 1] == rest@[i as int]);
                if T::obeys_eq_spec() {
                    assert(!orig[i + 1].eq_spec(&orig[0]));
                    assert(!(forall|j: int| 1 <= j < orig.len() ==> (#[trigger] orig[j]).eq_spec(&orig[0])));
                    assert(spec_single_unique(orig) is None);
                }
            }
            return None;
        }
        proof {
            assert(orig[i + 1] == rest@[i as int]);
        }
        i = i + 1;
    }
    Some(first)
}

/// Consumes a vector to check if it is non-empty and all the elements are
/// equal.
pub trait IterSingleUnique<T> {
    fn single_unique(self) -> Option<T>;
}

impl<T: PartialEq> IterSingleUnique<T> for Vec<T> {
    /// Returns the first element if all elements are equal. Otherwise, returns
    /// `None`.
    fn single_unique(self) -> (r: Option<T>)
        ensures
            self@.len() == 0 ==> r is None,
            r matches Some(x) ==> self@.len() > 0 && x == self@[0],
            T::obeys_eq_spec() ==> r == spec_single_unique(self@),
    {
        single_unique(self)
    }
}

/// A container that can hold either no entry or a single entry.
#[derive(Debug, Default, Clone, PartialEq, Eq)]
pub enum UniqueContainer<T> {
    /// No entry in the container.
    #[default]
    Empty,
    /// Only a single entry has been added.
    Single(T),
    /// Multiple different entries have been added.
    Multiple,
}

/// The container after adding `item`: a second item that differs from the
/// first, as `!=` decides, makes it hold multiple entries for good.
pub open spec fn spec_insert<T: PartialEq>(c: UniqueContainer<T>, item: T) -> UniqueContainer<T> {
    match c {
        UniqueContainer::Empty => UniqueContainer::Single(item),
        UniqueContainer::Single(first) => if first.eq_spec(&item) {
            UniqueContainer::Single(first)
        } else {
            UniqueContainer::Multiple
        },
        UniqueContainer::Multiple => UniqueContainer::Multiple,
    }
}

/// The container after adding all the items in order to an empty one.
pub open spec fn spec_insert_all<T: PartialEq>(items: Seq<T>) -> UniqueContainer<T>
    decreases items.len(),
{
    if items.len() == 0 {
        UniqueContainer::Empty
    } else {
        spec_insert(spec_insert_all(items.drop_last()), items.last())
    }
}

impl<T: PartialEq> UniqueContainer<T> {
    pub fn new() -> (r: Self)
        ensures
            r == UniqueContainer::<T>::Empty,
    {
        UniqueContainer::Empty
    }

    /// Adds an item; a container that has seen two different items holds
    /// multiple entries from then on.
    pub fn insert(&mut self, item: T)
        ensures
            T::obeys_eq_spec() ==> *final(self) == spec_insert(*old(self), item),
            match *old(self) {
                UniqueContainer::Empty => *final(self) == UniqueContainer::Single(item),
                UniqueContainer::Multiple => *final(self) == UniqueContainer::<T>::Multiple,
                UniqueContainer::Single(first) => *final(self) == UniqueContainer::Single(first)
                    || *final(self) == UniqueContainer::<T>::Multiple,
            },
    {
        let differs = match self {
            UniqueContainer::Empty => {
                *self = UniqueContainer::Single(item);
                return;
            },
            UniqueContainer::Single(first) => *first != item,
            UniqueContainer::Multiple => false,
        };
        if differs {
            *self = UniqueContainer::Multiple;
        }
    }
}

/// Where `==` is symmetric, adding items one by one leaves the container
/// holding a single entry exactly when [`single_unique`] finds one, and then
/// the same one.
pub proof fn law_unique_container_agrees_with_single_unique<T: PartialEq>(items: Seq<T>)
    requires
        forall|a: T, b: T| #[trigger] a.eq_spec(&b) == b.eq_spec(&a),
    ensures
        spec_single_unique(items) == match spec_insert_all(items) {
            UniqueContainer::Single(x) => Some(x),
            _ => None,
        },
{
    law_unique_container(items);
    if items.len() > 0 {
        let all_first = forall|i: int| 1 <= i < items.len() ==> items[0].eq_spec(&(#[trigger] items[i]));
        let all_back = forall|i: int| 1 <= i < items.len() ==> (#[trigger] items[i]).eq_spec(&items[0]);
        assert(all_first == all_back) by {
            if all_first {
                assert forall|i: int| 1 <= i < items.len() implies (#[trigger] items[i]).eq_spec(&items[0]) by {
                    assert(items[0].eq_spec(&items[i]) == items[i].eq_spec(&items[0]));
                };
            }
            if all_back {
                assert forall|i: int| 1 <= i < items.len() implies items[0].eq_spec(&(#[trigger] items[i])) by {
                    assert(items[0].eq_spec(&items[i]) == items[i].eq_spec(&items[0]));
                };
            }
        };
    }
}

/// Adding items one by one leaves the container empty for no items, holding
/// the first item when every later one equals it, and holding multiple
/// entries otherwise.
pub proof fn law_unique_container<T: PartialEq>(items: Seq<T>)
    ensures
        spec_insert_all(items) == (if items.len() == 0 {
            UniqueContainer::Empty
        } else if forall|i: int| 1 <= i < items.len() ==> items[0].eq_spec(&(#[trigger] items[i])) {
            UniqueContainer::Single(items[0])
        } else {
            UniqueContainer::Multiple
        }),
    decreases items.len(),
{
    if items.len() > 0 {
        let prev = items.drop_last();
        law_unique_container(prev);
        if items.len() > 1 {
            if forall|i: int| 1 <= i < prev.len() ==> prev[0].eq_spec(&(#[trigger] prev[i])) {
                if forall|i: int| 1 <= i < items.len() ==> items[0].eq_spec(&(#[trigger] items[i])) {
                    assert(items[0].eq_spec(&items[items.len() - 1]));
                } else {
                    let k = choose|k: int| 1 <= k < items.len() && !items[0].eq_spec(&items[k]);
                    if k < items.len() - 1 {
                        assert(prev[k] == items[k]);
                        assert(prev[0].eq_spec(&prev[k]));
                    }
                }
            } else {
                let k = choose|k: int| 1 <= k < prev.len() && !prev[0].eq_spec(&prev[k]);
                assert(prev[k] == items[k]);
                assert(!(forall|i: int| 1 <= i < items.len() ==> items[0].eq_spec(&(#[trigger] items[i]))));
            }
        }
    }
}

/// One path part applied to the parts kept so far: empty parts and `.` are
/// dropped and `..` removes the part before it, if any.
pub open spec fn normalize_step(st: Seq<Seq<char>>, p: Seq<char>) -> Seq<Seq<char>> {
    if p.len() == 0 || p == seq!['.'] {
        st
    } else if p == seq!['.', '.'] {
        if st.len() == 0 {
            st
        } else {
            st.drop_last()
        }
    } else {
        st.push(p)
    }
}

/// The path parts kept by normalization.
pub open spec fn normalize_stack(parts: Seq<Seq<char>>) -> Seq<Seq<char>>
    decreases parts.len(),
{
    if parts.len() == 0 {
        Seq::empty()
    } else {
        normalize_step(normalize_stack(parts.drop_last()), parts.last())
    }
}

/// Parts joined by `/`.
pub open spec fn join_slash(parts: Seq<Seq<char>>) -> Seq<char>
    decreases parts.len(),
{
    if parts.len() == 0 {
        Seq::empty()
    } else if parts.len() == 1 {
        parts[0]
    } else {
        join_slash(parts.drop_last()).push('/') + parts.last()
    }
}

/// A path normalized in the abstract, without filesystem access.
pub open spec fn spec_normalize(p: Seq<char>) -> Seq<char> {
    join_slash(normalize_stack(split_on(p, '/')))
}

fn apply_part(stack: &mut Vec<Vec<char>>, part: Vec<char>)
    ensures
        vv(final(stack)@) == normalize_step(vv(old(stack)@), part@),
{
    let ghost before = vv(stack@);
    if part.len() == 0 || (part.len() == 1 && part[0] == '.') {
        assert(part@.len() == 1 ==> part@ =~= seq!['.']);
        assert(part@.len() == 0 ==> part@ != seq!['.'] && part@ != seq!['.', '.']);
        proof {
            if part@.len() == 1 {
                assert(part@ != seq!['.', '.']);
            }
        }
        return;
    }
    assert(part@ != seq!['.']);
    if part.len() == 2 && part[0] == '.' && part[1] == '.' {
        assert(part@ =~= seq!['.', '.']);
        if stack.len() > 0 {
            stack.pop();
            assert(vv(stack@) =~= before.drop_last());
        }
        return;
    }
    assert(part@ != seq!['.', '.']);
    stack.push(part);
    assert(vv(stack@) =~= before.push(part@));
}

/// Normalize a path in the abstract, without filesystem accesses.
///
/// This is not guaranteed to give correct paths, notably in the presence of
/// mounts or symlinks, but if the paths are known to be free of links, this
/// is faster than `realpath(3)` et al.
pub fn normalize(p: &str) -> (r: String)
    ensures
        r@ == spec_normalize(p@),
{
    let s = chars_of(p);
    let mut stack: Vec<Vec<char>> = Vec::new();
    let mut cur: Vec<char> = Vec::new();
    let mut i: usize = 0;
    while i < s.len()
        invariant
            i <= s@.len(),
            split_on(s@.take(i as int), '/').len() >= 1,
            vv(stack@) == normalize_stack(split_on(s@.take(i as int), '/').drop_last()),
            cur@ == split_on(s@.take(i as int), '/').last(),
        decreases s.len() - i,
    {
        let ghost parts = split_on(s@.take(i as int), '/');
        assert(s@.take(i + 1).drop_last() =~= s@.take(i as int));
        let c = s[i];
        if c == '/' {
            let part = cur;
            cur = Vec::new();
            apply_part(&mut stack, part);
            proof {
                let np = split_on(s@.take(i + 1), '/');
                assert(np == parts.push(Seq::empty()));
                assert(np.drop_last() =~= parts);
                assert(parts.drop_last() =~= parts.take(parts.len() - 1));
                assert(normalize_stack(parts) == normalize_step(
                    normalize_stack(parts.drop_last()),
                    parts.last(),
                ));
            }
        } else {
            cur.push(c);
            proof {
                let np = split_on(s@.take(i + 1), '/');
                assert(np == parts.update(parts.len() - 1, parts.last().push(c)));
                assert(np.drop_last() =~= parts.drop_last());
            }
        }
        i = i + 1;
    }
    assert(s@.take(s@.len() as int) =~= s@);
    let ghost parts = split_on(s@, '/');
    apply_part(&mut stack, cur);
    proof {
        crate::text::lemma_split_on_len(s@, '/');
        assert(parts =~= parts.drop_last().push(parts.last()));
        assert(normalize_stack(parts) == normalize_step(normalize_stack(parts.drop_last()), parts.last()));
    }
    let ghost st = vv(stack@);
    let mut out: Vec<char> = Vec::new();
    let mut k: usize = 0;
    while k < stack.len()
        invariant
            k <= stack@.len(),
            st == vv(stack@),
            out@ == join_slash(st.take(k as int)),
        decreases stack.len() - k,
    {
        proof {
            assert(st.take(k + 1).drop_last() =~= st.take(k as int));
        }
        if k > 0 {
            out.push('/');
        } else {
            assert(st.take(1)[0] == st[0]);
        }
        push_all(&mut out, stack[k].as_slice());
        k = k + 1;
    }
    assert(st.take(stack@.len() as int) =~= st);
    string_of(out.as_slice())
}

} // verus!

verus! {

/// `line` without a trailing LF or CRLF.
pub open spec fn spec_trim_newline_suffix(line: Seq<char>) -> Seq<char> {
    if line.len() > 0 && line.last() == '\n' {
        let l = line.drop_last();
        if l.len() > 0 && l.last() == '\r' {
            l.drop_last()
        } else {
            l
        }
    } else {
        line
    }
}

/// Removes trailing LF or CRLF from a string.
pub fn trim_newline_suffix(line: &str) -> (r: &str)
    ensures
        r@ == spec_trim_newline_suffix(line@),
{
    let n = line.unicode_len();
    if n > 0 && line.get_char(n - 1) == '\n' {
        if n > 1 && line.get_char(n - 2) == '\r' {
            line.substring_char(0, n - 2)
        } else {
            line.substring_char(0, n - 1)
        }
    } else {
        line
    }
}

/// `s` without a trailing CRLF, else without a trailing LF.
pub open spec fn spec_trim_bytes_newline_suffix(s: Seq<u8>) -> Seq<u8> {
    let n = s.len();
    if n >= 2 && s[n - 2] == 13u8 && s[n - 1] == 10u8 {
        s.take(n - 2)
    } else if n >= 1 && s[n - 1] == 10u8 {
        s.take(n - 1)
    } else {
        s
    }
}

/// Removes trailing LF or CRLF from a byte string.
pub fn trim_bytes_newline_suffix(s: &[u8]) -> (r: &[u8])
    ensures
        r@ == spec_trim_bytes_newline_suffix(s@),
{
    let n = s.len();
    if n >= 2 && s[n - 2] == 13u8 && s[n - 1] == 10u8 {
        vstd::slice::slice_subrange(s, 0, n - 2)
    } else if n >= 1 && s[n - 1] == 10u8 {
        vstd::slice::slice_subrange(s, 0, n - 1)
    } else {
        s
    }
}

/// `string` without `suffix` at its end, if it ends with it.
pub open spec fn spec_strip_suffix(string: Seq<char>, suffix: Seq<char>) -> Seq<char> {
    if has_suffix(string, suffix) {
        string.take(string.len() - suffix.len())
    } else {
        string
    }
}

pub fn strip_suffix<'a>(string: &'a str, suffix: &str) -> (r: &'a str)
    ensures
        r@ == spec_strip_suffix(string@, suffix@),
{
    let s = chars_of(string);
    let x = chars_of(suffix);
    if crate::text::ends_with(&s, &x) {
        string.substring_char(0, s.len() - x.len())
    } else {
        string
    }
}

/// `s` without all its trailing `\n`.
pub open spec fn trim_end_newlines(s: Seq<char>) -> Seq<char>
    decreases s.len(),
{
    if s.len() > 0 && s.last() == '\n' {
        trim_end_newlines(s.drop_last())
    } else {
        s
    }
}

/// `s` has an empty line, i.e. contains `\n\n`.
pub open spec fn has_blank_line(s: Seq<char>) -> bool {
    exists|j: int| 0 <= j < s.len() - 1 && blank_at(s, j)
}

/// The message with exactly one final `\n`, an empty line after a lone
/// subject line, and the line `^-- SUBDIR HASH` appended.
pub open spec fn spec_annotate_message(message: Seq<char>, subdir: Seq<char>, hash: Seq<char>) -> Seq<char> {
    let res = trim_end_newlines(message).push('\n');
    let res = if has_blank_line(res) {
        res
    } else {
        res.push('\n')
    };
    res + "^-- "@ + subdir + " "@ + hash.push('\n')
}

fn has_blank_line_exec(s: &[char]) -> (r: bool)
    ensures
        r == has_blank_line(s@),
{
    let mut j: usize = 0;
    while j < s.len() && s.len() - j > 1
        invariant
            j <= s@.len(),
            forall|k: int| 0 <= k < j ==> !blank_at(s@, k),
        decreases s.len() - j,
    {
        if s[j] == '\n' && s[j + 1] == '\n' {
            assert(blank_at(s@, j as int));
            return true;
        }
        j = j + 1;
    }
    false
}

/// Appends `^-- SUBDIR HASH` to a commit message, which names the original
/// commit of a submodule.
pub fn annotate_message(message: &str, subdir: &str, orig_commit_hash: &str) -> (r: String)
    ensures
        r@ == spec_annotate_message(message@, subdir@, orig_commit_hash@),
{
    let mut res = chars_of(message);
    while res.len() > 0 && res[res.len() - 1] == '\n'
        invariant
            trim_end_newlines(res@) == trim_end_newlines(message@),
        decreases res.len(),
    {
        res.pop();
    }
    res.push('\n');
    if !has_blank_line_exec(&res) {
        res.push('\n');
    }
    let a = chars_of("^-- ");
    push_all(&mut res, &a);
    let d = chars_of(subdir);
    push_all(&mut res, &d);
    let sp = chars_of(" ");
    push_all(&mut res, &sp);
    let h = chars_of(orig_commit_hash);
    push_all(&mut res, &h);
    res.push('\n');
    string_of(&res)
}

/// Owned copies of the strings.
pub fn iter_to_string(items: &[&str]) -> (r: Vec<String>)
    ensures
        r@.len() == items@.len(),
        forall|i: int| 0 <= i < items@.len() ==> (#[trigger] r@[i])@ == items@[i]@,
{
    let mut r: Vec<String> = Vec::new();
    let mut i: usize = 0;
    while i < items.len()
        invariant
            i <= items@.len(),
            r@.len() == i,
            forall|j: int| 0 <= j < i ==> (#[trigger] r@[j])@ == items@[j]@,
        decreases items.len() - i,
    {
        r.push(items[i].to_owned());
        i = i + 1;
    }
    r
}

} // verus!

verus! {

/// Index of the last occurrence of `c` in `s`.
pub open spec fn last_index_of(s: Seq<char>, c: char) -> Option<int>
    decreases s.len(),
{
    if s.len() == 0 {
        None
    } else if s.last() == c {
        Some(s.len() - 1)
    } else {
        last_index_of(s.drop_last(), c)
    }
}

/// One progress line: a line ended by CR erases the unfinished last line of
/// the permanent text, other lines are kept; the status shown is the line
/// without its CR or LF.
pub open spec fn progress_step(acc: (Seq<char>, Seq<Seq<char>>), line: Seq<char>) -> (
    Seq<char>,
    Seq<Seq<char>>,
) {
    let (perm, statuses) = acc;
    if line.len() > 0 && line.last() == '\r' {
        let perm2 = match last_index_of(perm, '\n') {
            Some(i) => perm.take(i + 1),
            None => Seq::empty(),
        };
        (perm2, statuses.push(line.drop_last()))
    } else {
        let status = if line.len() > 0 && line.last() == '\n' {
            line.drop_last()
        } else {
            line
        };
        (perm + line, statuses.push(status))
    }
}

pub open spec fn progress_fold(lines: Seq<Seq<char>>) -> (Seq<char>, Seq<Seq<char>>)
    decreases lines.len(),
{
    if lines.len() == 0 {
        (Seq::empty(), Seq::empty())
    } else {
        progress_step(progress_fold(lines.drop_last()), lines.last())
    }
}

pub proof fn lemma_last_index_of(s: Seq<char>, c: char)
    ensures
        last_index_of(s, c) matches Some(i) ==> 0 <= i < s.len(),
    decreases s.len(),
{
    if s.len() > 0 && s.last() != c {
        lemma_last_index_of(s.drop_last(), c);
    }
}

fn last_index_of_exec(s: &Vec<char>, c: char) -> (r: Option<usize>)
    ensures
        match r {
            Some(i) => last_index_of(s@, c) == Some(i as int) && i < s@.len(),
            None => last_index_of(s@, c) is None,
        },
{
    let mut n = s.len();
    assert(s@.take(n as int) =~= s@);
    while n > 0 && s[n - 1] != c
        invariant
            n <= s@.len(),
            last_index_of(s@.take(n as int), c) == last_index_of(s@, c),
        decreases n,
    {
        proof {
            assert(s@.take(n as int).drop_last() =~= s@.take(n - 1));
        }
        n = n - 1;
    }
    if n == 0 {
        assert(s@.take(0).len() == 0);
        None
    } else {
        assert(s@.take(n as int).last() == c);
        Some(n - 1)
    }
}

/// Reads for example the stderr lines of a process, with CR or LF still at
/// their ends. Returns the status line to show for each line, with CR or LF
/// stripped, and all text that was not erased with CR.
pub fn read_stderr_progress_status(lines: Vec<String>) -> (r: (Vec<String>, String))
    ensures
        (r.1@, strings_view(r.0@)) == progress_fold(strings_view(lines@)),
{
    let ghost lv = strings_view(lines@);
    let mut perm: Vec<char> = Vec::new();
    let mut statuses: Vec<String> = Vec::new();
    let mut i: usize = 0;
    while i < lines.len()
        invariant
            i <= lines@.len(),
            lv == strings_view(lines@),
            (perm@, strings_view(statuses@)) == progress_fold(lv.take(i as int)),
        decreases lines.len() - i,
    {
        proof {
            assert(lv.take(i + 1).drop_last() =~= lv.take(i as int));
            assert(lv.take(i + 1).last() == lines@[i as int]@);
        }
        let mut line = chars_of(lines[i].as_str());
        let ghost lb = line@;
        let ghost sb = strings_view(statuses@);
        if line.len() > 0 && line[line.len() - 1] == '\r' {
            let ghost pb = perm@;
            match last_index_of_exec(&perm, '\n') {
                Some(eol) => {
                    let plen = perm.len();
                    assert(eol < plen);
                    perm.truncate(eol + 1);
                    assert(perm@ =~= pb.take(eol + 1));
                },
                None => {
                    perm.clear();
                    assert(perm@ =~= Seq::<char>::empty());
                },
            }
            line.pop();
        } else {
            push_all(&mut perm, &line);
            if line.len() > 0 && line[line.len() - 1] == '\n' {
                line.pop();
            }
        }
        let st = string_of(&line);
        statuses.push(st);
        proof {
            let acc = progress_fold(lv.take(i as int));
            assert(strings_view(statuses@) =~= sb.push(line@));
            assert(line@ == (if lb.len() > 0 && lb.last() == '\r' {
                lb.drop_last()
            } else if lb.len() > 0 && lb.last() == '\n' {
                lb.drop_last()
            } else {
                lb
            }));
        }
        i = i + 1;
    }
    assert(lv.take(lines@.len() as int) =~= lv);
    (statuses, string_of(&perm))
}

/// What one read step gives back.
pub enum LineRead {
    /// A line, the bytes of which were consumed from the input given.
    Line { consumed: usize, line: String },
    /// No line ending yet: all bytes given were consumed, give more.
    NeedMore { consumed: usize },
    /// End of input and nothing buffered.
    End,
}

/// Splits a byte stream into lines ended by CR or LF, with the line ending
/// kept, decoding each line lossily as UTF-8. The caller feeds the bytes
/// available from its reader, an empty slice at the end of the input.
pub struct ReadLossyCrOrLfLines {
    pub buf: Vec<u8>,
}

/// Index of the first CR or LF.
pub open spec fn first_line_end(b: Seq<u8>) -> Option<int>
    decreases b.len(),
{
    if b.len() == 0 {
        None
    } else if b[0] == 13u8 || b[0] == 10u8 {
        Some(0)
    } else {
        match first_line_end(b.drop_first()) {
            Some(i) => Some(i + 1),
            None => None,
        }
    }
}

impl ReadLossyCrOrLfLines {
    pub fn new() -> (r: Self)
        ensures
            r.buf@.len() == 0,
    {
        ReadLossyCrOrLfLines { buf: Vec::new() }
    }

    /// Feeds the next bytes of the input; an empty slice marks its end.
    pub fn next_line(&mut self, bytes: &[u8]) -> (r: LineRead)
        ensures
            bytes@.len() == 0 && old(self).buf@.len() == 0 ==> r is End && final(self).buf@
                == old(self).buf@,
            bytes@.len() == 0 && old(self).buf@.len() > 0 ==> (r matches LineRead::Line {
                consumed,
                line,
            } && consumed == 0 && line@ == utf8_lossy(old(self).buf@) && final(self).buf@.len()
                == 0),
            bytes@.len() > 0 ==> match first_line_end(bytes@) {
                Some(idx) => (r matches LineRead::Line { consumed, line } && consumed == idx + 1
                    && line@ == utf8_lossy(old(self).buf@ + bytes@.take(idx + 1))
                    && final(self).buf@.len() == 0),
                None => (r matches LineRead::NeedMore { consumed } && consumed == bytes@.len()
                    && final(self).buf@ == old(self).buf@ + bytes@),
            },
    {
        if bytes.len() == 0 {
            if self.buf.len() == 0 {
                return LineRead::End;
            }
            let line = from_utf8_lossy(self.buf.as_slice());
            self.buf = Vec::new();
            return LineRead::Line { consumed: 0, line };
        }
        let mut i: usize = 0;
        assert(bytes@.skip(0) =~= bytes@);
        while i < bytes.len() && bytes[i] != 13u8 && bytes[i] != 10u8
            invariant
                i <= bytes@.len(),
                first_line_end(bytes@) == (match first_line_end(bytes@.skip(i as int)) {
                    Some(j) => Some(j + i),
                    None => None::<int>,
                }),
            decreases bytes.len() - i,
        {
            assert(bytes@.skip(i as int).drop_first() =~= bytes@.skip(i + 1));
            i = i + 1;
        }
        let ghost b0 = self.buf@;
        let mut k: usize = 0;
        let end = if i < bytes.len() {
            i + 1
        } else {
            i
        };
        while k < end
            invariant
                k <= end <= bytes@.len(),
                self.buf@ == b0 + bytes@.take(k as int),
            decreases end - k,
        {
            self.buf.push(bytes[k]);
            assert(bytes@.take(k + 1) =~= bytes@.take(k as int).push(bytes@[k as int]));
            k = k + 1;
        }
        if i < bytes.len() {
            assert(first_line_end(bytes@.skip(i as int)) == Some(0int));
            let line = from_utf8_lossy(self.buf.as_slice());
            self.buf = Vec::new();
            LineRead::Line { consumed: i + 1, line }
        } else {
            assert(bytes@.skip(i as int).len() == 0);
            assert(bytes@.take(i as int) =~= bytes@);
            LineRead::NeedMore { consumed: i }
        }
    }
}

/// Whether the value equals the type's default value, as `serde`'s
/// `skip_serializing_if` wants it.
pub fn is_default<T: Default + PartialEq>(t: &T) -> (r: bool)
    ensures
        exists|d: T| #[trigger] call_ensures(T::default, (), d) && (T::obeys_eq_spec() ==> r == t.eq_spec(&d)),
{
    let d = T::default();
    let r = *t == d;
    assert(call_ensures(T::default, (), d) && (T::obeys_eq_spec() ==> r == t.eq_spec(&d)));
    r
}


/// A part that normalization keeps: not empty, not `.` or `..`, and without
/// `/`.
pub open spec fn kept_part(p: Seq<char>) -> bool {
    p.len() > 0 && p != seq!['.'] && p != seq!['.', '.'] && !p.contains('/')
}

pub proof fn lemma_split_on_concat(x: Seq<char>, y: Seq<char>, sep: char)
    ensures
        split_on(x + seq![sep] + y, sep) == split_on(x, sep) + split_on(y, sep),
    decreases y.len(),
{
    let z = x + seq![sep] + y;
    if y.len() == 0 {
        assert(z.drop_last() =~= x);
        assert(split_on(y, sep) =~= seq![Seq::<char>::empty()]);
        assert(split_on(x, sep).push(Seq::empty()) =~= split_on(x, sep) + split_on(y, sep));
    } else {
        assert(z.drop_last() =~= x + seq![sep] + y.drop_last());
        lemma_split_on_concat(x, y.drop_last(), sep);
        lemma_split_on_len(y.drop_last(), sep);
        let a = split_on(x, sep);
        let b = split_on(y.drop_last(), sep);
        assert(z.last() == y.last());
        if y.last() == sep {
            assert((a + b).push(Seq::empty()) =~= a + b.push(Seq::empty()));
        } else {
            assert((a + b).update((a + b).len() - 1, (a + b).last().push(y.last())) =~= a + b.update(
                b.len() - 1,
                b.last().push(y.last()),
            ));
        }
    }
}

pub proof fn lemma_split_on_none(y: Seq<char>, sep: char)
    requires
        !y.contains(sep),
    ensures
        split_on(y, sep) == seq![y],
    decreases y.len(),
{
    if y.len() > 0 {
        assert(!y.drop_last().contains(sep)) by {
            if y.drop_last().contains(sep) {
                let k = choose|k: int| 0 <= k < y.drop_last().len() && y.drop_last()[k] == sep;
                assert(y[k] == sep);
            }
        };
        lemma_split_on_none(y.drop_last(), sep);
        assert(y.last() != sep) by {
            if y.last() == sep {
                assert(y[y.len() - 1] == sep);
            }
        };
        assert(y.drop_last().push(y.last()) =~= y);
        assert(seq![y.drop_last()].update(0, y.drop_last().push(y.last())) =~= seq![y]);
    } else {
        assert(y =~= Seq::<char>::empty());
    }
}

/// Parts without `/`, joined by `/`, split back into the same parts.
proof fn lemma_split_join(parts: Seq<Seq<char>>)
    requires
        parts.len() >= 1,
        forall|i: int| 0 <= i < parts.len() ==> !(#[trigger] parts[i]).contains('/'),
    ensures
        split_on(join_slash(parts), '/') == parts,
    decreases parts.len(),
{
    if parts.len() == 1 {
        lemma_split_on_none(parts[0], '/');
        assert(seq![parts[0]] =~= parts);
    } else {
        let init = parts.drop_last();
        assert forall|i: int| 0 <= i < init.len() implies !(#[trigger] init[i]).contains('/') by {
            assert(init[i] == parts[i]);
        };
        lemma_split_join(init);
        assert(!parts[parts.len() - 1].contains('/'));
        lemma_split_on_none(parts.last(), '/');
        assert(join_slash(init).push('/') + parts.last() =~= join_slash(init) + seq!['/']
            + parts.last());
        lemma_split_on_concat(join_slash(init), parts.last(), '/');
        assert(init + seq![parts.last()] =~= parts);
    }
}

/// The parts of a split have no separator.
proof fn lemma_split_on_parts(s: Seq<char>, sep: char)
    ensures
        forall|i: int| 0 <= i < split_on(s, sep).len() ==> !(#[trigger] split_on(s, sep)[i]).contains(sep),
    decreases s.len(),
{
    if s.len() > 0 {
        lemma_split_on_parts(s.drop_last(), sep);
        lemma_split_on_len(s.drop_last(), sep);
        let parts = split_on(s.drop_last(), sep);
        if s.last() != sep {
            let l = parts.last().push(s.last());
            assert(!l.contains(sep)) by {
                if l.contains(sep) {
                    let k = choose|k: int| 0 <= k < l.len() && l[k] == sep;
                    if k < l.len() - 1 {
                        assert(parts.last()[k] == sep);
                        assert(parts[parts.len() - 1].contains(sep));
                    }
                }
            };
            assert forall|i: int| 0 <= i < split_on(s, sep).len() implies !(#[trigger] split_on(s, sep)[i]).contains(sep) by {
                if i < parts.len() - 1 {
                    assert(split_on(s, sep)[i] == parts[i]);
                }
            };
        } else {
            assert forall|i: int| 0 <= i < split_on(s, sep).len() implies !(#[trigger] split_on(s, sep)[i]).contains(sep) by {
                if i < parts.len() {
                    assert(split_on(s, sep)[i] == parts[i]);
                } else {
                    assert(split_on(s, sep)[i] =~= Seq::<char>::empty());
                }
            };
        }
    }
}

/// Normalization keeps only parts it keeps, from parts without `/`.
proof fn lemma_normalize_stack_kept(parts: Seq<Seq<char>>)
    requires
        forall|i: int| 0 <= i < parts.len() ==> !(#[trigger] parts[i]).contains('/'),
    ensures
        forall|i: int| 0 <= i < normalize_stack(parts).len() ==> kept_part(#[trigger] normalize_stack(parts)[i]),
    decreases parts.len(),
{
    if parts.len() > 0 {
        let init = parts.drop_last();
        assert forall|i: int| 0 <= i < init.len() implies !(#[trigger] init[i]).contains('/') by {
            assert(init[i] == parts[i]);
        };
        lemma_normalize_stack_kept(init);
        assert(!parts[parts.len() - 1].contains('/'));
        let st = normalize_stack(init);
        let r = normalize_stack(parts);
        assert forall|i: int| 0 <= i < r.len() implies kept_part(#[trigger] r[i]) by {
            if i < st.len() {
                assert(r[i] == st[i]);
            }
        };
    }
}

/// Parts that normalization keeps are kept as they are.
proof fn lemma_normalize_stack_of_kept(parts: Seq<Seq<char>>)
    requires
        forall|i: int| 0 <= i < parts.len() ==> kept_part(#[trigger] parts[i]),
    ensures
        normalize_stack(parts) == parts,
    decreases parts.len(),
{
    if parts.len() > 0 {
        let init = parts.drop_last();
        assert forall|i: int| 0 <= i < init.len() implies kept_part(#[trigger] init[i]) by {
            assert(init[i] == parts[i]);
        };
        lemma_normalize_stack_of_kept(init);
        assert(kept_part(parts[parts.len() - 1]));
        assert(init.push(parts.last()) =~= parts);
    }
}

/// Normalizing a normalized path changes nothing, and a normalized path is
/// empty or made of parts that are neither empty, `.` nor `..`.
pub proof fn law_normalize_idempotent(p: Seq<char>)
    ensures
        spec_normalize(spec_normalize(p)) == spec_normalize(p),
        spec_normalize(p).len() > 0 ==> forall|i: int|
            0 <= i < split_on(spec_normalize(p), '/').len() ==> kept_part(
                #[trigger] split_on(spec_normalize(p), '/')[i],
            ),
{
    let parts = split_on(p, '/');
    lemma_split_on_parts(p, '/');
    lemma_normalize_stack_kept(parts);
    let st = normalize_stack(parts);
    if st.len() == 0 {
        assert(spec_normalize(p) =~= Seq::<char>::empty());
        assert(split_on(Seq::<char>::empty(), '/') =~= seq![Seq::<char>::empty()]);
        let e = seq![Seq::<char>::empty()];
        assert(e.drop_last() =~= Seq::<Seq<char>>::empty());
        assert(normalize_stack(e.drop_last()) =~= Seq::<Seq<char>>::empty());
        assert(e.last().len() == 0);
        assert(normalize_stack(e) =~= Seq::<Seq<char>>::empty());
    } else {
        assert forall|i: int| 0 <= i < st.len() implies !(#[trigger] st[i]).contains('/') by {
            assert(kept_part(st[i]));
        };
        lemma_split_join(st);
        lemma_normalize_stack_of_kept(st);
    }
}

} // verus!
