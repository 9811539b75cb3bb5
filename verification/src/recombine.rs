//! What recombining the top repository's references into monorepo
//! references decides: the monorepo name of each top reference, which
//! references are expanded, and the log of the monorepo references that
//! git-toprepo may remove.
use crate::fast_export::is_valid_ref_name;
use crate::fast_export::valid_ref_name;
use crate::git::bytes_eq;
use crate::git::bytes_start_with;
use crate::refs::MonoRefUpdateAction;
use crate::refs::RefTarget;
use crate::git::bytes_to_vec;
use crate::git::sub_bytes;
use crate::order::byte_strings_view;
use crate::order::insert_sorted_unique;
use crate::order::strictly_sorted;
use crate::text::chars_eq;
use crate::text::chars_of;
use crate::text::first_index;
use crate::text::from_utf8_lossy;
use crate::text::has_prefix;
use crate::text::lemma_first_index;
use crate::text::lemma_first_index_some;
use crate::text::push_all;
use crate::text::string_of;
use crate::text::utf8_lossy;
use vstd::prelude::*;

verus! {

/// Why a reference name has no name under a prefix.
#[derive(Debug, Clone, Copy, PartialEq, Eq)]
pub enum StripRefPrefixError {
    /// The name does not start with the prefix.
    NotPrefixed,
    /// What follows the prefix is no valid reference name.
    InvalidName,
}

/// The reference name after `prefix`, which must be a valid full name.
pub open spec fn spec_strip_ref_prefix(name: Seq<u8>, prefix: Seq<u8>) -> Result<
    Seq<u8>,
    StripRefPrefixError,
> {
    if !has_prefix(name, prefix) {
        Err(StripRefPrefixError::NotPrefixed)
    } else if !is_valid_ref_name(name.skip(prefix.len() as int)) {
        Err(StripRefPrefixError::InvalidName)
    } else {
        Ok(name.skip(prefix.len() as int))
    }
}

/// Strips `prefix` off the reference name `name`; what is left must be a
/// valid full reference name.
pub fn strip_ref_prefix(name: &[u8], prefix: &[u8]) -> (r: Result<Vec<u8>, StripRefPrefixError>)
    ensures
        match spec_strip_ref_prefix(name@, prefix@) {
            Ok(n) => r matches Ok(x) && x@ == n,
            Err(e) => r == Err::<Vec<u8>, StripRefPrefixError>(e),
        },
{
    if !bytes_start_with(name, prefix) {
        return Err(StripRefPrefixError::NotPrefixed);
    }
    let rest = sub_bytes(name, prefix.len(), name.len());
    assert(rest@ =~= name@.skip(prefix@.len() as int));
    if !valid_ref_name(rest.as_slice()) {
        return Err(StripRefPrefixError::InvalidName);
    }
    Ok(rest)
}

/// The message of a name that does not start with the prefix.
pub open spec fn not_prefixed_text(name: Seq<u8>, prefix: Seq<u8>) -> Seq<char> {
    "Expected "@ + utf8_lossy(name) + " to start with "@ + utf8_lossy(prefix)
}

/// The message for a reference name `name` that does not start with
/// `prefix`.
pub fn not_prefixed_message(name: &[u8], prefix: &[u8]) -> (r: String)
    ensures
        r@ == not_prefixed_text(name@, prefix@),
{
    let mut t = chars_of("Expected ");
    push_all(&mut t, &chars_of(from_utf8_lossy(name).as_str()));
    push_all(&mut t, &chars_of(" to start with "));
    push_all(&mut t, &chars_of(from_utf8_lossy(prefix).as_str()));
    string_of(&t)
}

/// `refs/namespaces/top/`, where the top repository's references are kept.
pub open spec fn top_ref_prefix() -> Seq<u8> {
    "refs/namespaces/top/"@.map_values(|c: char| c as u8)
}

fn top_ref_prefix_bytes() -> (r: Vec<u8>)
    ensures
        r@ == top_ref_prefix(),
{
    let r: Vec<u8> = vec![
        114u8, 101, 102, 115, 47, 110, 97, 109, 101, 115, 112, 97, 99, 101, 115, 47, 116, 111,
        112, 47,
    ];
    proof {
        reveal_strlit("refs/namespaces/top/");
    }
    assert(r@ =~= top_ref_prefix());
    r
}

/// The kind of an object.
#[derive(Debug, Clone, Copy, PartialEq, Eq)]
pub enum ObjectKind {
    Commit,
    Tree,
    Blob,
    Tag,
}

/// What a reference of the top repository points at.
#[derive(Debug, PartialEq, Eq)]
pub enum TopRefTarget {
    /// Another reference, by its full name.
    Symbolic(Vec<u8>),
    /// An object of the kind; for a tag, also the kind of the object that the
    /// chain of tags ends at.
    Object { kind: ObjectKind, peeled: ObjectKind },
}

/// What recombining does with a reference of the top repository.
#[derive(Debug, PartialEq, Eq)]
pub enum TopRefPlan {
    /// Leave it out, with this warning.
    Skip(String),
    /// Point the monorepo reference `name` at the monorepo reference
    /// `target`.
    Symbolic { name: Vec<u8>, target: Vec<u8> },
    /// Point the monorepo reference `name` at the expansion of the commit.
    CommitTip { name: Vec<u8> },
    /// Write monorepo copies of the chain of tags and point `name` at them.
    AnnotatedTag { name: Vec<u8> },
}

pub enum TopRefPlanView {
    Skip(Seq<char>),
    Symbolic { name: Seq<u8>, target: Seq<u8> },
    CommitTip { name: Seq<u8> },
    AnnotatedTag { name: Seq<u8> },
}

pub open spec fn plan_view(p: TopRefPlan) -> TopRefPlanView {
    match p {
        TopRefPlan::Skip(w) => TopRefPlanView::Skip(w@),
        TopRefPlan::Symbolic { name, target } => TopRefPlanView::Symbolic {
            name: name@,
            target: target@,
        },
        TopRefPlan::CommitTip { name } => TopRefPlanView::CommitTip { name: name@ },
        TopRefPlan::AnnotatedTag { name } => TopRefPlanView::AnnotatedTag { name: name@ },
    }
}

/// The target kinds that cannot be expanded, in the warning's words.
pub open spec fn kind_word(k: ObjectKind) -> Seq<char> {
    match k {
        ObjectKind::Tree => "tree"@,
        ObjectKind::Blob => "blob"@,
        ObjectKind::Commit => "commit"@,
        ObjectKind::Tag => "tag"@,
    }
}

/// What recombining does with the top reference `name`: symbolic references
/// that point inside the top repository, commits and tags of commits are
/// taken over under the name without the top prefix; the rest is skipped with
/// a warning. `None` when the name has no monorepo name.
pub open spec fn spec_plan_top_ref(name: Seq<u8>, target: TopRefTarget) -> Option<TopRefPlanView> {
    match spec_strip_ref_prefix(name, top_ref_prefix()) {
        Err(_) => None,
        Ok(mono) => Some(
            match target {
                TopRefTarget::Symbolic(t) => match spec_strip_ref_prefix(t@, top_ref_prefix()) {
                    Ok(mt) => TopRefPlanView::Symbolic { name: mono, target: mt },
                    Err(_) => TopRefPlanView::Skip(
                        "Skipping symbolic ref "@ + utf8_lossy(name)
                            + " that points outside the top repo, to "@ + utf8_lossy(t@),
                    ),
                },
                TopRefTarget::Object { kind, peeled } => match kind {
                    ObjectKind::Commit => TopRefPlanView::CommitTip { name: mono },
                    ObjectKind::Tag => match peeled {
                        ObjectKind::Commit => TopRefPlanView::AnnotatedTag { name: mono },
                        _ => TopRefPlanView::Skip(
                            "Skipping tag "@ + utf8_lossy(name) + " that (ultimately) points to a "@
                                + kind_word(peeled),
                        ),
                    },
                    _ => TopRefPlanView::Skip(
                        "Skipping ref "@ + utf8_lossy(name) + " that points to a "@ + kind_word(
                            kind,
                        ),
                    ),
                },
            },
        ),
    }
}

fn kind_word_exec(k: ObjectKind) -> (r: Vec<char>)
    ensures
        r@ == kind_word(k),
{
    match k {
        ObjectKind::Tree => chars_of("tree"),
        ObjectKind::Blob => chars_of("blob"),
        ObjectKind::Commit => chars_of("commit"),
        ObjectKind::Tag => chars_of("tag"),
    }
}

/// Decides what recombining does with the top reference `name`; `None` when
/// the name is not a top reference with a valid monorepo name. A tag target
/// is given with the kind of the object its chain of tags ends at.
pub fn plan_top_ref(name: &[u8], target: &TopRefTarget) -> (r: Option<TopRefPlan>)
    requires
        target matches TopRefTarget::Object { kind, peeled } ==> (kind == ObjectKind::Tag
            ==> peeled != ObjectKind::Tag),
    ensures
        match spec_plan_top_ref(name@, *target) {
            None => r is None,
            Some(p) => r matches Some(x) && plan_view(x) == p,
        },
{
    let prefix = top_ref_prefix_bytes();
    let mono = match strip_ref_prefix(name, prefix.as_slice()) {
        Ok(m) => m,
        Err(_) => {
            return None;
        },
    };
    let plan = match target {
        TopRefTarget::Symbolic(t) => match strip_ref_prefix(t.as_slice(), prefix.as_slice()) {
            Ok(mt) => TopRefPlan::Symbolic { name: mono, target: mt },
            Err(_) => {
                let mut w = chars_of("Skipping symbolic ref ");
                push_all(&mut w, &chars_of(from_utf8_lossy(name).as_str()));
                push_all(&mut w, &chars_of(" that points outside the top repo, to "));
                push_all(&mut w, &chars_of(from_utf8_lossy(t.as_slice()).as_str()));
                TopRefPlan::Skip(string_of(&w))
            },
        },
        TopRefTarget::Object { kind, peeled } => match kind {
            ObjectKind::Commit => TopRefPlan::CommitTip { name: mono },
            ObjectKind::Tag => match peeled {
                ObjectKind::Commit => TopRefPlan::AnnotatedTag { name: mono },
                _ => {
                    let mut w = chars_of("Skipping tag ");
                    push_all(&mut w, &chars_of(from_utf8_lossy(name).as_str()));
                    push_all(&mut w, &chars_of(" that (ultimately) points to a "));
                    push_all(&mut w, &kind_word_exec(*peeled));
                    TopRefPlan::Skip(string_of(&w))
                },
            },
            _ => {
                let mut w = chars_of("Skipping ref ");
                push_all(&mut w, &chars_of(from_utf8_lossy(name).as_str()));
                push_all(&mut w, &chars_of(" that points to a "));
                push_all(&mut w, &kind_word_exec(*kind));
                TopRefPlan::Skip(string_of(&w))
            },
        },
    };
    Some(plan)
}

/// The lines of a text, without their `\n` or `\r\n` endings; text after
/// the last line ending is a last line.
pub open spec fn byte_lines(b: Seq<u8>) -> Seq<Seq<u8>>
    decreases b.len(),
{
    if b.len() == 0 {
        Seq::empty()
    } else {
        match first_index(b, 10u8) {
            None => seq![b],
            Some(i) => {
                let line = b.take(i);
                let line = if line.len() > 0 && line.last() == 13u8 {
                    line.drop_last()
                } else {
                    line
                };
                if 0 <= i < b.len() {
                    seq![line] + byte_lines(b.skip(i + 1))
                } else {
                    Seq::empty()
                }
            },
        }
    }
}

/// The log of monorepo references: one full reference name per line. The
/// first line that is no valid reference name makes it bad.
pub open spec fn spec_parse_refs_log(b: Seq<u8>) -> Result<Seq<Seq<u8>>, Seq<u8>> {
    let lines = byte_lines(b);
    if forall|i: int| 0 <= i < lines.len() ==> is_valid_ref_name(#[trigger] lines[i]) {
        Ok(lines)
    } else {
        Err(lines[first_invalid(lines)])
    }
}

/// The index of the first line that is no valid reference name.
pub open spec fn first_invalid(lines: Seq<Seq<u8>>) -> int
    decreases lines.len(),
{
    if lines.len() == 0 {
        0
    } else if !is_valid_ref_name(lines[0]) {
        0
    } else {
        1 + first_invalid(lines.drop_first())
    }
}

proof fn lemma_first_invalid(lines: Seq<Seq<u8>>, k: int)
    requires
        0 <= k < lines.len(),
        !is_valid_ref_name(lines[k]),
        forall|i: int| 0 <= i < k ==> is_valid_ref_name(#[trigger] lines[i]),
    ensures
        first_invalid(lines) == k,
    decreases k,
{
    if k > 0 {
        assert(is_valid_ref_name(lines[0]));
        assert forall|i: int| 0 <= i < k - 1 implies is_valid_ref_name(
            #[trigger] lines.drop_first()[i],
        ) by {
            assert(lines.drop_first()[i] == lines[i + 1]);
        };
        lemma_first_invalid(lines.drop_first(), k - 1);
    }
}

/// Splits the log into lines.
fn split_lines(b: &[u8]) -> (r: Vec<Vec<u8>>)
    ensures
        byte_strings_view(r@) == byte_lines(b@),
{
    let mut r: Vec<Vec<u8>> = Vec::new();
    let mut pos: usize = 0;
    assert(b@.skip(0) =~= b@);
    while pos < b.len()
        invariant
            pos <= b@.len(),
            byte_lines(b@) == byte_strings_view(r@) + byte_lines(b@.skip(pos as int)),
        decreases b.len() - pos,
    {
        let ghost rest = b@.skip(pos as int);
        proof {
            lemma_first_index_some(rest, 10u8);
        }
        let mut end = pos;
        while end < b.len() && b[end] != 10u8
            invariant
                pos <= end <= b@.len(),
                rest == b@.skip(pos as int),
                forall|j: int| 0 <= j < end - pos ==> rest[j] != 10u8,
            decreases b.len() - end,
        {
            end = end + 1;
        }
        let ghost r0 = byte_strings_view(r@);
        if end == b.len() {
            proof {
                lemma_first_index(rest, 10u8, rest.len() as int);
            }
            let line = sub_bytes(b, pos, end);
            assert(line@ =~= rest);
            r.push(line);
            assert(byte_strings_view(r@) =~= r0.push(rest));
            assert(b@.skip(b@.len() as int) =~= Seq::<u8>::empty());
            pos = end;
        } else {
            proof {
                lemma_first_index(rest, 10u8, end - pos);
            }
            let line_end = if end > pos && b[end - 1] == 13u8 {
                end - 1
            } else {
                end
            };
            let line = sub_bytes(b, pos, line_end);
            let ghost taken = rest.take(end - pos);
            assert(line@ =~= if taken.len() > 0 && taken.last() == 13u8 {
                taken.drop_last()
            } else {
                taken
            });
            r.push(line);
            assert(byte_strings_view(r@) =~= r0.push(line@));
            assert(rest.skip(end - pos + 1) =~= b@.skip(end + 1));
            assert(byte_lines(rest) == seq![line@] + byte_lines(b@.skip(end + 1)));
            assert(r0 + byte_lines(rest) =~= byte_strings_view(r@) + byte_lines(b@.skip(end + 1)));
            pos = end + 1;
        }
    }
    assert(byte_lines(b@.skip(pos as int)) =~= Seq::<Seq<u8>>::empty());
    assert(byte_strings_view(r@) + Seq::<Seq<u8>>::empty() =~= byte_strings_view(r@));
    r
}

/// Reads the log of monorepo references; a line that is no valid reference
/// name is returned as the error.
pub fn parse_refs_log(b: &[u8]) -> (r: Result<Vec<Vec<u8>>, Vec<u8>>)
    ensures
        match spec_parse_refs_log(b@) {
            Ok(lines) => r matches Ok(x) && byte_strings_view(x@) == lines,
            Err(line) => r matches Err(x) && x@ == line,
        },
{
    let lines = split_lines(b);
    let ghost lv = byte_strings_view(lines@);
    let mut i: usize = 0;
    while i < lines.len()
        invariant
            i <= lines@.len(),
            lv == byte_strings_view(lines@),
            lv == byte_lines(b@),
            forall|k: int| 0 <= k < i ==> is_valid_ref_name(#[trigger] lv[k]),
        decreases lines.len() - i,
    {
        assert(lv[i as int] == lines@[i as int]@);
        if !valid_ref_name(lines[i].as_slice()) {
            proof {
                lemma_first_invalid(lv, i as int);
            }
            return Err(bytes_to_vec(lines[i].as_slice()));
        }
        i = i + 1;
    }
    Ok(lines)
}

/// The text of the log: every name followed by a newline.
pub open spec fn refs_log_text(names: Seq<Seq<u8>>) -> Seq<u8>
    decreases names.len(),
{
    if names.len() == 0 {
        Seq::empty()
    } else {
        refs_log_text(names.drop_last()) + names.last() + seq![10u8]
    }
}

/// Writes the log of monorepo references.
pub fn format_refs_log(names: &[Vec<u8>]) -> (r: Vec<u8>)
    ensures
        r@ == refs_log_text(byte_strings_view(names@)),
{
    let ghost nv = byte_strings_view(names@);
    let mut r: Vec<u8> = Vec::new();
    let mut i: usize = 0;
    while i < names.len()
        invariant
            i <= names@.len(),
            nv == byte_strings_view(names@),
            r@ == refs_log_text(nv.take(i as int)),
        decreases names.len() - i,
    {
        assert(nv.take(i + 1).drop_last() =~= nv.take(i as int));
        assert(nv.take(i + 1).last() == names@[i as int]@);
        let mut j: usize = 0;
        let ghost r0 = r@;
        let n = &names[i];
        while j < n.len()
            invariant
                j <= n@.len(),
                r@ == r0 + n@.take(j as int),
            decreases n.len() - j,
        {
            r.push(n[j]);
            assert(n@.take(j + 1) =~= n@.take(j as int).push(n@[j as int]));
            j = j + 1;
        }
        assert(n@.take(n@.len() as int) =~= n@);
        r.push(10u8);
        i = i + 1;
    }
    assert(nv.take(names@.len() as int) =~= nv);
    r
}

/// The monorepo references that may be removed if recombining fails: the
/// old ones and the new ones, sorted, each once.
pub fn old_and_new_refs(old: &[Vec<u8>], new: &[Vec<u8>]) -> (r: Vec<Vec<u8>>)
    ensures
        strictly_sorted(byte_strings_view(r@)),
        forall|y: Seq<u8>|
            #![trigger byte_strings_view(r@).contains(y)]
            byte_strings_view(r@).contains(y) <==> (byte_strings_view(old@).contains(y)
                || byte_strings_view(new@).contains(y)),
{
    let mut r: Vec<Vec<u8>> = Vec::new();
    let ghost ov = byte_strings_view(old@);
    let ghost nv = byte_strings_view(new@);
    let mut i: usize = 0;
    while i < old.len()
        invariant
            i <= old@.len(),
            ov == byte_strings_view(old@),
            strictly_sorted(byte_strings_view(r@)),
            forall|y: Seq<u8>|
                #![trigger byte_strings_view(r@).contains(y)]
                byte_strings_view(r@).contains(y) <==> ov.take(i as int).contains(y),
        decreases old.len() - i,
    {
        insert_sorted_unique(&mut r, old[i].as_slice());
        assert forall|y: Seq<u8>|
            #![trigger byte_strings_view(r@).contains(y)]
            byte_strings_view(r@).contains(y) <==> ov.take(i + 1).contains(y) by {
            let t1 = ov.take(i + 1);
            let t0 = ov.take(i as int);
            assert(t1 =~= t0.push(ov[i as int]));
            if t1.contains(y) {
                let k = choose|k: int| 0 <= k < t1.len() && #[trigger] t1[k] == y;
                if k < i {
                    assert(t0[k] == y);
                }
            }
            if t0.contains(y) {
                let k = choose|k: int| 0 <= k < t0.len() && #[trigger] t0[k] == y;
                assert(t1[k] == y);
            }
            if y == ov[i as int] {
                assert(t1[i as int] == y);
            }
        };
        i = i + 1;
    }
    assert(ov.take(old@.len() as int) =~= ov);
    let mut j: usize = 0;
    while j < new.len()
        invariant
            j <= new@.len(),
            ov == byte_strings_view(old@),
            nv == byte_strings_view(new@),
            strictly_sorted(byte_strings_view(r@)),
            forall|y: Seq<u8>|
                #![trigger byte_strings_view(r@).contains(y)]
                byte_strings_view(r@).contains(y) <==> (ov.contains(y) || nv.take(j as int).contains(
                    y,
                )),
        decreases new.len() - j,
    {
        insert_sorted_unique(&mut r, new[j].as_slice());
        assert forall|y: Seq<u8>|
            #![trigger byte_strings_view(r@).contains(y)]
            byte_strings_view(r@).contains(y) <==> (ov.contains(y) || nv.take(j + 1).contains(y)) by {
            let t1 = nv.take(j + 1);
            let t0 = nv.take(j as int);
            assert(t1 =~= t0.push(nv[j as int]));
            if t1.contains(y) {
                let k = choose|k: int| 0 <= k < t1.len() && #[trigger] t1[k] == y;
                if k < j {
                    assert(t0[k] == y);
                }
            }
            if t0.contains(y) {
                let k = choose|k: int| 0 <= k < t0.len() && #[trigger] t0[k] == y;
                assert(t1[k] == y);
            }
            if y == nv[j as int] {
                assert(t1[j as int] == y);
            }
        };
        j = j + 1;
    }
    assert(nv.take(new@.len() as int) =~= nv);
    r
}

proof fn lemma_first_index_none(s: Seq<u8>, c: u8)
    ensures
        first_index(s, c) is None ==> forall|j: int| 0 <= j < s.len() ==> s[j] != c,
    decreases s.len(),
{
    if s.len() > 0 && s[0] != c {
        lemma_first_index_none(s.drop_first(), c);
        if first_index(s, c) is None {
            assert forall|j: int| 0 <= j < s.len() implies s[j] != c by {
                if j > 0 {
                    assert(s[j] == s.drop_first()[j - 1]);
                }
            };
        }
    }
}

/// The lines of a text made of complete lines, followed by more text, are
/// its lines followed by the lines of the rest.
proof fn lemma_byte_lines_append(a: Seq<u8>, b: Seq<u8>)
    requires
        a.len() == 0 || a.last() == 10u8,
    ensures
        byte_lines(a + b) == byte_lines(a) + byte_lines(b),
    decreases a.len(),
{
    if a.len() == 0 {
        assert(a + b =~= b);
        assert(byte_lines(a) =~= Seq::<Seq<u8>>::empty());
        assert(byte_lines(a) + byte_lines(b) =~= byte_lines(b));
    } else {
        lemma_first_index_none(a, 10u8);
        lemma_first_index_some(a, 10u8);
        let i = first_index(a, 10u8)->0;
        lemma_first_index(a + b, 10u8, i);
        assert((a + b).take(i) =~= a.take(i));
        assert((a + b).skip(i + 1) =~= a.skip(i + 1) + b);
        lemma_byte_lines_append(a.skip(i + 1), b);
        assert(byte_lines(a + b) =~= byte_lines(a) + byte_lines(b));
    }
}

/// The log text is empty or ends with a newline.
proof fn lemma_refs_log_text_ends(names: Seq<Seq<u8>>)
    ensures
        refs_log_text(names).len() == 0 || refs_log_text(names).last() == 10u8,
{
    if names.len() > 0 {
        let t = refs_log_text(names);
        assert(t.last() == 10u8);
    }
}

/// A name without a newline, and without a carriage return at its end, is
/// read back as one line.
pub open spec fn is_log_line(name: Seq<u8>) -> bool {
    (forall|j: int| 0 <= j < name.len() ==> #[trigger] name[j] != 10u8) && !(name.len() > 0
        && name.last() == 13u8)
}

/// Reading the log of monorepo references gives back the names that were
/// written to it, as long as no name holds a newline or ends with a carriage
/// return (no valid reference name does).
pub proof fn law_refs_log_round_trip(names: Seq<Seq<u8>>)
    requires
        forall|i: int| 0 <= i < names.len() ==> is_log_line(#[trigger] names[i]),
    ensures
        byte_lines(refs_log_text(names)) == names,
        (forall|i: int| 0 <= i < names.len() ==> is_valid_ref_name(#[trigger] names[i]))
            ==> spec_parse_refs_log(refs_log_text(names)) == Ok::<Seq<Seq<u8>>, Seq<u8>>(names),
    decreases names.len(),
{
    if names.len() > 0 {
        let init = names.drop_last();
        let line = names.last();
        assert(is_log_line(names[names.len() - 1]));
        law_refs_log_round_trip(init);
        lemma_refs_log_text_ends(init);
        lemma_byte_lines_append(refs_log_text(init), line + seq![10u8]);
        assert(refs_log_text(names) =~= refs_log_text(init) + (line + seq![10u8]));
        assert forall|j: int| 0 <= j < line.len() implies (line + seq![10u8])[j] != 10u8 by {
            assert((line + seq![10u8])[j] == line[j]);
        };
        lemma_first_index(line + seq![10u8], 10u8, line.len() as int);
        let w = line + seq![10u8];
        assert(first_index(w, 10u8) == Some(line.len() as int));
        assert(w.take(line.len() as int) =~= line);
        assert(!(line.len() > 0 && line.last() == 13u8));
        assert(w.skip(line.len() as int + 1) =~= Seq::<u8>::empty());
        assert(byte_lines(Seq::<u8>::empty()) =~= Seq::<Seq<u8>>::empty());
        assert(byte_lines(w) =~= seq![line] + byte_lines(w.skip(line.len() as int + 1)));
        assert(byte_lines(w) =~= seq![line]);
        assert(byte_lines(refs_log_text(names)) =~= names);
    } else {
        assert(byte_lines(refs_log_text(names)) =~= names);
    }
}

} // verus!

verus! {

/// A reference target as values.
pub enum TargetView {
    Object { id: Seq<u8>, short: Seq<char> },
    Symbolic(Seq<char>),
}

pub open spec fn target_view(t: RefTarget) -> TargetView {
    match t {
        RefTarget::Object { id, short } => TargetView::Object { id: id@, short: short@ },
        RefTarget::Symbolic(n) => TargetView::Symbolic(n@),
    }
}

/// Two targets are the same object or the same reference.
pub open spec fn same_target_view(a: TargetView, b: TargetView) -> bool {
    match (a, b) {
        (TargetView::Object { id: x, .. }, TargetView::Object { id: y, .. }) => x == y,
        (TargetView::Symbolic(x), TargetView::Symbolic(y)) => x == y,
        _ => false,
    }
}

/// An action on a monorepo reference, as values.
pub enum ActionView {
    Create(TargetView),
    Update(TargetView, TargetView),
    Unchanged(TargetView),
    Delete(TargetView),
}

pub open spec fn action_view(a: MonoRefUpdateAction) -> ActionView {
    match a {
        MonoRefUpdateAction::Create { new_target } => ActionView::Create(target_view(new_target)),
        MonoRefUpdateAction::Update { old_target, new_target } => ActionView::Update(
            target_view(old_target),
            target_view(new_target),
        ),
        MonoRefUpdateAction::Unchanged { target } => ActionView::Unchanged(target_view(target)),
        MonoRefUpdateAction::Delete { old_target } => ActionView::Delete(target_view(old_target)),
    }
}

pub open spec fn actions_view(s: Seq<(Vec<u8>, MonoRefUpdateAction)>) -> Seq<(Seq<u8>, ActionView)> {
    s.map_values(|e: (Vec<u8>, MonoRefUpdateAction)| (e.0@, action_view(e.1)))
}

pub open spec fn new_targets_view(s: Seq<(Vec<u8>, Option<RefTarget>)>) -> Seq<
    (Seq<u8>, Option<TargetView>),
> {
    s.map_values(
        |e: (Vec<u8>, Option<RefTarget>)|
            (
                e.0@,
                match e.1 {
                    Some(t) => Some(target_view(t)),
                    None => None,
                },
            ),
    )
}

pub open spec fn old_targets_view(s: Seq<(Vec<u8>, RefTarget)>) -> Seq<(Seq<u8>, TargetView)> {
    s.map_values(|e: (Vec<u8>, RefTarget)| (e.0@, target_view(e.1)))
}

/// The index of the first of the names that is `name`.
pub open spec fn find_name(names: Seq<Seq<u8>>, name: Seq<u8>) -> Option<int>
    decreases names.len(),
{
    if names.len() == 0 {
        None
    } else {
        match find_name(names.drop_last(), name) {
            Some(i) => Some(i),
            None => if names.last() == name {
                Some(names.len() - 1)
            } else {
                None
            },
        }
    }
}

/// The names of the entries of a vector.
pub open spec fn vec_names<V>(s: Seq<(Vec<u8>, V)>) -> Seq<Seq<u8>> {
    s.map_values(|e: (Vec<u8>, V)| e.0@)
}

/// The names of the entries.
pub open spec fn names_of<V>(s: Seq<(Seq<u8>, V)>) -> Seq<Seq<u8>> {
    s.map_values(|e: (Seq<u8>, V)| e.0)
}

/// The target that the monorepo reference `name` had before.
pub open spec fn old_target_of(old: Seq<(Seq<u8>, TargetView)>, name: Seq<u8>) -> Option<TargetView> {
    match find_name(names_of(old), name) {
        Some(i) => Some(old[i].1),
        None => None,
    }
}

/// The action that takes a reference from its old target, if any, to `new`.
pub open spec fn action_to(old: Option<TargetView>, new: TargetView) -> ActionView {
    match old {
        None => ActionView::Create(new),
        Some(o) => if same_target_view(o, new) {
            ActionView::Unchanged(o)
        } else {
            ActionView::Update(o, new)
        },
    }
}

/// Sets the action of `name`, in place when it has one already.
pub open spec fn upsert(acts: Seq<(Seq<u8>, ActionView)>, name: Seq<u8>, a: ActionView) -> Seq<
    (Seq<u8>, ActionView),
> {
    match find_name(names_of(acts), name) {
        Some(i) => acts.update(i, (name, a)),
        None => acts.push((name, a)),
    }
}

/// The actions that point each monorepo reference at its new target, a
/// later entry for a name replacing an earlier one; entries without a
/// target are left out.
pub open spec fn set_actions(
    news: Seq<(Seq<u8>, Option<TargetView>)>,
    old: Seq<(Seq<u8>, TargetView)>,
) -> Seq<(Seq<u8>, ActionView)>
    decreases news.len(),
{
    if news.len() == 0 {
        Seq::empty()
    } else {
        let s = set_actions(news.drop_last(), old);
        match news.last().1 {
            None => s,
            Some(t) => upsert(s, news.last().0, action_to(old_target_of(old, news.last().0), t)),
        }
    }
}

/// The actions followed by a deletion of each old reference that has none.
pub open spec fn delete_actions(acts: Seq<(Seq<u8>, ActionView)>, old: Seq<(Seq<u8>, TargetView)>) -> Seq<
    (Seq<u8>, ActionView),
>
    decreases old.len(),
{
    if old.len() == 0 {
        acts
    } else {
        let s = delete_actions(acts, old.drop_last());
        if find_name(names_of(s), old.last().0) is Some {
            s
        } else {
            s.push((old.last().0, ActionView::Delete(old.last().1)))
        }
    }
}

/// The updates of the monorepo references: each new target set, and, when
/// `remove_refs`, each old reference that gets no new target deleted.
pub open spec fn spec_ref_updates(
    news: Seq<(Seq<u8>, Option<TargetView>)>,
    old: Seq<(Seq<u8>, TargetView)>,
    remove_refs: bool,
) -> Seq<(Seq<u8>, ActionView)> {
    let s = set_actions(news, old);
    if remove_refs {
        delete_actions(s, old)
    } else {
        s
    }
}

fn copy_target(t: &RefTarget) -> (r: RefTarget)
    ensures
        target_view(r) == target_view(*t),
{
    match t {
        RefTarget::Object { id, short } => RefTarget::Object {
            id: bytes_to_vec(id.as_slice()),
            short: string_of(chars_of(short.as_str()).as_slice()),
        },
        RefTarget::Symbolic(n) => RefTarget::Symbolic(string_of(chars_of(n.as_str()).as_slice())),
    }
}

/// The index of the first entry named `name`.
pub fn find_name_exec<V>(s: &Vec<(Vec<u8>, V)>, name: &[u8]) -> (r: Option<usize>)
    ensures
        match r {
            Some(i) => find_name(vec_names(s@), name@) == Some(i as int),
            None => find_name(vec_names(s@), name@) is None,
        },
        r matches Some(i) ==> i < s@.len() && s@[i as int].0@ == name@,
{
    let ghost sv = vec_names(s@);
    proof {
        lemma_find_name_some(sv, name@);
    }
    let mut i: usize = 0;
    while i < s.len()
        invariant
            i <= s@.len(),
            sv == vec_names(s@),
            find_name(sv.take(i as int), name@) is None,
        decreases s.len() - i,
    {
        assert(sv.take(i + 1).drop_last() =~= sv.take(i as int));
        if bytes_eq(s[i].0.as_slice(), name) {
            proof {
                lemma_find_name_prefix(sv, name@, i as int + 1);
            }
            return Some(i);
        }
        i = i + 1;
    }
    assert(sv.take(s@.len() as int) =~= sv);
    None
}

/// A name found is at an index of the names, and is the name there.
proof fn lemma_find_name_some(names: Seq<Seq<u8>>, name: Seq<u8>)
    ensures
        find_name(names, name) matches Some(i) ==> 0 <= i < names.len() && names[i] == name,
    decreases names.len(),
{
    if names.len() > 0 {
        lemma_find_name_some(names.drop_last(), name);
    }
}

/// A name found among the first names is found there in all of them.
proof fn lemma_find_name_prefix(names: Seq<Seq<u8>>, name: Seq<u8>, k: int)
    requires
        0 <= k <= names.len(),
        find_name(names.take(k), name) is Some,
    ensures
        find_name(names, name) == find_name(names.take(k), name),
    decreases names.len() - k,
{
    if k < names.len() {
        assert(names.take(k + 1).drop_last() =~= names.take(k));
        lemma_find_name_prefix(names, name, k + 1);
    } else {
        assert(names.take(k) =~= names);
    }
}

fn action_to_exec(old: Option<RefTarget>, new: RefTarget) -> (r: MonoRefUpdateAction)
    ensures
        action_view(r) == action_to(
            match old {
                Some(o) => Some(target_view(o)),
                None => None,
            },
            target_view(new),
        ),
{
    match old {
        None => MonoRefUpdateAction::Create { new_target: new },
        Some(o) => {
            let same = match (&o, &new) {
                (RefTarget::Object { id: x, .. }, RefTarget::Object { id: y, .. }) => bytes_eq(
                    x.as_slice(),
                    y.as_slice(),
                ),
                (RefTarget::Symbolic(x), RefTarget::Symbolic(y)) => chars_eq(
                    &chars_of(x.as_str()),
                    &chars_of(y.as_str()),
                ),
                _ => false,
            };
            if same {
                MonoRefUpdateAction::Unchanged { target: o }
            } else {
                MonoRefUpdateAction::Update { old_target: o, new_target: new }
            }
        },
    }
}

/// The updates of the monorepo references once the top references are
/// expanded: each reference of `news` that has a target is pointed at it,
/// created, updated or left unchanged as its old target in `old` tells (a
/// later entry for a name replacing an earlier one); with `remove_refs`, each
/// old reference that gets no target is deleted. Each name has one action.
pub fn plan_ref_updates(
    news: &Vec<(Vec<u8>, Option<RefTarget>)>,
    old: &Vec<(Vec<u8>, RefTarget)>,
    remove_refs: bool,
) -> (r: Vec<(Vec<u8>, MonoRefUpdateAction)>)
    ensures
        actions_view(r@) == spec_ref_updates(
            new_targets_view(news@),
            old_targets_view(old@),
            remove_refs,
        ),
{
    let ghost nv = new_targets_view(news@);
    let ghost ov = old_targets_view(old@);
    assert(names_of(ov) =~= vec_names(old@));
    let mut acts: Vec<(Vec<u8>, MonoRefUpdateAction)> = Vec::new();
    let mut i: usize = 0;
    while i < news.len()
        invariant
            i <= news@.len(),
            nv == new_targets_view(news@),
            ov == old_targets_view(old@),
            names_of(ov) == vec_names(old@),
            actions_view(acts@) == set_actions(nv.take(i as int), ov),
        decreases news.len() - i,
    {
        assert(nv.take(i + 1).drop_last() =~= nv.take(i as int));
        assert(nv.take(i + 1).last() == nv[i as int]);
        let name = &news[i].0;
        match &news[i].1 {
            None => {},
            Some(t) => {
                assert(nv[i as int] == (name@, Some(target_view(*t))));
                let found = find_name_exec(old, name.as_slice());
                assert(find_name(names_of(ov), name@) == find_name(vec_names(old@), name@));
                let o = match found {
                    Some(j) => {
                        assert(ov[j as int].1 == target_view(old@[j as int].1));
                        assert(find_name(names_of(ov), name@) == Some(j as int));
                        let x = copy_target(&old[j].1);
                        assert(old_target_of(ov, name@) == Some(target_view(x)));
                        Some(x)
                    },
                    None => None,
                };
                assert(match o {
                    Some(x) => Some(target_view(x)),
                    None => None,
                } == old_target_of(ov, name@));
                let a = action_to_exec(o, copy_target(t));
                let ghost av = actions_view(acts@);
                assert(names_of(av) =~= vec_names(acts@));
                let entry = (bytes_to_vec(name.as_slice()), a);
                match find_name_exec(&acts, name.as_slice()) {
                    Some(k) => {
                        acts.set(k, entry);
                        assert(actions_view(acts@) =~= av.update(
                            k as int,
                            (name@, action_view(a)),
                        ));
                    },
                    None => {
                        acts.push(entry);
                        assert(actions_view(acts@) =~= av.push((name@, action_view(a))));
                    },
                }
                assert(actions_view(acts@) == upsert(av, name@, action_view(a)));
            },
        }
        i = i + 1;
    }
    assert(nv.take(news@.len() as int) =~= nv);
    if !remove_refs {
        return acts;
    }
    let ghost s0 = set_actions(nv, ov);
    let mut j: usize = 0;
    while j < old.len()
        invariant
            j <= old@.len(),
            ov == old_targets_view(old@),
            actions_view(acts@) == delete_actions(s0, ov.take(j as int)),
        decreases old.len() - j,
    {
        assert(ov.take(j + 1).drop_last() =~= ov.take(j as int));
        assert(ov.take(j + 1).last() == ov[j as int]);
        let ghost av = actions_view(acts@);
        assert(names_of(av) =~= vec_names(acts@));
        if find_name_exec(&acts, old[j].0.as_slice()).is_none() {
            let d = MonoRefUpdateAction::Delete { old_target: copy_target(&old[j].1) };
            acts.push((bytes_to_vec(old[j].0.as_slice()), d));
            assert(actions_view(acts@) =~= av.push((ov[j as int].0, action_view(d))));
        }
        j = j + 1;
    }
    assert(ov.take(old@.len() as int) =~= ov);
    acts
}

/// A tag target is given with the kind of the object that its chain of tags
/// ends at, which is no tag.
pub open spec fn peeled_past_tags(t: TopRefTarget) -> bool {
    match t {
        TopRefTarget::Object { kind, peeled } => kind == ObjectKind::Tag ==> peeled != ObjectKind::Tag,
        _ => true,
    }
}

/// Decides what recombining does with each top reference, in order; fails
/// with the name of the first one that has no valid monorepo name. A tag
/// target is given with the kind of the object its chain of tags ends at.
pub fn plan_top_refs(top_refs: &Vec<(Vec<u8>, TopRefTarget)>) -> (r: Result<Vec<TopRefPlan>, Vec<u8>>)
    requires
        forall|i: int|
            0 <= i < top_refs@.len() ==> peeled_past_tags((#[trigger] top_refs@[i]).1),
    ensures
        match r {
            Ok(ps) => ps@.len() == top_refs@.len() && forall|i: int|
                0 <= i < top_refs@.len() ==> spec_plan_top_ref(
                    top_refs@[i].0@,
                    top_refs@[i].1,
                ) == Some(plan_view(#[trigger] ps@[i])),
            Err(n) => exists|k: int|
                0 <= k < top_refs@.len() && spec_plan_top_ref(
                    #[trigger] top_refs@[k].0@,
                    top_refs@[k].1,
                ) is None && n@ == top_refs@[k].0@ && forall|i: int|
                    0 <= i < k ==> spec_plan_top_ref(
                        #[trigger] top_refs@[i].0@,
                        top_refs@[i].1,
                    ) is Some,
        },
{
    let mut ps: Vec<TopRefPlan> = Vec::new();
    let mut i: usize = 0;
    while i < top_refs.len()
        invariant
            i <= top_refs@.len(),
            ps@.len() == i,
            forall|k: int|
                0 <= k < top_refs@.len() ==> peeled_past_tags((#[trigger] top_refs@[k]).1),
            forall|k: int|
                0 <= k < i ==> spec_plan_top_ref(top_refs@[k].0@, top_refs@[k].1) == Some(
                    plan_view(#[trigger] ps@[k]),
                ),
        decreases top_refs.len() - i,
    {
        let entry = &top_refs[i];
        assert(top_refs@[i as int] == *entry);
        match plan_top_ref(entry.0.as_slice(), &entry.1) {
            Some(p) => {
                ps.push(p);
            },
            None => {
                proof {
                    assert forall|k: int| 0 <= k < i implies spec_plan_top_ref(
                        #[trigger] top_refs@[k].0@,
                        top_refs@[k].1,
                    ) is Some by {
                        assert(spec_plan_top_ref(top_refs@[k].0@, top_refs@[k].1) == Some(
                            plan_view(ps@[k]),
                        ));
                    };
                }
                return Err(bytes_to_vec(entry.0.as_slice()));
            },
        }
        i = i + 1;
    }
    Ok(ps)
}

/// The monorepo references that remain after the updates: the names of the
/// actions that do not delete, sorted, each once.
pub fn remaining_refs(actions: &Vec<(Vec<u8>, MonoRefUpdateAction)>) -> (r: Vec<Vec<u8>>)
    ensures
        strictly_sorted(byte_strings_view(r@)),
        forall|y: Seq<u8>|
            #![trigger byte_strings_view(r@).contains(y)]
            byte_strings_view(r@).contains(y) <==> exists|i: int|
                0 <= i < actions@.len() && (#[trigger] actions@[i]).0@ == y && !(actions@[i].1 is Delete),
{
    let mut kept: Vec<Vec<u8>> = Vec::new();
    let mut i: usize = 0;
    while i < actions.len()
        invariant
            i <= actions@.len(),
            forall|y: Seq<u8>|
                #![trigger byte_strings_view(kept@).contains(y)]
                byte_strings_view(kept@).contains(y) <==> exists|k: int|
                    0 <= k < i && (#[trigger] actions@[k]).0@ == y && !(actions@[k].1 is Delete),
        decreases actions.len() - i,
    {
        let ghost before = byte_strings_view(kept@);
        let deletes = match &actions[i].1 {
            MonoRefUpdateAction::Delete { .. } => true,
            _ => false,
        };
        if !deletes {
            kept.push(bytes_to_vec(actions[i].0.as_slice()));
            assert(byte_strings_view(kept@) =~= before.push(actions@[i as int].0@));
        }
        assert forall|y: Seq<u8>|
            #![trigger byte_strings_view(kept@).contains(y)]
            byte_strings_view(kept@).contains(y) <==> exists|k: int|
                0 <= k < i + 1 && (#[trigger] actions@[k]).0@ == y && !(actions@[k].1 is Delete) by {
            if byte_strings_view(kept@).contains(y) {
                let j = choose|j: int| 0 <= j < byte_strings_view(kept@).len() && byte_strings_view(kept@)[j] == y;
                if j < before.len() {
                    assert(before[j] == y);
                    assert(before.contains(y));
                } else {
                    assert(actions@[i as int].0@ == y);
                }
            }
            if exists|k: int| 0 <= k < i + 1 && (#[trigger] actions@[k]).0@ == y && !(actions@[k].1 is Delete) {
                let k = choose|k: int| 0 <= k < i + 1 && (#[trigger] actions@[k]).0@ == y && !(actions@[k].1 is Delete);
                if k < i {
                    assert(before.contains(y));
                    let j = choose|j: int| 0 <= j < before.len() && before[j] == y;
                    assert(byte_strings_view(kept@)[j] == y);
                } else {
                    assert(byte_strings_view(kept@)[byte_strings_view(kept@).len() - 1] == y);
                }
            }
        };
        i = i + 1;
    }
    let none: Vec<Vec<u8>> = Vec::new();
    let r = old_and_new_refs(kept.as_slice(), none.as_slice());
    assert forall|y: Seq<u8>| !byte_strings_view(none@).contains(y) by {};
    r
}

}
