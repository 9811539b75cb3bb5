//! Updates of the monorepo's references, and how they are reported to the
//! user in the fashion of `git fetch`.
use crate::git::bytes_eq;
use crate::order::keyed_view;
use crate::order::sort_by_key;
use crate::order::sort_keyed;
use crate::order::SortKey;
use crate::order::SortKeyView;
use crate::text::chars_of;
use crate::text::from_utf8_lossy;
use crate::text::push_all;
use crate::text::string_of;
use crate::text::utf8_lossy;
use vstd::prelude::*;
use vstd::utf8::encode_utf8;

verus! {

/// What a reference points at.
#[derive(Debug)]
pub enum RefTarget {
    /// An object: its id, and the id abbreviated as the repository shows it.
    Object { id: Vec<u8>, short: String },
    /// Another reference, by its full name.
    Symbolic(String),
}

/// Two targets are the same object or the same reference.
pub open spec fn same_target(a: RefTarget, b: RefTarget) -> bool {
    match (a, b) {
        (RefTarget::Object { id: x, .. }, RefTarget::Object { id: y, .. }) => x@ == y@,
        (RefTarget::Symbolic(x), RefTarget::Symbolic(y)) => x@ == y@,
        _ => false,
    }
}

fn same_target_exec(a: &RefTarget, b: &RefTarget) -> (r: bool)
    ensures
        r == same_target(*a, *b),
{
    match (a, b) {
        (RefTarget::Object { id: x, .. }, RefTarget::Object { id: y, .. }) => bytes_eq(
            x.as_slice(),
            y.as_slice(),
        ),
        (RefTarget::Symbolic(x), RefTarget::Symbolic(y)) => *x == *y,
        _ => false,
    }
}

/// An action on a reference of the monorepo.
#[derive(Debug)]
pub enum MonoRefUpdateAction {
    Create { new_target: RefTarget },
    Update { old_target: RefTarget, new_target: RefTarget },
    Unchanged { target: RefTarget },
    Delete { old_target: RefTarget },
}

/// The kind of a reference, as its full name tells.
#[derive(Debug, Clone, Copy, PartialEq, Eq)]
pub enum RefCategory {
    LocalBranch,
    RemoteBranch,
    Tag,
    /// Any other kind of reference.
    Other,
}

/// How a target is shown: an abbreviated object id, or `link:<name>`.
pub open spec fn target_text(t: RefTarget) -> Seq<char> {
    match t {
        RefTarget::Object { short, .. } => short@,
        RefTarget::Symbolic(name) => "link:"@ + name@,
    }
}

/// The name under which a reference is reported: the short name of a branch
/// or tag, else the full name.
pub open spec fn report_name(category: Option<(RefCategory, Seq<u8>)>, full_name: Seq<u8>) -> Seq<char> {
    match category {
        Some((RefCategory::Other, _)) | None => utf8_lossy(full_name),
        Some((_, short)) => utf8_lossy(short),
    }
}

pub open spec fn is_tag(category: Option<(RefCategory, Seq<u8>)>) -> bool {
    category matches Some((RefCategory::Tag, _))
}

/// The description of an update: what happened, and the old and the new
/// target. An update of a branch or tag whose old target is no ancestor of
/// the new one is a forced update.
pub open spec fn spec_description(a: MonoRefUpdateAction, tag: bool, forced: bool) -> Seq<char> {
    match a {
        MonoRefUpdateAction::Create { new_target } => (if tag {
            "* [new tag] "@
        } else {
            "* [new] "@
        }) + target_text(new_target),
        MonoRefUpdateAction::Update { old_target, new_target } => (if tag {
            if forced {
                "T [force updated tag]"@
            } else {
                "t [updated tag]"@
            }
        } else if forced {
            "+ [forced update]"@
        } else {
            " "@
        }) + " "@ + target_text(old_target) + (if forced {
            "..."@
        } else {
            ".."@
        }) + target_text(new_target),
        MonoRefUpdateAction::Unchanged { target } => (if tag {
            "= [tag up to date] "@
        } else {
            "= [up to date] "@
        }) + target_text(target),
        MonoRefUpdateAction::Delete { old_target } => (if tag {
            "- [deleted tag] "@
        } else {
            "- [deleted] "@
        }) + target_text(old_target),
    }
}

/// Where a report line of the action goes: created, updated, unchanged,
/// then deleted references.
pub open spec fn spec_sort_order(a: MonoRefUpdateAction) -> u8 {
    match a {
        MonoRefUpdateAction::Create { .. } => 1,
        MonoRefUpdateAction::Update { .. } => 2,
        MonoRefUpdateAction::Unchanged { .. } => 3,
        MonoRefUpdateAction::Delete { .. } => 4,
    }
}

fn target_text_exec(t: &RefTarget) -> (r: Vec<char>)
    ensures
        r@ == target_text(*t),
{
    match t {
        RefTarget::Object { short, .. } => chars_of(short.as_str()),
        RefTarget::Symbolic(name) => {
            let mut v = chars_of("link:");
            push_all(&mut v, &chars_of(name.as_str()));
            v
        },
    }
}

impl MonoRefUpdateAction {
    /// The action that takes a reference from `old_target` to `new_target`,
    /// where `None` is a missing reference; nothing when both are missing.
    pub fn new(old_target: Option<RefTarget>, new_target: Option<RefTarget>) -> (r: Option<Self>)
        ensures
            match (old_target, new_target) {
                (None, None) => r is None,
                (None, Some(n)) => r == Some(MonoRefUpdateAction::Create { new_target: n }),
                (Some(o), None) => r == Some(MonoRefUpdateAction::Delete { old_target: o }),
                (Some(o), Some(n)) => if same_target(o, n) {
                    r == Some(MonoRefUpdateAction::Unchanged { target: o })
                } else {
                    r == Some(MonoRefUpdateAction::Update { old_target: o, new_target: n })
                },
            },
    {
        match (old_target, new_target) {
            (None, None) => None,
            (None, Some(new_target)) => Some(MonoRefUpdateAction::Create { new_target }),
            (Some(old_target), None) => Some(MonoRefUpdateAction::Delete { old_target }),
            (Some(old_target), Some(new_target)) => {
                if same_target_exec(&old_target, &new_target) {
                    Some(MonoRefUpdateAction::Unchanged { target: old_target })
                } else {
                    Some(MonoRefUpdateAction::Update { old_target, new_target })
                }
            },
        }
    }

    /// Where the action's report line goes.
    pub fn sort_order(&self) -> (r: u8)
        ensures
            r == spec_sort_order(*self),
    {
        match self {
            MonoRefUpdateAction::Create { .. } => 1,
            MonoRefUpdateAction::Update { .. } => 2,
            MonoRefUpdateAction::Unchanged { .. } => 3,
            MonoRefUpdateAction::Delete { .. } => 4,
        }
    }

    /// Describes the action in a short form, like `git fetch` does, with the
    /// name to report it under. `category` is the kind and the short name of
    /// the reference `full_name`, when its name has a kind. `diverged` says
    /// that both targets are known monorepo commits and the old one is not
    /// an ancestor of the new one.
    pub fn describe(
        &self,
        category: Option<(RefCategory, Vec<u8>)>,
        full_name: &[u8],
        diverged: bool,
    ) -> (r: (String, String))
        ensures
            r.0@ == spec_description(
                *self,
                is_tag(opt_category_view(category)),
                diverged && (*self matches MonoRefUpdateAction::Update {
                    old_target: RefTarget::Object { .. },
                    new_target: RefTarget::Object { .. },
                }),
            ),
            r.1@ == report_name(opt_category_view(category), full_name@),
    {
        let tag = match &category {
            Some((RefCategory::Tag, _)) => true,
            _ => false,
        };
        let name = match &category {
            Some((RefCategory::Other, _)) | None => from_utf8_lossy(full_name),
            Some((_, short)) => from_utf8_lossy(short.as_slice()),
        };
        let mut d: Vec<char>;
        match self {
            MonoRefUpdateAction::Create { new_target } => {
                d = if tag {
                    chars_of("* [new tag] ")
                } else {
                    chars_of("* [new] ")
                };
                push_all(&mut d, &target_text_exec(new_target));
            },
            MonoRefUpdateAction::Update { old_target, new_target } => {
                let forced = diverged && match (old_target, new_target) {
                    (RefTarget::Object { .. }, RefTarget::Object { .. }) => true,
                    _ => false,
                };
                d = if tag {
                    if forced {
                        chars_of("T [force updated tag]")
                    } else {
                        chars_of("t [updated tag]")
                    }
                } else if forced {
                    chars_of("+ [forced update]")
                } else {
                    chars_of(" ")
                };
                push_all(&mut d, &chars_of(" "));
                push_all(&mut d, &target_text_exec(old_target));
                if forced {
                    push_all(&mut d, &chars_of("..."));
                } else {
                    push_all(&mut d, &chars_of(".."));
                }
                push_all(&mut d, &target_text_exec(new_target));
            },
            MonoRefUpdateAction::Unchanged { target } => {
                d = if tag {
                    chars_of("= [tag up to date] ")
                } else {
                    chars_of("= [up to date] ")
                };
                push_all(&mut d, &target_text_exec(target));
            },
            MonoRefUpdateAction::Delete { old_target } => {
                d = if tag {
                    chars_of("- [deleted tag] ")
                } else {
                    chars_of("- [deleted] ")
                };
                push_all(&mut d, &target_text_exec(old_target));
            },
        }
        (string_of(&d), name)
    }
}

pub open spec fn opt_category_view(c: Option<(RefCategory, Vec<u8>)>) -> Option<(RefCategory, Seq<u8>)> {
    match c {
        Some((k, s)) => Some((k, s@)),
        None => None,
    }
}

/// The key that orders report lines: the sort order, then the name, then
/// the description.
pub open spec fn report_key(order: u8, name: Seq<char>, description: Seq<char>) -> SortKeyView {
    SortKeyView {
        flag: false,
        text: seq![order as char] + name,
        text2: description,
        path: Seq::empty(),
    }
}

/// The report entries keyed for sorting.
pub open spec fn keyed_entries(entries: Seq<(u8, Seq<char>, Seq<char>)>) -> Seq<
    (SortKeyView, (Seq<char>, Seq<char>)),
> {
    entries.map_values(
        |e: (u8, Seq<char>, Seq<char>)| (report_key(e.0, e.1, e.2), (e.1, e.2)),
    )
}

/// The width of the description column: the longest description in bytes,
/// at least 20 as `git fetch` has it for abbreviated ids.
pub open spec fn description_width(ds: Seq<Seq<char>>) -> int
    decreases ds.len(),
{
    if ds.len() == 0 {
        20
    } else {
        let w = description_width(ds.drop_last());
        let n = encode_utf8(ds.last()).len() as int;
        if n > w {
            n
        } else {
            w
        }
    }
}

/// `s` padded with spaces to `width` characters.
pub open spec fn pad_to(s: Seq<char>, width: int) -> Seq<char> {
    if s.len() < width {
        s + Seq::new((width - s.len()) as nat, |i: int| ' ')
    } else {
        s
    }
}

/// A report line: ` <description> -> <name>`.
pub open spec fn report_line(name: Seq<char>, description: Seq<char>, width: int) -> Seq<char> {
    " "@ + pad_to(description, width) + " -> "@ + name
}

/// The report of reference updates, given as `(sort order, name,
/// description)`: sorted, with the descriptions in a column as wide as the
/// longest of them.
pub open spec fn spec_ref_update_report(entries: Seq<(u8, Seq<char>, Seq<char>)>) -> Seq<Seq<char>> {
    let sorted = sort_by_key(keyed_entries(entries));
    let width = description_width(entries.map_values(|e: (u8, Seq<char>, Seq<char>)| e.2));
    sorted.map_values(|x: (SortKeyView, (Seq<char>, Seq<char>))| report_line(x.1.0, x.1.1, width))
}

pub open spec fn entries_view(entries: Seq<(u8, String, String)>) -> Seq<(u8, Seq<char>, Seq<char>)> {
    entries.map_values(|e: (u8, String, String)| (e.0, e.1@, e.2@))
}

/// The report lines of reference updates, given as `(sort order, name,
/// description)`.
pub fn ref_update_report(entries: Vec<(u8, String, String)>) -> (r: Vec<String>)
    ensures
        r@.map_values(|s: String| s@) == spec_ref_update_report(entries_view(entries@)),
{
    let ghost ev = entries_view(entries@);
    let ghost descs = ev.map_values(|e: (u8, Seq<char>, Seq<char>)| e.2);
    let mut width: usize = 20;
    let mut keyed: Vec<(SortKey, (String, String))> = Vec::new();
    let mut i: usize = 0;
    while i < entries.len()
        invariant
            i <= entries@.len(),
            ev == entries_view(entries@),
            descs == ev.map_values(|e: (u8, Seq<char>, Seq<char>)| e.2),
            width == description_width(descs.take(i as int)),
            keyed_view(keyed@) == keyed_entries(ev.take(i as int)),
        decreases entries.len() - i,
    {
        let (order, name, description) = (entries[i].0, &entries[i].1, &entries[i].2);
        assert(descs.take(i + 1).drop_last() =~= descs.take(i as int));
        assert(descs.take(i + 1).last() == description@);
        let n = description.as_str().as_bytes().len();
        if n > width {
            width = n;
        }
        let mut text: Vec<char> = Vec::new();
        text.push(order as char);
        push_all(&mut text, &chars_of(name.as_str()));
        let key = SortKey {
            flag: false,
            text,
            text2: chars_of(description.as_str()),
            path: Vec::new(),
        };
        assert(key@ == report_key(order, name@, description@));
        let ghost k0 = keyed_view(keyed@);
        let item = (key, (name.clone(), description.clone()));
        assert(item.1@ == (name@, description@));
        keyed.push(item);
        assert(ev[i as int] == (order, name@, description@));
        assert(ev.take(i + 1) =~= ev.take(i as int).push(ev[i as int]));
        assert(keyed_entries(ev.take(i + 1)) =~= keyed_entries(ev.take(i as int)).push(
            (report_key(order, name@, description@), (name@, description@)),
        ));
        assert(keyed_view(keyed@) =~= k0.push((key@, (name@, description@))));
        assert(keyed_view(keyed@) =~= keyed_entries(ev.take(i + 1)));
        i = i + 1;
    }
    assert(ev.take(entries@.len() as int) =~= ev);
    assert(descs.take(entries@.len() as int) =~= descs);
    let sorted = sort_keyed(keyed);
    let ghost sv = keyed_view(sorted@);
    let mut lines: Vec<String> = Vec::new();
    let mut j: usize = 0;
    while j < sorted.len()
        invariant
            j <= sorted@.len(),
            sv == keyed_view(sorted@),
            lines@.map_values(|s: String| s@) == sv.take(j as int).map_values(
                |x: (SortKeyView, (Seq<char>, Seq<char>))| report_line(x.1.0, x.1.1, width as int),
            ),
        decreases sorted.len() - j,
    {
        let name = &sorted[j].1.0;
        let description = &sorted[j].1.1;
        let mut line = chars_of(" ");
        let d = chars_of(description.as_str());
        push_all(&mut line, &d);
        let mut pad = d.len();
        while pad < width
            invariant
                d.len() <= pad <= width || (pad == d.len() && pad >= width),
                line@ == " "@ + d@ + Seq::new((pad - d.len()) as nat, |i: int| ' '),
            decreases width - pad,
        {
            line.push(' ');
            pad = pad + 1;
            assert(line@ =~= " "@ + d@ + Seq::new((pad - d.len()) as nat, |i: int| ' '));
        }
        assert(" "@ + pad_to(description@, width as int) =~= line@);
        push_all(&mut line, &chars_of(" -> "));
        push_all(&mut line, &chars_of(name.as_str()));
        let ghost l0 = lines@.map_values(|s: String| s@);
        lines.push(string_of(&line));
        assert(sv.take(j + 1).map_values(
            |x: (SortKeyView, (Seq<char>, Seq<char>))| report_line(x.1.0, x.1.1, width as int),
        ) =~= sv.take(j as int).map_values(
            |x: (SortKeyView, (Seq<char>, Seq<char>))| report_line(x.1.0, x.1.1, width as int),
        ).push(report_line(sv[j as int].1.0, sv[j as int].1.1, width as int)));
        assert(lines@.map_values(|s: String| s@) =~= l0.push(line@));
        j = j + 1;
    }
    assert(sv.take(sorted@.len() as int) =~= sv);
    lines
}


} // verus!
