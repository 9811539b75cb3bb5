//! Splitting a combined commit message gives back the message of every
//! repository: the text facts about lines, the run of the splitter over a
//! rendered message, and the law itself.
use crate::commit_message::footer_line_step;
use crate::commit_message::footer_prefix;
use crate::commit_message::no_footer_data;
use crate::commit_message::spec_footer_path;
use crate::commit_message::spec_is_footer_line;
use crate::commit_message::split_lines;
use crate::commit_message::split_step;
use crate::commit_message::topic_prefix;
use crate::commit_message::FooterData;
use crate::commit_message::SplitAcc;
use crate::commit_message::SplitFailure;
use crate::commit_message::SplitPhase;
use crate::text::has_prefix;
use crate::text::is_ws;
use crate::text::lemma_ws_prefix_unique;
use crate::text::utf8_lossy;
use crate::commit_message::lemma_non_ws_prefix_unique;
use crate::commit_message::top_display_path;
use crate::commit_message::toprepo_footer_line;
use crate::commit_message::EntryView;
use crate::commit_message::CommitMessageInfoView;
use crate::commit_message::spec_mono_commit_message;
use crate::commit_message::sort_by_text;
use crate::commit_message::message_entries;
use crate::commit_message::groups_of;
use crate::commit_message::combined_key;
use crate::commit_message::render_group;
use crate::commit_message::split_footer_groups;
use crate::commit_message::footer_groups;
use crate::commit_message::sort_groups_by_path;
use crate::commit_message::sort_by_path;
use crate::commit_message::footer_blocks;
use crate::commit_message::path_key;
use crate::commit_message::entry_of;
use crate::commit_message::interesting_entries;
use crate::commit_message::boring_infos;
use crate::commit_message::hidden_entries;
use crate::commit_message::hidden_infos;
use crate::commit_message::is_interesting_info;
use crate::commit_message::spec_is_interesting_message;
use crate::commit_message::text_key;
use crate::commit_message::toprepo_footer_lines;
use crate::commit_message::insert_paths;
use crate::commit_message::trim_double_newline;
use crate::commit_message::PushMessageView;
use crate::commit_message::has_path;
use crate::commit_message::join_messages;
use crate::commit_message::residual_message;
use crate::commit_message::spec_split_commit_message;
use vstd::utf8::decode_utf8;
use vstd::utf8::encode_utf8;
use vstd::utf8::valid_utf8;
use crate::text::lemma_split_on_len;
use crate::text::lines_of;
use crate::text::split_on;
use crate::text::strip_cr;
use crate::util::lemma_split_on_concat;
use crate::order::group_by_text;
use crate::order::insert_sorted;
use crate::order::leading_le;
use crate::order::lemma_leading_le_bound;
use crate::order::sort_by_key;
use crate::order::SortKeyView;
use vstd::multiset::Multiset;
use vstd::prelude::*;

verus! {

/// Lines, each followed by `\n`.
pub open spec fn unlines(ls: Seq<Seq<char>>) -> Seq<char>
    decreases ls.len(),
{
    if ls.len() == 0 {
        Seq::empty()
    } else {
        unlines(ls.drop_last()) + ls.last().push('\n')
    }
}

/// A line holds no line break.
pub open spec fn plain_line(l: Seq<char>) -> bool {
    !l.contains('\n') && !l.contains('\r')
}

/// Text made of whole lines without `\r`.
pub open spec fn whole_lines(s: Seq<char>) -> bool {
    (s.len() == 0 || s.last() == '\n') && !s.contains('\r')
}

proof fn lemma_split_parts_plain(s: Seq<char>)
    requires
        !s.contains('\r'),
    ensures
        forall|i: int| 0 <= i < split_on(s, '\n').len() ==> plain_line(#[trigger] split_on(s, '\n')[i]),
        unlines(split_on(s, '\n').drop_last()) + split_on(s, '\n').last() == s,
    decreases s.len(),
{
    lemma_split_on_len(s, '\n');
    if s.len() == 0 {
        assert(split_on(s, '\n') =~= seq![Seq::<char>::empty()]);
        assert(split_on(s, '\n').drop_last() =~= Seq::<Seq<char>>::empty());
        assert(s =~= Seq::<char>::empty());
    } else {
        let s0 = s.drop_last();
        assert(!s0.contains('\r')) by {
            if s0.contains('\r') {
                let k = choose|k: int| 0 <= k < s0.len() && s0[k] == '\r';
                assert(s[k] == '\r');
            }
        };
        lemma_split_parts_plain(s0);
        lemma_split_on_len(s0, '\n');
        let p = split_on(s0, '\n');
        let c = s.last();
        assert(c != '\r') by {
            assert(s[s.len() - 1] == c);
        };
        if c == '\n' {
            let q = p.push(Seq::<char>::empty());
            assert(split_on(s, '\n') == q);
            assert forall|i: int| 0 <= i < q.len() implies plain_line(#[trigger] q[i]) by {
                if i < p.len() {
                    assert(q[i] == p[i]);
                } else {
                    assert(q[i] =~= Seq::<char>::empty());
                }
            };
            assert(q.drop_last() =~= p);
            assert(p =~= p.drop_last().push(p.last()));
            assert(unlines(p) == unlines(p.drop_last()) + p.last().push('\n'));
            assert(unlines(q.drop_last()) + q.last() =~= s0.push('\n'));
            assert(s =~= s0.push('\n'));
        } else {
            let l = p.last().push(c);
            let q = p.update(p.len() - 1, l);
            assert(split_on(s, '\n') == q);
            assert(plain_line(p[p.len() - 1]));
            assert(plain_line(l)) by {
                if l.contains('\n') || l.contains('\r') {
                    let k = choose|k: int| 0 <= k < l.len() && (l[k] == '\n' || l[k] == '\r');
                    if k < l.len() - 1 {
                        assert(p.last()[k] == l[k]);
                        assert(p[p.len() - 1].contains(l[k]));
                    }
                }
            };
            assert forall|i: int| 0 <= i < q.len() implies plain_line(#[trigger] q[i]) by {
                if i < p.len() - 1 {
                    assert(q[i] == p[i]);
                }
            };
            assert(q.drop_last() =~= p.drop_last());
            assert(unlines(q.drop_last()) + q.last() =~= (unlines(p.drop_last()) + p.last()).push(c));
            assert(s =~= s0.push(c));
        }
    }
}

/// The lines of text made of whole lines give the text back.
pub proof fn lemma_text_lines(s: Seq<char>)
    requires
        whole_lines(s),
    ensures
        unlines(lines_of(s)) == s,
        forall|i: int| 0 <= i < lines_of(s).len() ==> plain_line(#[trigger] lines_of(s)[i]),
{
    lemma_split_parts_plain(s);
    lemma_split_on_len(s, '\n');
    let p = split_on(s, '\n');
    let d = p.drop_last();
    assert forall|i: int| 0 <= i < d.len() implies strip_cr(#[trigger] d[i]) == d[i] by {
        assert(d[i] == p[i]);
        assert(plain_line(p[i]));
        if d[i].len() > 0 && d[i].last() == '\r' {
            assert(d[i][d[i].len() - 1] == '\r');
        }
    };
    assert(lines_of(s) =~= d) by {
        if s.len() > 0 {
            assert(p.last().len() == 0) by {
                if s.len() > 0 {
                    let s0 = s.drop_last();
                    assert(s.last() == '\n');
                    assert(split_on(s, '\n') == split_on(s0, '\n').push(Seq::<char>::empty()));
                }
            };
        }
    };
    if s.len() > 0 {
        let s0 = s.drop_last();
        assert(split_on(s, '\n') == split_on(s0, '\n').push(Seq::<char>::empty()));
        assert(p.last() =~= Seq::<char>::empty());
        assert(unlines(d) + p.last() =~= unlines(d));
    } else {
        assert(d =~= Seq::<Seq<char>>::empty());
    }
    assert forall|i: int| 0 <= i < lines_of(s).len() implies plain_line(#[trigger] lines_of(s)[i]) by {
        assert(lines_of(s)[i] == p[i]);
    };
}

/// Whole lines followed by more text: the lines of each, one after the other.
pub proof fn lemma_lines_of_concat(a: Seq<char>, b: Seq<char>)
    requires
        a.len() == 0 || a.last() == '\n',
    ensures
        lines_of(a + b) == lines_of(a) + lines_of(b),
{
    if a.len() == 0 {
        assert(a + b =~= b);
        assert(split_on(a, '\n') =~= seq![Seq::<char>::empty()]);
        assert(lines_of(a) =~= Seq::<Seq<char>>::empty());
        assert(lines_of(a) + lines_of(b) =~= lines_of(b));
    } else {
        let a0 = a.drop_last();
        assert(a =~= a0 + seq!['\n'] + Seq::<char>::empty());
        lemma_split_on_concat(a0, Seq::<char>::empty(), '\n');
        assert(a + b =~= a0 + seq!['\n'] + b);
        lemma_split_on_concat(a0, b, '\n');
        lemma_split_on_len(b, '\n');
        lemma_split_on_len(a0, '\n');
        let pa = split_on(a0, '\n');
        let pb = split_on(b, '\n');
        assert(split_on(Seq::<char>::empty(), '\n') =~= seq![Seq::<char>::empty()]);
        assert(split_on(a, '\n') =~= pa + seq![Seq::<char>::empty()]);
        assert(lines_of(a) =~= pa.map_values(|l: Seq<char>| strip_cr(l)));
        assert((pa + pb).drop_last() =~= pa + pb.drop_last());
        assert((pa + pb).last() == pb.last());
        if b.len() == 0 || b.last() == '\n' {
            assert((a + b).last() == '\n') by {
                if b.len() > 0 {
                    assert((a + b)[(a + b).len() - 1] == b[b.len() - 1]);
                }
            };
            assert(lines_of(a + b) =~= lines_of(a) + lines_of(b));
        } else {
            assert((a + b).last() == b.last());
            assert(lines_of(a + b) =~= lines_of(a) + lines_of(b));
        }
    }
}

/// Lines without line breaks, each followed by `\n`, are read back as those
/// lines.
pub proof fn lemma_lines_of_unlines(ls: Seq<Seq<char>>)
    requires
        forall|i: int| 0 <= i < ls.len() ==> plain_line(#[trigger] ls[i]),
    ensures
        lines_of(unlines(ls)) == ls,
        whole_lines(unlines(ls)),
    decreases ls.len(),
{
    if ls.len() == 0 {
        assert(split_on(Seq::<char>::empty(), '\n') =~= seq![Seq::<char>::empty()]);
        assert(lines_of(unlines(ls)) =~= ls);
        assert(!unlines(ls).contains('\r'));
    } else {
        let init = ls.drop_last();
        assert forall|i: int| 0 <= i < init.len() implies plain_line(#[trigger] init[i]) by {
            assert(init[i] == ls[i]);
        };
        lemma_lines_of_unlines(init);
        let l = ls.last();
        assert(plain_line(ls[ls.len() - 1]));
        let t = l.push('\n');
        lemma_lines_of_concat(unlines(init), t);
        assert(t =~= l + seq!['\n'] + Seq::<char>::empty());
        lemma_split_on_concat(l, Seq::<char>::empty(), '\n');
        assert(split_on(l, '\n') == seq![l]) by {
            crate::util::lemma_split_on_none(l, '\n');
        };
        assert(split_on(Seq::<char>::empty(), '\n') =~= seq![Seq::<char>::empty()]);
        assert(split_on(t, '\n') =~= seq![l, Seq::<char>::empty()]);
        assert(strip_cr(l) == l) by {
            if l.len() > 0 && l.last() == '\r' {
                assert(l[l.len() - 1] == '\r');
            }
        };
        assert(lines_of(t) =~= seq![l]);
        assert(lines_of(unlines(ls)) =~= ls);
        let u = unlines(ls);
        assert(!u.contains('\r')) by {
            if u.contains('\r') {
                let k = choose|k: int| 0 <= k < u.len() && u[k] == '\r';
                let ui = unlines(init);
                if k < ui.len() {
                    assert(ui[k] == '\r');
                } else if k < ui.len() + l.len() {
                    assert(l[k - ui.len()] == '\r');
                } else {
                    assert(u[k] == '\n');
                }
            }
        };
    }
}

/// The splitter run from a state over more lines.
pub open spec fn run(acc: Result<SplitAcc, SplitFailure>, lines: Seq<Seq<char>>) -> Result<
    SplitAcc,
    SplitFailure,
>
    decreases lines.len(),
{
    if lines.len() == 0 {
        acc
    } else {
        match run(acc, lines.drop_last()) {
            Err(e) => Err(e),
            Ok(a) => split_step(a, lines.last()),
        }
    }
}

pub open spec fn start_acc() -> SplitAcc {
    SplitAcc { phase: SplitPhase::BeforeSubject, messages: Seq::empty() }
}

proof fn lemma_split_lines_run(lines: Seq<Seq<char>>)
    ensures
        split_lines(lines) == run(Ok(start_acc()), lines),
    decreases lines.len(),
{
    if lines.len() > 0 {
        lemma_split_lines_run(lines.drop_last());
    }
}

proof fn lemma_run_concat(acc: Result<SplitAcc, SplitFailure>, a: Seq<Seq<char>>, b: Seq<Seq<char>>)
    ensures
        run(acc, a + b) == run(run(acc, a), b),
    decreases b.len(),
{
    if b.len() == 0 {
        assert(a + b =~= a);
    } else {
        lemma_run_concat(acc, a, b.drop_last());
        assert((a + b).drop_last() =~= a + b.drop_last());
        assert((a + b).last() == b.last());
    }
}

/// A line that is no `Topic:` or `Git-Toprepo-Ref:` footer.
pub open spec fn ordinary_line(l: Seq<char>) -> bool {
    !has_prefix(l, topic_prefix()) && !has_prefix(l, footer_prefix())
}

/// The splitter inside the text of a message, all of `t` read so far.
pub open spec fn text_phase(ph: SplitPhase, t: Seq<char>) -> bool {
    match ph {
        SplitPhase::Subject(m) => m == t,
        SplitPhase::Body(m) => m == t,
        SplitPhase::MaybeFooter { full_message, .. } => full_message == t,
        SplitPhase::ClosedFooter { full_message, .. } => full_message == t,
        _ => false,
    }
}

/// The splitter after the text `s` of a message and an empty line: the next
/// line starts a paragraph after `s`.
pub open spec fn ready(ph: SplitPhase, s: Seq<char>) -> bool {
    ||| ph == SplitPhase::MaybeFooter { subject_and_body: s, full_message: s, pending: no_footer_data() }
    ||| ph matches SplitPhase::ClosedFooter { full_message, .. } && full_message == s
}

/// The subject and body of a message as the law takes it: a non-empty first
/// line, ending with exactly one `\n`, whole lines without `\r`, and no
/// `Topic:` or `Git-Toprepo-Ref:` line.
pub open spec fn subject_ok(sab: Seq<char>) -> bool {
    &&& whole_lines(sab)
    &&& sab.len() > 0
    &&& sab[0] != '\n'
    &&& !(sab.len() >= 2 && sab[sab.len() - 2] == '\n')
    &&& forall|i: int| 0 <= i < lines_of(sab).len() ==> ordinary_line(#[trigger] lines_of(sab)[i])
}

proof fn lemma_ordinary_footer_step(s: Seq<char>, f: Seq<char>, p: FooterData, l: Seq<char>)
    requires
        ordinary_line(l),
    ensures
        footer_line_step(s, f, p, None, l) == Ok::<SplitPhase, SplitFailure>(
            if spec_is_footer_line(l) {
                SplitPhase::MaybeFooter {
                    subject_and_body: s,
                    full_message: f + l.push('\n'),
                    pending: FooterData { topic: p.topic, footer: p.footer + l.push('\n') },
                }
            } else {
                SplitPhase::Body(f + l.push('\n'))
            },
        ),
{
    assert(spec_footer_path(l) == Ok::<Option<Seq<char>>, ()>(None));
}

/// Reading the lines of a message's text from before its subject keeps the
/// messages found and ends inside the text.
proof fn lemma_run_subject(m: Seq<(Seq<u8>, crate::commit_message::PushMessageView)>, lines: Seq<Seq<char>>, k: int)
    requires
        1 <= k <= lines.len(),
        lines[0].len() > 0,
        forall|i: int| 0 <= i < lines.len() ==> ordinary_line(#[trigger] lines[i]),
    ensures
        run(Ok(SplitAcc { phase: SplitPhase::BeforeSubject, messages: m }), lines.take(k)) matches Ok(acc)
            && acc.messages == m && text_phase(acc.phase, unlines(lines.take(k))) && (
        lines[k - 1].len() > 0 ==> !(acc.phase is ClosedFooter)),
    decreases k,
{
    let a0 = SplitAcc { phase: SplitPhase::BeforeSubject, messages: m };
    let t = lines.take(k);
    assert(t.drop_last() =~= lines.take(k - 1));
    assert(t.last() == lines[k - 1]);
    if k == 1 {
        assert(t.drop_last() =~= Seq::<Seq<char>>::empty());
        assert(unlines(t.drop_last()) =~= Seq::<char>::empty());
        assert(unlines(t) =~= lines[0].push('\n'));
    } else {
        lemma_run_subject(m, lines, k - 1);
        let acc = run(Ok(a0), lines.take(k - 1))->Ok_0;
        let u = unlines(lines.take(k - 1));
        let l = lines[k - 1];
        assert(ordinary_line(lines[k - 1]));
        assert(unlines(t) == u + l.push('\n'));
        if l.len() == 0 {
            assert(u + l.push('\n') =~= u.push('\n'));
        } else {
            match acc.phase {
                SplitPhase::MaybeFooter { subject_and_body, full_message, pending } => {
                    lemma_ordinary_footer_step(subject_and_body, full_message, pending, l);
                },
                SplitPhase::ClosedFooter { full_message, .. } => {
                    lemma_ordinary_footer_step(full_message, full_message, no_footer_data(), l);
                },
                _ => {},
            }
        }
    }
}

/// Reading a message's text and the empty line after it leaves the splitter
/// ready for a paragraph after the text.
proof fn lemma_run_text(m: Seq<(Seq<u8>, crate::commit_message::PushMessageView)>, sab: Seq<char>)
    requires
        subject_ok(sab),
    ensures
        run(
            Ok(SplitAcc { phase: SplitPhase::BeforeSubject, messages: m }),
            lines_of(sab).push(Seq::empty()),
        ) matches Ok(acc) && acc.messages == m && ready(acc.phase, sab.push('\n')),
{
    let lines = lines_of(sab);
    lemma_text_lines(sab);
    let n = lines.len() as int;
    assert(n > 0) by {
        if n == 0 {
            assert(unlines(lines) =~= Seq::<char>::empty());
        }
    };
    assert(lines[0].len() > 0) by {
        if lines[0].len() == 0 {
            lemma_unlines_first(lines);
        }
    };
    assert(lines[n - 1].len() > 0) by {
        if lines[n - 1].len() == 0 {
            assert(sab == unlines(lines.drop_last()) + lines.last().push('\n'));
            if lines.drop_last().len() == 0 {
                assert(sab =~= seq!['\n']);
            } else {
                let u = unlines(lines.drop_last());
                assert(u == unlines(lines.drop_last().drop_last()) + lines.drop_last().last().push('\n'));
                assert(u.last() == '\n');
                assert(sab =~= u.push('\n'));
                assert(sab[sab.len() - 2] == u[u.len() - 1]);
            }
        }
    };
    lemma_run_subject(m, lines, n);
    assert(lines.take(n) =~= lines);
    let a0 = SplitAcc { phase: SplitPhase::BeforeSubject, messages: m };
    assert(lines.push(Seq::empty()).drop_last() =~= lines);
}

proof fn lemma_unlines_first(ls: Seq<Seq<char>>)
    requires
        ls.len() > 0,
    ensures
        unlines(ls)[0] == if ls[0].len() > 0 {
            ls[0][0]
        } else {
            '\n'
        },
        unlines(ls).len() > 0,
    decreases ls.len(),
{
    if ls.len() == 1 {
        assert(ls.drop_last() =~= Seq::<Seq<char>>::empty());
        assert(unlines(ls.drop_last()) =~= Seq::<char>::empty());
        assert(ls.last() == ls[0]);
        assert(unlines(ls) =~= ls[0].push('\n'));
    } else {
        lemma_unlines_first(ls.drop_last());
        assert(ls.drop_last()[0] == ls[0]);
    }
}

/// A path as the law takes it: valid UTF-8 that is shown as it decodes,
/// without white space, and not shown as `<top>`.
pub open spec fn path_ok(p: Seq<u8>) -> bool {
    &&& valid_utf8(p)
    &&& utf8_lossy(p) == decode_utf8(p)
    &&& forall|i: int| 0 <= i < decode_utf8(p).len() ==> !is_ws(#[trigger] decode_utf8(p)[i])
    &&& decode_utf8(p) != top_display_path()
}

/// A status as the law takes it: one line.
pub open spec fn status_ok(st: Seq<char>) -> bool {
    !st.contains('\n') && !st.contains('\r')
}

/// How the path of an entry is shown in its `Git-Toprepo-Ref` line.
pub open spec fn shown_path(p: Seq<u8>) -> Seq<char> {
    if p.len() == 0 {
        top_display_path()
    } else {
        decode_utf8(p)
    }
}

/// The `Git-Toprepo-Ref` line of an entry, without its `\n`.
pub open spec fn ref_line(e: EntryView) -> Seq<char> {
    "Git-Toprepo-Ref: "@ + shown_path(e.path) + " "@ + e.status
}

pub proof fn lemma_ref_line(e: EntryView)
    requires
        path_ok(e.path),
        status_ok(e.status),
    ensures
        toprepo_footer_line(e) == ref_line(e).push('\n'),
        plain_line(ref_line(e)),
        !has_prefix(ref_line(e), topic_prefix()),
        has_prefix(ref_line(e), footer_prefix()),
        spec_footer_path(ref_line(e)) matches Ok(Some(q)) && encode_utf8(q) == e.path,
{
    reveal_strlit("Git-Toprepo-Ref: ");
    reveal_strlit("Git-Toprepo-Ref:");
    reveal_strlit("Topic:");
    reveal_strlit("<top>");
    reveal_strlit(" ");
    let d = shown_path(e.path);
    let pre = "Git-Toprepo-Ref: "@;
    let l = ref_line(e);
    if e.path.len() == 0 {
        assert(utf8_lossy(e.path) == decode_utf8(e.path));
        assert(decode_utf8(e.path) =~= Seq::<char>::empty()) by {
            vstd::utf8::encode_utf8_decode_utf8(Seq::<char>::empty());
            assert(encode_utf8(Seq::<char>::empty()) =~= e.path);
        };
        assert(toprepo_footer_line(e) =~= l.push('\n'));
    } else {
        assert(toprepo_footer_line(e) =~= l.push('\n'));
    }
    assert(d.len() > 0) by {
        if e.path.len() > 0 {
            vstd::utf8::decode_utf8_encode_utf8(e.path);
            if d.len() == 0 {
                assert(encode_utf8(d) =~= Seq::<u8>::empty());
            }
        }
    };
    assert(forall|i: int| 0 <= i < d.len() ==> !is_ws(#[trigger] d[i])) by {
        if e.path.len() == 0 {
            assert forall|i: int| 0 <= i < d.len() implies !is_ws(#[trigger] d[i]) by {
                assert(d == seq!['<', 't', 'o', 'p', '>']);
            };
        }
    };
    assert(plain_line(l)) by {
        if l.contains('\n') || l.contains('\r') {
            let k = choose|k: int| 0 <= k < l.len() && (l[k] == '\n' || l[k] == '\r');
            if k < 17 {
                assert(l[k] == pre[k]);
            } else if k < 17 + d.len() {
                assert(l[k] == d[k - 17]);
                assert(!is_ws(d[k - 17]));
            } else if k == 17 + d.len() {
                assert(l[k] == ' ');
            } else {
                assert(l[k] == e.status[k - 18 - d.len()]);
                assert(e.status.contains(l[k]));
            }
        }
    };
    assert(l[0] == 'G');
    assert(!has_prefix(l, topic_prefix())) by {
        if has_prefix(l, topic_prefix()) {
            assert(l.subrange(0, 6)[0] == topic_prefix()[0]);
        }
    };
    assert(l.subrange(0, 16) =~= footer_prefix());
    let rest = l.skip(16);
    assert(rest =~= seq![' '] + d + " "@ + e.status);
    lemma_ws_prefix_unique(rest, 1);
    let value = crate::text::trim_start(rest);
    assert(value =~= d + " "@ + e.status);
    lemma_non_ws_prefix_unique(value, d.len());
    assert(value.take(d.len() as int) =~= d);
    if e.path.len() == 0 {
        assert(encode_utf8(Seq::<char>::empty()) =~= e.path);
    } else {
        vstd::utf8::decode_utf8_encode_utf8(e.path);
    }
}

/// A footer as the law takes it: whole lines without `\r`, each a footer
/// line that is no `Topic:` or `Git-Toprepo-Ref:` line.
pub open spec fn footer_ok(f: Seq<char>) -> bool {
    &&& whole_lines(f)
    &&& forall|i: int|
        0 <= i < lines_of(f).len() ==> spec_is_footer_line(#[trigger] lines_of(f)[i]) && ordinary_line(
            lines_of(f)[i],
        )
}

/// The splitter inside a footer paragraph after the text `s`: the paths
/// found so far, if any, and the footer data pending.
pub open spec fn para(ph: SplitPhase, s: Seq<char>, paths: Option<Seq<(Seq<u8>, FooterData)>>, pending: FooterData) -> bool {
    match ph {
        SplitPhase::MaybeFooter { subject_and_body, pending: p, .. } => paths is None && subject_and_body
            == s && p == pending,
        SplitPhase::ToprepoFooter { subject_and_body, pending: p, paths: ps, .. } => paths == Some(ps)
            && subject_and_body == s && p == pending,
        _ => false,
    }
}

pub open spec fn footer_data(f: Seq<char>) -> FooterData {
    FooterData { topic: None, footer: f }
}

/// The paths after one more `Git-Toprepo-Ref` line.
pub open spec fn add_path(paths: Option<Seq<(Seq<u8>, FooterData)>>, pending: FooterData, p: Seq<u8>) -> Seq<
    (Seq<u8>, FooterData),
> {
    match paths {
        None => seq![(p, pending)],
        Some(ps) => ps.push(
            (
                p,
                if pending.topic is None && pending.footer.len() == 0 {
                    ps.last().1
                } else {
                    pending
                },
            ),
        ),
    }
}

proof fn lemma_footer_lines_step(
    m: Seq<(Seq<u8>, crate::commit_message::PushMessageView)>,
    ph: SplitPhase,
    s: Seq<char>,
    paths: Option<Seq<(Seq<u8>, FooterData)>>,
    pending: FooterData,
    f: Seq<char>,
    k: int,
)
    requires
        para(ph, s, paths, pending),
        pending.topic is None,
        footer_ok(f),
        0 <= k <= lines_of(f).len(),
    ensures
        run(Ok(SplitAcc { phase: ph, messages: m }), lines_of(f).take(k)) matches Ok(acc) && acc.messages
            == m && para(acc.phase, s, paths, footer_data(pending.footer + unlines(lines_of(f).take(k)))),
    decreases k,
{
    let ls = lines_of(f);
    if k == 0 {
        assert(ls.take(0) =~= Seq::<Seq<char>>::empty());
        assert(pending.footer + unlines(ls.take(0)) =~= pending.footer);
    } else {
        lemma_footer_lines_step(m, ph, s, paths, pending, f, k - 1);
        assert(ls.take(k).drop_last() =~= ls.take(k - 1));
        assert(ls.take(k).last() == ls[k - 1]);
        let acc = run(Ok(SplitAcc { phase: ph, messages: m }), ls.take(k - 1))->Ok_0;
        let l = ls[k - 1];
        assert(spec_is_footer_line(l) && ordinary_line(l));
        assert(spec_footer_path(l) == Ok::<Option<Seq<char>>, ()>(None));
        assert(l.len() > 0) by {
            let idx = choose|idx: int|
                0 < idx < l.len() && l[idx] == ':' && forall|j: int| 0 <= j < idx ==> crate::commit_message::is_footer_key_char(#[trigger] l[j]);
        };
        assert(pending.footer + unlines(ls.take(k)) =~= pending.footer + unlines(ls.take(k - 1)) + l.push('\n'));
    }
}

/// Reading a footer adds it to the pending footer.
proof fn lemma_footer_lines(
    m: Seq<(Seq<u8>, crate::commit_message::PushMessageView)>,
    ph: SplitPhase,
    s: Seq<char>,
    paths: Option<Seq<(Seq<u8>, FooterData)>>,
    pending: FooterData,
    f: Seq<char>,
)
    requires
        para(ph, s, paths, pending),
        pending.topic is None,
        footer_ok(f),
    ensures
        run(Ok(SplitAcc { phase: ph, messages: m }), lines_of(f)) matches Ok(acc) && acc.messages == m
            && para(acc.phase, s, paths, footer_data(pending.footer + f)),
{
    lemma_footer_lines_step(m, ph, s, paths, pending, f, lines_of(f).len() as int);
    assert(lines_of(f).take(lines_of(f).len() as int) =~= lines_of(f));
    lemma_text_lines(f);
}

/// Reading a `Git-Toprepo-Ref` line records its path.
proof fn lemma_ref_line_step(
    m: Seq<(Seq<u8>, crate::commit_message::PushMessageView)>,
    ph: SplitPhase,
    s: Seq<char>,
    paths: Option<Seq<(Seq<u8>, FooterData)>>,
    pending: FooterData,
    e: EntryView,
)
    requires
        para(ph, s, paths, pending),
        path_ok(e.path),
        status_ok(e.status),
    ensures
        split_step(SplitAcc { phase: ph, messages: m }, ref_line(e)) matches Ok(acc) && acc.messages
            == m && para(acc.phase, s, Some(add_path(paths, pending, e.path)), no_footer_data()),
{
    lemma_ref_line(e);
    assert(ref_line(e).len() > 0) by {
        assert(has_prefix(ref_line(e), footer_prefix()));
        reveal_strlit("Git-Toprepo-Ref:");
    };
}

/// An entry as the law takes it.
pub open spec fn entry_ok(e: EntryView) -> bool {
    path_ok(e.path) && status_ok(e.status)
}

pub open spec fn ref_lines(es: Seq<EntryView>) -> Seq<Seq<char>> {
    es.map_values(|e: EntryView| ref_line(e))
}

proof fn lemma_ref_lines_text(es: Seq<EntryView>)
    requires
        forall|i: int| 0 <= i < es.len() ==> entry_ok(#[trigger] es[i]),
    ensures
        unlines(ref_lines(es)) == toprepo_footer_lines(es),
        lines_of(toprepo_footer_lines(es)) == ref_lines(es),
        whole_lines(toprepo_footer_lines(es)),
    decreases es.len(),
{
    if es.len() > 0 {
        let init = es.drop_last();
        assert forall|i: int| 0 <= i < init.len() implies entry_ok(#[trigger] init[i]) by {
            assert(init[i] == es[i]);
        };
        lemma_ref_lines_text(init);
        assert(entry_ok(es[es.len() - 1]));
        lemma_ref_line(es.last());
        assert(ref_lines(es).drop_last() =~= ref_lines(init));
        assert(ref_lines(es).last() == ref_line(es.last()));
    } else {
        assert(unlines(ref_lines(es)) =~= toprepo_footer_lines(es));
    }
    assert forall|i: int| 0 <= i < ref_lines(es).len() implies plain_line(#[trigger] ref_lines(es)[i]) by {
        assert(entry_ok(es[i]));
        lemma_ref_line(es[i]);
    };
    lemma_lines_of_unlines(ref_lines(es));
}

pub open spec fn paths_of(es: Seq<EntryView>, f: Seq<char>) -> Seq<(Seq<u8>, FooterData)> {
    es.map_values(|e: EntryView| (e.path, footer_data(f)))
}

pub open spec fn base_paths(paths: Option<Seq<(Seq<u8>, FooterData)>>) -> Seq<(Seq<u8>, FooterData)> {
    match paths {
        None => Seq::empty(),
        Some(ps) => ps,
    }
}

proof fn lemma_ref_lines_run(
    m: Seq<(Seq<u8>, crate::commit_message::PushMessageView)>,
    ph: SplitPhase,
    s: Seq<char>,
    paths: Option<Seq<(Seq<u8>, FooterData)>>,
    f: Seq<char>,
    es: Seq<EntryView>,
    j: int,
)
    requires
        para(ph, s, paths, footer_data(f)),
        forall|i: int| 0 <= i < es.len() ==> entry_ok(#[trigger] es[i]),
        1 <= j <= es.len(),
        paths matches Some(ps) ==> ps.len() > 0,
        f.len() == 0 ==> (paths is None || paths->0.last().1 == footer_data(Seq::empty())),
    ensures
        run(Ok(SplitAcc { phase: ph, messages: m }), ref_lines(es).take(j)) matches Ok(acc) && acc.messages
            == m && para(
            acc.phase,
            s,
            Some(base_paths(paths) + paths_of(es.take(j), f)),
            no_footer_data(),
        ),
    decreases j,
{
    let rl = ref_lines(es);
    assert(rl.take(j).drop_last() =~= rl.take(j - 1));
    assert(rl.take(j).last() == ref_line(es[j - 1]));
    assert(entry_ok(es[j - 1]));
    if j == 1 {
        assert(rl.take(0) =~= Seq::<Seq<char>>::empty());
        lemma_ref_line_step(m, ph, s, paths, footer_data(f), es[0]);
        assert(base_paths(paths) + paths_of(es.take(1), f) =~= add_path(paths, footer_data(f), es[0].path));
    } else {
        lemma_ref_lines_run(m, ph, s, paths, f, es, j - 1);
        let acc = run(Ok(SplitAcc { phase: ph, messages: m }), rl.take(j - 1))->Ok_0;
        let ps = base_paths(paths) + paths_of(es.take(j - 1), f);
        lemma_ref_line_step(m, acc.phase, s, Some(ps), no_footer_data(), es[j - 1]);
        assert(ps.last() == (es[j - 2].path, footer_data(f)));
        assert(base_paths(paths) + paths_of(es.take(j), f) =~= add_path(
            Some(ps),
            no_footer_data(),
            es[j - 1].path,
        ));
    }
}

/// A block of a footer paragraph: a footer, and the entries that carry it.
pub type Block = (Seq<char>, Seq<EntryView>);

pub open spec fn block_lines(b: Block) -> Seq<Seq<char>> {
    lines_of(b.0) + ref_lines(b.1)
}

/// Reading a block records the paths of its entries with its footer.
proof fn lemma_block_run(
    m: Seq<(Seq<u8>, crate::commit_message::PushMessageView)>,
    ph: SplitPhase,
    s: Seq<char>,
    paths: Option<Seq<(Seq<u8>, FooterData)>>,
    b: Block,
)
    requires
        para(ph, s, paths, no_footer_data()),
        footer_ok(b.0),
        b.1.len() > 0,
        forall|i: int| 0 <= i < b.1.len() ==> entry_ok(#[trigger] b.1[i]),
        paths matches Some(ps) ==> ps.len() > 0,
        b.0.len() == 0 ==> (paths is None || paths->0.last().1 == footer_data(Seq::empty())),
    ensures
        run(Ok(SplitAcc { phase: ph, messages: m }), block_lines(b)) matches Ok(acc) && acc.messages
            == m && para(acc.phase, s, Some(base_paths(paths) + paths_of(b.1, b.0)), no_footer_data()),
{
    lemma_footer_lines(m, ph, s, paths, no_footer_data(), b.0);
    let acc = run(Ok(SplitAcc { phase: ph, messages: m }), lines_of(b.0))->Ok_0;
    assert(no_footer_data().footer + b.0 =~= b.0);
    lemma_ref_lines_run(m, acc.phase, s, paths, b.0, b.1, b.1.len() as int);
    assert(ref_lines(b.1).take(b.1.len() as int) =~= ref_lines(b.1));
    assert(b.1.take(b.1.len() as int) =~= b.1);
    lemma_run_concat(Ok(SplitAcc { phase: ph, messages: m }), lines_of(b.0), ref_lines(b.1));
}

pub open spec fn blocks_lines(bs: Seq<Block>) -> Seq<Seq<char>>
    decreases bs.len(),
{
    if bs.len() == 0 {
        Seq::empty()
    } else {
        blocks_lines(bs.drop_last()) + block_lines(bs.last())
    }
}

pub open spec fn blocks_text(bs: Seq<Block>) -> Seq<char>
    decreases bs.len(),
{
    if bs.len() == 0 {
        Seq::empty()
    } else {
        blocks_text(bs.drop_last()) + bs.last().0 + toprepo_footer_lines(bs.last().1)
    }
}

pub open spec fn blocks_paths(bs: Seq<Block>) -> Seq<(Seq<u8>, FooterData)>
    decreases bs.len(),
{
    if bs.len() == 0 {
        Seq::empty()
    } else {
        blocks_paths(bs.drop_last()) + paths_of(bs.last().1, bs.last().0)
    }
}

/// The blocks of a footer paragraph as a combined message has them: valid
/// footers and entries, no block without entries, and the blocks without
/// footer first.
pub open spec fn blocks_ok(bs: Seq<Block>) -> bool {
    &&& forall|i: int| #![trigger bs[i]] 0 <= i < bs.len() ==> footer_ok(bs[i].0) && bs[i].1.len() > 0
    &&& forall|i: int, k: int| 0 <= i < bs.len() && 0 <= k < bs[i].1.len() ==> entry_ok(#[trigger] bs[i].1[k])
    &&& forall|i: int, j: int| #![trigger bs[i], bs[j]] 0 <= i < j < bs.len() && bs[j].0.len() == 0 ==> bs[i].0.len() == 0
}

proof fn lemma_blocks_ok_init(bs: Seq<Block>)
    requires
        blocks_ok(bs),
        bs.len() > 0,
    ensures
        blocks_ok(bs.drop_last()),
        footer_ok(bs.last().0),
        bs.last().1.len() > 0,
        forall|k: int| 0 <= k < bs.last().1.len() ==> entry_ok(#[trigger] bs.last().1[k]),
{
    let d = bs.drop_last();
    assert forall|i: int| #![trigger d[i]] 0 <= i < d.len() implies footer_ok(d[i].0) && d[i].1.len() > 0 by {
        assert(d[i] == bs[i]);
        assert(footer_ok(bs[i].0) && bs[i].1.len() > 0);
    };
    assert forall|i: int, k: int| 0 <= i < d.len() && 0 <= k < d[i].1.len() implies entry_ok(#[trigger] d[i].1[k]) by {
        assert(d[i] == bs[i]);
        assert(entry_ok(bs[i].1[k]));
    };
    assert forall|i: int, j: int| #![trigger d[i], d[j]] 0 <= i < j < d.len() && d[j].0.len() == 0 implies d[i].0.len() == 0 by {
        assert(d[i] == bs[i] && d[j] == bs[j]);
    };
    assert(footer_ok(bs[bs.len() - 1].0) && bs[bs.len() - 1].1.len() > 0);
    assert forall|k: int| 0 <= k < bs.last().1.len() implies entry_ok(#[trigger] bs.last().1[k]) by {
        assert(entry_ok(bs[bs.len() - 1].1[k]));
    };
}

/// The text of the blocks is read as their lines, none of them empty.
proof fn lemma_blocks_text(bs: Seq<Block>)
    requires
        blocks_ok(bs),
    ensures
        lines_of(blocks_text(bs)) == blocks_lines(bs),
        whole_lines(blocks_text(bs)),
        forall|i: int| 0 <= i < blocks_lines(bs).len() ==> (#[trigger] blocks_lines(bs)[i]).len() > 0,
    decreases bs.len(),
{
    if bs.len() == 0 {
        assert(split_on(Seq::<char>::empty(), '\n') =~= seq![Seq::<char>::empty()]);
        assert(lines_of(blocks_text(bs)) =~= blocks_lines(bs));
        assert(!blocks_text(bs).contains('\r'));
    } else {
        lemma_blocks_ok_init(bs);
        lemma_blocks_text(bs.drop_last());
        let a = blocks_text(bs.drop_last());
        let f = bs.last().0;
        let es = bs.last().1;
        let t = toprepo_footer_lines(es);
        lemma_ref_lines_text(es);
        lemma_text_lines(f);
        lemma_lines_of_concat(a, f);
        lemma_whole_concat(a, f);
        lemma_lines_of_concat(a + f, t);
        lemma_whole_concat(a + f, t);
        let bl = blocks_lines(bs);
        let b0 = blocks_lines(bs.drop_last());
        assert(bl == b0 + (lines_of(f) + ref_lines(es)));
        assert forall|i: int| 0 <= i < bl.len() implies (#[trigger] bl[i]).len() > 0 by {
            if i < b0.len() {
                assert(bl[i] == b0[i]);
            } else if i < b0.len() + lines_of(f).len() {
                let l = lines_of(f)[i - b0.len()];
                assert(bl[i] == l);
                assert(spec_is_footer_line(l));
                let idx = choose|idx: int|
                    0 < idx < l.len() && l[idx] == ':' && forall|j: int| 0 <= j < idx ==> crate::commit_message::is_footer_key_char(#[trigger] l[j]);
            } else {
                let k = i - b0.len() - lines_of(f).len();
                assert(bl[i] == ref_lines(es)[k]);
                assert(entry_ok(es[k]));
                lemma_ref_line(es[k]);
                reveal_strlit("Git-Toprepo-Ref:");
            }
        };
    }
}

/// Whole lines followed by whole lines are whole lines.
proof fn lemma_whole_concat(a: Seq<char>, b: Seq<char>)
    requires
        whole_lines(a),
        whole_lines(b),
    ensures
        whole_lines(a + b),
{
    if (a + b).contains('\r') {
        let k = choose|k: int| 0 <= k < (a + b).len() && (a + b)[k] == '\r';
        if k < a.len() {
            assert(a[k] == '\r');
        } else {
            assert(b[k - a.len()] == '\r');
        }
    }
    if b.len() > 0 {
        assert((a + b).last() == b.last());
    } else {
        assert(a + b =~= a);
    }
}

/// Reading the blocks of a footer paragraph records their paths.
proof fn lemma_blocks_run(m: Seq<(Seq<u8>, PushMessageView)>, ph: SplitPhase, s: Seq<char>, bs: Seq<Block>)
    requires
        para(ph, s, None, no_footer_data()),
        blocks_ok(bs),
        bs.len() > 0,
    ensures
        run(Ok(SplitAcc { phase: ph, messages: m }), blocks_lines(bs)) matches Ok(acc) && acc.messages
            == m && para(acc.phase, s, Some(blocks_paths(bs)), no_footer_data()),
        blocks_paths(bs).len() > 0,
        blocks_paths(bs).last().1 == footer_data(bs.last().0),
    decreases bs.len(),
{
    lemma_blocks_ok_init(bs);
    let b = bs.last();
    let d = bs.drop_last();
    let a0 = SplitAcc { phase: ph, messages: m };
    if d.len() == 0 {
        lemma_block_run(m, ph, s, None, b);
        assert(blocks_lines(d) =~= Seq::<Seq<char>>::empty());
        assert(blocks_lines(bs) =~= block_lines(b));
        assert(blocks_paths(d) =~= Seq::<(Seq<u8>, FooterData)>::empty());
        assert(blocks_paths(bs) =~= base_paths(None) + paths_of(b.1, b.0));
    } else {
        lemma_blocks_run(m, ph, s, d);
        let acc = run(Ok(a0), blocks_lines(d))->Ok_0;
        if b.0.len() == 0 {
            assert(d.last() == bs[bs.len() - 2]);
            assert(bs[bs.len() - 1].0.len() == 0);
            assert(bs[bs.len() - 2].0.len() == 0);
            assert(d.last().0 =~= Seq::<char>::empty());
        }
        lemma_block_run(m, acc.phase, s, Some(blocks_paths(d)), b);
        lemma_run_concat(Ok(a0), blocks_lines(d), block_lines(b));
    }
    assert(b.1.len() > 0);
    let po = paths_of(b.1, b.0);
    assert(blocks_paths(bs).last() == po.last());
}

pub open spec fn messages_of(sab: Seq<char>, ps: Seq<(Seq<u8>, FooterData)>) -> Seq<(Seq<u8>, PushMessageView)> {
    ps.map_values(
        |x: (Seq<u8>, FooterData)|
            (x.0, PushMessageView { subject_and_body: sab, footer: x.1.footer, topic: x.1.topic }),
    )
}

pub open spec fn fresh_paths(m: Seq<(Seq<u8>, PushMessageView)>, ps: Seq<(Seq<u8>, FooterData)>) -> bool {
    &&& forall|i: int, j: int| 0 <= i < j < ps.len() ==> (#[trigger] ps[i]).0 != (#[trigger] ps[j]).0
    &&& forall|i: int, k: int| 0 <= i < ps.len() && 0 <= k < m.len() ==> (#[trigger] ps[i]).0 != (#[trigger] m[k]).0
}

proof fn lemma_insert_paths(m: Seq<(Seq<u8>, PushMessageView)>, ps: Seq<(Seq<u8>, FooterData)>, sab: Seq<char>)
    requires
        fresh_paths(m, ps),
        forall|i: int| 0 <= i < ps.len() ==> (#[trigger] ps[i]).1.topic is None,
    ensures
        insert_paths(m, ps, no_footer_data(), sab) == Ok::<Seq<(Seq<u8>, PushMessageView)>, SplitFailure>(
            m + messages_of(sab, ps),
        ),
    decreases ps.len(),
{
    if ps.len() > 0 {
        let d = ps.drop_last();
        assert forall|i: int, j: int| 0 <= i < j < d.len() implies (#[trigger] d[i]).0 != (#[trigger] d[j]).0 by {
            assert(d[i] == ps[i] && d[j] == ps[j]);
        };
        assert forall|i: int, k: int| 0 <= i < d.len() && 0 <= k < m.len() implies (#[trigger] d[i]).0 != (#[trigger] m[k]).0 by {
            assert(d[i] == ps[i]);
        };
        assert forall|i: int| 0 <= i < d.len() implies (#[trigger] d[i]).1.topic is None by {
            assert(d[i] == ps[i]);
        };
        lemma_insert_paths(m, d, sab);
        let x = ps.last();
        assert(x == ps[ps.len() - 1]);
        let mm = m + messages_of(sab, d);
        assert(!has_path(mm, x.0)) by {
            if has_path(mm, x.0) {
                let k = choose|k: int| 0 <= k < mm.len() && (#[trigger] mm[k]).0 == x.0;
                if k < m.len() {
                    assert(mm[k] == m[k]);
                } else {
                    assert(mm[k].0 == d[k - m.len()].0);
                    assert(d[k - m.len()] == ps[k - m.len()]);
                }
            }
        };
        assert(x.1.footer + no_footer_data().footer =~= x.1.footer);
        assert(m + messages_of(sab, ps) =~= mm.push(
            (x.0, PushMessageView { subject_and_body: sab, footer: x.1.footer, topic: x.1.topic }),
        ));
    } else {
        assert(m + messages_of(sab, ps) =~= m);
    }
}

proof fn lemma_ready_switch(ph: SplitPhase, sv: Seq<char>, m: Seq<(Seq<u8>, PushMessageView)>, lines: Seq<Seq<char>>)
    requires
        ready(ph, sv),
        lines.len() > 0,
        lines[0].len() > 0,
    ensures
        run(Ok(SplitAcc { phase: ph, messages: m }), lines) == run(
            Ok(
                SplitAcc {
                    phase: SplitPhase::MaybeFooter { subject_and_body: sv, full_message: sv, pending: no_footer_data() },
                    messages: m,
                },
            ),
            lines,
        ),
    decreases lines.len(),
{
    if lines.len() == 1 {
        assert(lines.drop_last() =~= Seq::<Seq<char>>::empty());
        assert(lines.last() == lines[0]);
    } else {
        assert(lines.drop_last()[0] == lines[0]);
        lemma_ready_switch(ph, sv, m, lines.drop_last());
    }
}

proof fn lemma_blocks_paths_topics(bs: Seq<Block>)
    ensures
        forall|i: int| 0 <= i < blocks_paths(bs).len() ==> (#[trigger] blocks_paths(bs)[i]).1.topic is None,
    decreases bs.len(),
{
    if bs.len() > 0 {
        lemma_blocks_paths_topics(bs.drop_last());
        let a = blocks_paths(bs.drop_last());
        let b = paths_of(bs.last().1, bs.last().0);
        assert forall|i: int| 0 <= i < blocks_paths(bs).len() implies (#[trigger] blocks_paths(bs)[i]).1.topic is None by {
            if i < a.len() {
                assert(blocks_paths(bs)[i] == a[i]);
            } else {
                assert(blocks_paths(bs)[i] == b[i - a.len()]);
            }
        };
    }
}

proof fn lemma_trim_subject(sab: Seq<char>)
    requires
        subject_ok(sab),
    ensures
        trim_double_newline(sab.push('\n')) == sab,
{
    let t = sab.push('\n');
    assert(sab.len() >= 2) by {
        if sab.len() < 2 {
            assert(sab[0] == sab.last());
        }
    };
    assert(t.drop_last() =~= sab);
    assert(t[t.len() - 2] == sab.last());
    assert(trim_double_newline(t) == trim_double_newline(sab));
    assert(!(sab.len() >= 2 && sab[sab.len() - 1] == '\n' && sab[sab.len() - 2] == '\n'));
}

/// The text of a message group: its subject and body, an empty line, and
/// its footer paragraph.
pub open spec fn group_text(sab: Seq<char>, bs: Seq<Block>) -> Seq<char> {
    sab.push('\n') + blocks_text(bs)
}

/// Reading a message group and the empty line after it adds one message per
/// path of its footer paragraph.
proof fn lemma_group_run(m: Seq<(Seq<u8>, PushMessageView)>, sab: Seq<char>, bs: Seq<Block>)
    requires
        subject_ok(sab),
        blocks_ok(bs),
        bs.len() > 0,
        fresh_paths(m, blocks_paths(bs)),
    ensures
        lines_of(group_text(sab, bs).push('\n')) == lines_of(sab).push(Seq::empty()) + blocks_lines(bs)
            + seq![Seq::<char>::empty()],
        run(
            Ok(SplitAcc { phase: SplitPhase::BeforeSubject, messages: m }),
            lines_of(group_text(sab, bs).push('\n')),
        ) == Ok::<SplitAcc, SplitFailure>(
            SplitAcc { phase: SplitPhase::BeforeSubject, messages: m + messages_of(sab, blocks_paths(bs)) },
        ),
{
    let nl = seq![Seq::<char>::empty()];
    assert(unlines(nl) =~= seq!['\n']) by {
        assert(nl.drop_last() =~= Seq::<Seq<char>>::empty());
        assert(unlines(nl.drop_last()) =~= Seq::<char>::empty());
        assert(nl.last() =~= Seq::<char>::empty());
    };
    assert forall|i: int| 0 <= i < nl.len() implies plain_line(#[trigger] nl[i]) by {};
    lemma_lines_of_unlines(nl);
    lemma_text_lines(sab);
    assert(sab.push('\n') =~= sab + seq!['\n']);
    lemma_lines_of_concat(sab, seq!['\n']);
    assert(lines_of(sab.push('\n')) =~= lines_of(sab).push(Seq::empty()));
    lemma_blocks_text(bs);
    lemma_lines_of_concat(sab.push('\n'), blocks_text(bs));
    let g = group_text(sab, bs);
    assert(g.last() == '\n') by {
        assert(blocks_lines(bs).len() > 0) by {
            lemma_blocks_ok_init(bs);
            assert(blocks_lines(bs) == blocks_lines(bs.drop_last()) + block_lines(bs.last()));
            assert(ref_lines(bs.last().1).len() > 0);
        };
        if blocks_text(bs).len() == 0 {
            assert(split_on(Seq::<char>::empty(), '\n') =~= seq![Seq::<char>::empty()]);
            assert(lines_of(blocks_text(bs)) =~= Seq::<Seq<char>>::empty());
        }
        assert(g.last() == blocks_text(bs).last());
    };
    assert(g.push('\n') =~= g + seq!['\n']);
    lemma_lines_of_concat(g, seq!['\n']);
    let lines_sab = lines_of(sab).push(Seq::empty());
    let bl = blocks_lines(bs);
    assert(lines_of(g.push('\n')) =~= lines_sab + bl + nl);
    let a0 = SplitAcc { phase: SplitPhase::BeforeSubject, messages: m };
    lemma_run_text(m, sab);
    let a1 = run(Ok(a0), lines_sab)->Ok_0;
    let sv = sab.push('\n');
    let mf = SplitAcc {
        phase: SplitPhase::MaybeFooter { subject_and_body: sv, full_message: sv, pending: no_footer_data() },
        messages: m,
    };
    assert(bl[0].len() > 0);
    lemma_ready_switch(a1.phase, sv, m, bl);
    lemma_blocks_run(m, mf.phase, sv, bs);
    let a2 = run(Ok(mf), bl)->Ok_0;
    lemma_run_concat(Ok(a0), lines_sab, bl);
    lemma_run_concat(Ok(a0), lines_sab + bl, nl);
    assert(nl.drop_last() =~= Seq::<Seq<char>>::empty());
    lemma_blocks_paths_topics(bs);
    lemma_insert_paths(m, blocks_paths(bs), sab);
    lemma_trim_subject(sab);
    assert(run(Ok(a0), lines_sab) == Ok::<SplitAcc, SplitFailure>(a1));
    assert(run(Ok(a0), lines_sab + bl) == Ok::<SplitAcc, SplitFailure>(a2));
    assert(a2.phase matches SplitPhase::ToprepoFooter { subject_and_body, pending, paths, .. }
        && subject_and_body == sv && pending == no_footer_data() && paths == blocks_paths(bs));
    assert(nl.last() == Seq::<char>::empty());
    assert(nl.drop_last() =~= Seq::<Seq<char>>::empty());
    assert(run(Ok::<SplitAcc, SplitFailure>(a2), nl.drop_last()) == Ok::<SplitAcc, SplitFailure>(a2));
    assert(run(Ok(a2), nl) == split_step(a2, Seq::<char>::empty()));
}

/// A message group: a subject and body, and the blocks of its footer
/// paragraph.
pub type Group = (Seq<char>, Seq<Block>);

pub open spec fn group_texts(gs: Seq<Group>) -> Seq<Seq<char>> {
    gs.map_values(|g: Group| group_text(g.0, g.1))
}

pub open spec fn all_paths(gs: Seq<Group>) -> Seq<(Seq<u8>, FooterData)>
    decreases gs.len(),
{
    if gs.len() == 0 {
        Seq::empty()
    } else {
        all_paths(gs.drop_last()) + blocks_paths(gs.last().1)
    }
}

pub open spec fn all_messages(gs: Seq<Group>) -> Seq<(Seq<u8>, PushMessageView)>
    decreases gs.len(),
{
    if gs.len() == 0 {
        Seq::empty()
    } else {
        all_messages(gs.drop_last()) + messages_of(gs.last().0, blocks_paths(gs.last().1))
    }
}

pub open spec fn groups_lines(gs: Seq<Group>) -> Seq<Seq<char>>
    decreases gs.len(),
{
    if gs.len() == 0 {
        Seq::empty()
    } else {
        groups_lines(gs.drop_last()) + lines_of(group_text(gs.last().0, gs.last().1).push('\n'))
    }
}

/// Message groups as a combined message has them, their paths all different.
pub open spec fn groups_ok(gs: Seq<Group>) -> bool {
    &&& forall|i: int| #![trigger gs[i]] 0 <= i < gs.len() ==> subject_ok(gs[i].0) && blocks_ok(gs[i].1)
        && gs[i].1.len() > 0
    &&& forall|i: int, j: int|
        0 <= i < j < all_paths(gs).len() ==> (#[trigger] all_paths(gs)[i]).0 != (#[trigger] all_paths(gs)[j]).0
}

proof fn lemma_all_messages_paths(gs: Seq<Group>)
    ensures
        all_messages(gs).len() == all_paths(gs).len(),
        forall|i: int| 0 <= i < all_messages(gs).len() ==> (#[trigger] all_messages(gs)[i]).0 == all_paths(gs)[i].0,
    decreases gs.len(),
{
    if gs.len() > 0 {
        lemma_all_messages_paths(gs.drop_last());
        let a = all_messages(gs.drop_last());
        let b = messages_of(gs.last().0, blocks_paths(gs.last().1));
        let pa = all_paths(gs.drop_last());
        let pb = blocks_paths(gs.last().1);
        assert forall|i: int| 0 <= i < all_messages(gs).len() implies (#[trigger] all_messages(gs)[i]).0 == all_paths(gs)[i].0 by {
            if i < a.len() {
                assert(all_messages(gs)[i] == a[i]);
                assert(all_paths(gs)[i] == pa[i]);
            } else {
                assert(all_messages(gs)[i] == b[i - a.len()]);
                assert(all_paths(gs)[i] == pb[i - a.len()]);
            }
        };
    }
}

proof fn lemma_groups_run(gs: Seq<Group>)
    requires
        groups_ok(gs),
    ensures
        run(Ok(start_acc()), groups_lines(gs)) == Ok::<SplitAcc, SplitFailure>(
            SplitAcc { phase: SplitPhase::BeforeSubject, messages: all_messages(gs) },
        ),
    decreases gs.len(),
{
    if gs.len() > 0 {
        let d = gs.drop_last();
        let g = gs.last();
        assert forall|i: int| #![trigger d[i]] 0 <= i < d.len() implies subject_ok(d[i].0) && blocks_ok(d[i].1)
            && d[i].1.len() > 0 by {
            assert(d[i] == gs[i]);
        };
        let pd = all_paths(d);
        let pg = blocks_paths(g.1);
        assert(all_paths(gs) == pd + pg);
        assert forall|i: int, j: int| 0 <= i < j < pd.len() implies (#[trigger] pd[i]).0 != (#[trigger] pd[j]).0 by {
            assert(all_paths(gs)[i] == pd[i] && all_paths(gs)[j] == pd[j]);
        };
        lemma_groups_run(d);
        lemma_all_messages_paths(d);
        let md = all_messages(d);
        assert(subject_ok(gs[gs.len() - 1].0) && blocks_ok(gs[gs.len() - 1].1) && gs[gs.len() - 1].1.len() > 0);
        assert(fresh_paths(md, pg)) by {
            assert forall|i: int, j: int| 0 <= i < j < pg.len() implies (#[trigger] pg[i]).0 != (#[trigger] pg[j]).0 by {
                assert(all_paths(gs)[pd.len() + i] == pg[i] && all_paths(gs)[pd.len() + j] == pg[j]);
            };
            assert forall|i: int, k: int| 0 <= i < pg.len() && 0 <= k < md.len() implies (#[trigger] pg[i]).0 != (#[trigger] md[k]).0 by {
                assert(md[k].0 == pd[k].0);
                assert(all_paths(gs)[k] == pd[k] && all_paths(gs)[pd.len() + i] == pg[i]);
            };
        };
        lemma_group_run(md, g.0, g.1);
        lemma_run_concat(Ok(start_acc()), groups_lines(d), lines_of(group_text(g.0, g.1).push('\n')));
    }
}

/// Non-empty messages joined by `\n`, with one more `\n`: each message
/// followed by `\n`.
pub open spec fn each_then_newline(ms: Seq<Seq<char>>) -> Seq<char>
    decreases ms.len(),
{
    if ms.len() == 0 {
        Seq::empty()
    } else {
        each_then_newline(ms.drop_last()) + ms.last().push('\n')
    }
}

proof fn lemma_join_messages(ms: Seq<Seq<char>>)
    requires
        ms.len() > 0,
        forall|i: int| 0 <= i < ms.len() ==> (#[trigger] ms[i]).len() > 0,
    ensures
        join_messages(ms).push('\n') == each_then_newline(ms),
        join_messages(ms).len() > 0,
    decreases ms.len(),
{
    let d = ms.drop_last();
    assert(ms[ms.len() - 1].len() > 0);
    if d.len() == 0 {
        assert(join_messages(d) =~= Seq::<char>::empty());
        assert(each_then_newline(d) =~= Seq::<char>::empty());
        assert(each_then_newline(ms) =~= ms.last().push('\n'));
    } else {
        assert forall|i: int| 0 <= i < d.len() implies (#[trigger] d[i]).len() > 0 by {
            assert(d[i] == ms[i]);
        };
        lemma_join_messages(d);
        assert(join_messages(ms).push('\n') =~= join_messages(d).push('\n') + ms.last().push('\n'));
    }
}

proof fn lemma_groups_lines(gs: Seq<Group>)
    requires
        groups_ok(gs),
    ensures
        lines_of(each_then_newline(group_texts(gs))) == groups_lines(gs),
        each_then_newline(group_texts(gs)).len() == 0 || each_then_newline(group_texts(gs)).last() == '\n',
    decreases gs.len(),
{
    if gs.len() == 0 {
        assert(split_on(Seq::<char>::empty(), '\n') =~= seq![Seq::<char>::empty()]);
        assert(each_then_newline(group_texts(gs)) =~= Seq::<char>::empty());
        assert(lines_of(Seq::<char>::empty()) =~= Seq::<Seq<char>>::empty());
    } else {
        let d = gs.drop_last();
        assert forall|i: int| #![trigger d[i]] 0 <= i < d.len() implies subject_ok(d[i].0) && blocks_ok(d[i].1)
            && d[i].1.len() > 0 by {
            assert(d[i] == gs[i]);
        };
        assert(all_paths(gs) == all_paths(d) + blocks_paths(gs.last().1));
        assert forall|i: int, j: int| 0 <= i < j < all_paths(d).len() implies (#[trigger] all_paths(d)[i]).0 != (#[trigger] all_paths(d)[j]).0 by {
            assert(all_paths(gs)[i] == all_paths(d)[i] && all_paths(gs)[j] == all_paths(d)[j]);
        };
        lemma_groups_lines(d);
        assert(group_texts(gs).drop_last() =~= group_texts(d));
        let g = gs.last();
        let t = group_text(g.0, g.1);
        assert(group_texts(gs).last() == t);
        lemma_lines_of_concat(each_then_newline(group_texts(d)), t.push('\n'));
    }
}

/// The split of groups' texts joined as a combined message gives each path
/// its message, and leaves no message after the last footer paragraph.
proof fn lemma_split_groups(gs: Seq<Group>)
    requires
        groups_ok(gs),
        gs.len() > 0,
    ensures
        spec_split_commit_message(join_messages(group_texts(gs))) == Ok::<
            (Seq<(Seq<u8>, PushMessageView)>, Option<PushMessageView>),
            SplitFailure,
        >((all_messages(gs), None)),
{
    let ts = group_texts(gs);
    assert forall|i: int| 0 <= i < ts.len() implies (#[trigger] ts[i]).len() > 0 by {
        assert(ts[i] == group_text(gs[i].0, gs[i].1));
        assert(subject_ok(gs[i].0) && blocks_ok(gs[i].1) && gs[i].1.len() > 0);
        assert(group_text(gs[i].0, gs[i].1)[0] == gs[i].0[0]);
    };
    lemma_join_messages(ts);
    lemma_groups_lines(gs);
    let full = join_messages(ts);
    let e = each_then_newline(ts);
    assert(full.push('\n').push('\n') =~= e + seq!['\n']);
    lemma_lines_of_concat(e, seq!['\n']);
    let nl = seq![Seq::<char>::empty()];
    assert(unlines(nl) =~= seq!['\n']) by {
        assert(nl.drop_last() =~= Seq::<Seq<char>>::empty());
        assert(unlines(nl.drop_last()) =~= Seq::<char>::empty());
    };
    assert forall|i: int| 0 <= i < nl.len() implies plain_line(#[trigger] nl[i]) by {};
    lemma_lines_of_unlines(nl);
    let lines = groups_lines(gs) + nl;
    assert(lines_of(full.push('\n').push('\n')) == lines);
    lemma_split_lines_run(lines);
    lemma_groups_run(gs);
    lemma_run_concat(Ok(start_acc()), groups_lines(gs), nl);
    let acc = SplitAcc { phase: SplitPhase::BeforeSubject, messages: all_messages(gs) };
    assert(nl.drop_last() =~= Seq::<Seq<char>>::empty());
    assert(run(Ok::<SplitAcc, SplitFailure>(acc), nl.drop_last()) == Ok::<SplitAcc, SplitFailure>(acc));
    assert(run(Ok(acc), nl) == split_step(acc, Seq::<char>::empty()));
}

/// The items of keyed items.
pub open spec fn vals<V>(s: Seq<(SortKeyView, V)>) -> Seq<V> {
    s.map_values(|x: (SortKeyView, V)| x.1)
}

/// Sequences one after the other.
pub open spec fn flat<T>(gs: Seq<Seq<T>>) -> Seq<T>
    decreases gs.len(),
{
    if gs.len() == 0 {
        Seq::empty()
    } else {
        flat(gs.drop_last()) + gs.last()
    }
}

proof fn lemma_flat_concat<T>(a: Seq<Seq<T>>, b: Seq<Seq<T>>)
    ensures
        flat(a + b) == flat(a) + flat(b),
    decreases b.len(),
{
    if b.len() == 0 {
        assert(a + b =~= a);
        assert(flat(a) + flat(b) =~= flat(a));
    } else {
        lemma_flat_concat(a, b.drop_last());
        assert((a + b).drop_last() =~= a + b.drop_last());
        assert(flat(a) + flat(b) =~= flat(a) + flat(b.drop_last()) + b.last());
    }
}

/// Sorting keeps the items of keyed sequences, all together.
proof fn lemma_sort_flat_ms<T>(s: Seq<(SortKeyView, Seq<T>)>)
    ensures
        flat(vals(sort_by_key(s))).to_multiset() == flat(vals(s)).to_multiset(),
        sort_by_key(s).len() == s.len(),
    decreases s.len(),
{
    broadcast use vstd::seq_lib::group_to_multiset_ensures, vstd::multiset::group_multiset_axioms;
    if s.len() > 0 {
        let t = sort_by_key(s.drop_last());
        lemma_sort_flat_ms(s.drop_last());
        let x = s.last();
        let p = leading_le(t, x.0) as int;
        lemma_leading_le_bound(t, x.0);
        let vt = vals(t);
        assert(vals(insert_sorted(t, x)) =~= vt.take(p) + seq![x.1] + vt.skip(p));
        lemma_flat_concat(vt.take(p) + seq![x.1], vt.skip(p));
        lemma_flat_concat(vt.take(p), seq![x.1]);
        lemma_flat_concat(vt.take(p), vt.skip(p));
        assert(vt.take(p) + vt.skip(p) =~= vt);
        let one: Seq<Seq<T>> = seq![x.1];
        assert(one.drop_last() =~= Seq::<Seq<T>>::empty());
        assert(flat(one.drop_last()) =~= Seq::<T>::empty());
        assert(flat(one) =~= x.1);
        let a = flat(vt.take(p));
        let b = flat(vt.skip(p));
        vstd::seq_lib::lemma_multiset_commutative(a + x.1, b);
        vstd::seq_lib::lemma_multiset_commutative(a, x.1);
        vstd::seq_lib::lemma_multiset_commutative(a, b);
        assert(vals(s) =~= vals(s.drop_last()).push(x.1));
        assert(vals(s).drop_last() =~= vals(s.drop_last()));
        vstd::seq_lib::lemma_multiset_commutative(flat(vals(s.drop_last())), x.1);
    }
}

/// Sorting keeps the items of keyed items.
proof fn lemma_sort_ms<V>(s: Seq<(SortKeyView, V)>)
    ensures
        vals(sort_by_key(s)).to_multiset() == vals(s).to_multiset(),
        sort_by_key(s).len() == s.len(),
    decreases s.len(),
{
    broadcast use vstd::seq_lib::group_to_multiset_ensures, vstd::multiset::group_multiset_axioms;
    if s.len() > 0 {
        let t = sort_by_key(s.drop_last());
        lemma_sort_ms(s.drop_last());
        let x = s.last();
        let p = leading_le(t, x.0) as int;
        lemma_leading_le_bound(t, x.0);
        let vt = vals(t);
        assert(vals(insert_sorted(t, x)) =~= vt.take(p) + seq![x.1] + vt.skip(p));
        assert(vt.take(p) + vt.skip(p) =~= vt);
        vstd::seq_lib::lemma_multiset_commutative(vt.take(p) + seq![x.1], vt.skip(p));
        vstd::seq_lib::lemma_multiset_commutative(vt.take(p), seq![x.1]);
        vstd::seq_lib::lemma_multiset_commutative(vt.take(p), vt.skip(p));
        assert(vals(s) =~= vals(s.drop_last()).push(x.1));
        assert(seq![x.1].to_multiset() =~= Multiset::empty().insert(x.1)) by {
            assert(seq![x.1] =~= Seq::<V>::empty().push(x.1));
        };
    }
}

/// Mapping items keeps equal multisets equal.
proof fn lemma_map_ms<A, B>(a: Seq<A>, b: Seq<A>, f: spec_fn(A) -> B)
    requires
        a.to_multiset() == b.to_multiset(),
    ensures
        a.map_values(f).to_multiset() == b.map_values(f).to_multiset(),
    decreases a.len(),
{
    broadcast use vstd::seq_lib::group_to_multiset_ensures, vstd::multiset::group_multiset_axioms;
    if a.len() == 0 {
        vstd::seq_lib::to_multiset_len(a);
        vstd::seq_lib::to_multiset_len(b);
        assert(b.len() == 0);
        assert(a.map_values(f) =~= Seq::<B>::empty());
        assert(b.map_values(f) =~= Seq::<B>::empty());
    } else {
        let x = a.last();
        assert(a =~= a.drop_last().push(x));
        assert(a.to_multiset().count(x) > 0);
        assert(b.contains(x));
        let k = choose|k: int| 0 <= k < b.len() && b[k] == x;
        let b2 = b.remove(k);
        assert(b2.to_multiset() == b.to_multiset().remove(x));
        assert(a.drop_last().to_multiset() =~= b2.to_multiset());
        lemma_map_ms(a.drop_last(), b2, f);
        assert(a.map_values(f) =~= a.drop_last().map_values(f).push(f(x)));
        assert(b2.map_values(f) =~= b.map_values(f).remove(k));
        assert(b.map_values(f)[k] == f(x));
        assert(b2.map_values(f).to_multiset() == b.map_values(f).to_multiset().remove(f(x)));
        assert(b.map_values(f).to_multiset().count(f(x)) > 0);
    }
}


/// Grouping consecutive items keeps them in order, in non-empty groups
/// whose items share their key.
proof fn lemma_gbt<V>(s: Seq<(Seq<char>, V)>)
    ensures
        flat(group_by_text(s)) == s,
        forall|i: int| 0 <= i < group_by_text(s).len() ==> (#[trigger] group_by_text(s)[i]).len() > 0,
        forall|i: int, k: int|
            0 <= i < group_by_text(s).len() && 0 <= k < group_by_text(s)[i].len() ==> (#[trigger] group_by_text(s)[i][k]).0
                == group_by_text(s)[i][0].0,
    decreases s.len(),
{
    crate::order::lemma_group_by_text_nonempty(s);
    if s.len() > 0 {
        let d = s.drop_last();
        lemma_gbt(d);
        let g = group_by_text(d);
        let x = s.last();
        crate::order::lemma_group_by_text_nonempty(d);
        if g.len() > 0 && g.last().len() > 0 && g.last().last().0 == x.0 {
            let ng = g.update(g.len() - 1, g.last().push(x));
            assert(group_by_text(s) == ng);
            assert(ng.drop_last() =~= g.drop_last());
            assert(flat(g) == flat(g.drop_last()) + g.last());
            assert(flat(ng) =~= flat(g).push(x));
            assert(d.push(x) =~= s);
            assert forall|i: int, k: int| 0 <= i < ng.len() && 0 <= k < ng[i].len() implies (#[trigger] ng[i][k]).0 == ng[i][0].0 by {
                if i < g.len() - 1 {
                    assert(ng[i] == g[i]);
                } else {
                    assert(g.last() == g[g.len() - 1]);
                    if k < g.last().len() {
                        assert(ng[i][k] == g[i][k]);
                    } else {
                        assert(g[i][g[i].len() - 1].0 == g[i][0].0);
                    }
                    assert(ng[i][0] == g[i][0]);
                }
            };
        } else {
            let ng = g.push(seq![x]);
            assert(group_by_text(s) == ng);
            assert(ng.drop_last() =~= g);
            let one: Seq<(Seq<char>, V)> = seq![x];
            assert(flat(ng) =~= flat(g) + one);
            assert(d.push(x) =~= s);
            assert(flat(g) + one =~= d.push(x));
            assert forall|i: int, k: int| 0 <= i < ng.len() && 0 <= k < ng[i].len() implies (#[trigger] ng[i][k]).0 == ng[i][0].0 by {
                if i < g.len() {
                    assert(ng[i] == g[i]);
                }
            };
        }
    } else {
        assert(flat(group_by_text(s)) =~= s);
    }
}

proof fn lemma_flat_map<A, B>(gs: Seq<Seq<A>>, f: spec_fn(A) -> B)
    ensures
        flat(gs.map_values(|g: Seq<A>| g.map_values(f))) == flat(gs).map_values(f),
    decreases gs.len(),
{
    if gs.len() > 0 {
        lemma_flat_map(gs.drop_last(), f);
        assert(gs.map_values(|g: Seq<A>| g.map_values(f)).drop_last() =~= gs.drop_last().map_values(
            |g: Seq<A>| g.map_values(f),
        ));
        assert(flat(gs).map_values(f) =~= flat(gs.drop_last()).map_values(f) + gs.last().map_values(f));
    } else {
        assert(flat(gs.map_values(|g: Seq<A>| g.map_values(f))) =~= flat(gs).map_values(f));
    }
}

/// The groups of consecutive entries with the same key: the entries in
/// order, in non-empty groups whose entries share their key.
proof fn lemma_groups_of(es: Seq<EntryView>, key: spec_fn(EntryView) -> Seq<char>, go: Seq<Seq<EntryView>>)
    requires
        go == groups_of(es.map_values(|e: EntryView| (key(e), e))),
    ensures
        flat(go) == es,
        forall|i: int| 0 <= i < go.len() ==> (#[trigger] go[i]).len() > 0,
        forall|i: int, k: int| 0 <= i < go.len() && 0 <= k < go[i].len() ==> key(#[trigger] go[i][k]) == key(go[i][0]),
{
    let keyed = es.map_values(|e: EntryView| (key(e), e));
    let g = group_by_text(keyed);
    lemma_gbt(keyed);
    let f = |x: (Seq<char>, EntryView)| x.1;
    lemma_flat_map(g, f);
    assert(go =~~= g.map_values(|gg: Seq<(Seq<char>, EntryView)>| gg.map_values(f)));
    assert(flat(g).map_values(f) =~= es);
    assert forall|i: int| 0 <= i < go.len() implies (#[trigger] go[i]).len() > 0 by {
        assert(go[i].len() == g[i].len());
    };
    // Every grouped item is an item of the keyed entries, whose key is its entry's key.
    assert forall|j: int| 0 <= j < flat(g).len() implies (#[trigger] flat(g)[j]).0 == key(flat(g)[j].1) by {
        assert(flat(g)[j] == keyed[j]);
    };
    assert forall|i: int, k: int| 0 <= i < go.len() && 0 <= k < go[i].len() implies key(#[trigger] go[i][k]) == key(go[i][0]) by {
        assert(go[i][k] == g[i][k].1);
        assert(go[i][0] == g[i][0].1);
        lemma_flat_member(g, i, k);
        lemma_flat_member(g, i, 0);
        let a = choose|j: int| 0 <= j < flat(g).len() && flat(g)[j] == g[i][k];
        let b = choose|j: int| 0 <= j < flat(g).len() && flat(g)[j] == g[i][0];
        assert(flat(g)[a].0 == key(flat(g)[a].1));
        assert(flat(g)[b].0 == key(flat(g)[b].1));
    };
}

/// An item of one of the sequences is an item of them all together.
proof fn lemma_flat_member<T>(gs: Seq<Seq<T>>, i: int, k: int)
    requires
        0 <= i < gs.len(),
        0 <= k < gs[i].len(),
    ensures
        exists|j: int| 0 <= j < flat(gs).len() && flat(gs)[j] == gs[i][k],
    decreases gs.len(),
{
    let d = gs.drop_last();
    if i < gs.len() - 1 {
        assert(d[i] == gs[i]);
        lemma_flat_member(d, i, k);
        let j = choose|j: int| 0 <= j < flat(d).len() && flat(d)[j] == d[i][k];
        assert(flat(gs)[j] == flat(d)[j]);
    } else {
        assert(flat(gs)[flat(d).len() + k] == gs.last()[k]);
    }
}

/// The footer groups without footer, as blocks.
pub open spec fn tblocks(fgs: Seq<Seq<EntryView>>) -> Seq<Block>
    decreases fgs.len(),
{
    if fgs.len() == 0 {
        Seq::empty()
    } else if fgs.last()[0].footer.len() == 0 {
        tblocks(fgs.drop_last()).push((Seq::empty(), fgs.last()))
    } else {
        tblocks(fgs.drop_last())
    }
}

/// The footer groups with a footer.
pub open spec fn ogroups(fgs: Seq<Seq<EntryView>>) -> Seq<Seq<EntryView>>
    decreases fgs.len(),
{
    if fgs.len() == 0 {
        Seq::empty()
    } else if fgs.last()[0].footer.len() == 0 {
        ogroups(fgs.drop_last())
    } else {
        ogroups(fgs.drop_last()).push(fgs.last())
    }
}

/// Groups as blocks carrying the footer of their first entry.
pub open spec fn fblocks(gs: Seq<Seq<EntryView>>) -> Seq<Block> {
    gs.map_values(|g: Seq<EntryView>| (g[0].footer, g))
}

/// The blocks of the footer paragraph of a rendered group.
pub open spec fn blocks_of(g: Seq<EntryView>) -> Seq<Block> {
    let fgs = footer_groups(g);
    tblocks(fgs) + fblocks(sort_groups_by_path(ogroups(fgs)))
}

proof fn lemma_blocks_text_concat(a: Seq<Block>, b: Seq<Block>)
    ensures
        blocks_text(a + b) == blocks_text(a) + blocks_text(b),
    decreases b.len(),
{
    if b.len() == 0 {
        assert(a + b =~= a);
        assert(blocks_text(a) + blocks_text(b) =~= blocks_text(a));
    } else {
        lemma_blocks_text_concat(a, b.drop_last());
        assert((a + b).drop_last() =~= a + b.drop_last());
        assert(blocks_text(a) + blocks_text(b) =~= blocks_text(a) + blocks_text(b.drop_last()) + b.last().0
            + toprepo_footer_lines(b.last().1));
    }
}

proof fn lemma_split_footer_groups(fgs: Seq<Seq<EntryView>>)
    ensures
        split_footer_groups(fgs) == (blocks_text(tblocks(fgs)), ogroups(fgs)),
    decreases fgs.len(),
{
    if fgs.len() > 0 {
        lemma_split_footer_groups(fgs.drop_last());
        if fgs.last()[0].footer.len() == 0 {
            let tb = tblocks(fgs.drop_last());
            assert(tblocks(fgs).drop_last() =~= tb);
            assert(blocks_text(tblocks(fgs)) =~= blocks_text(tb) + toprepo_footer_lines(fgs.last()));
        }
    } else {
        assert(blocks_text(tblocks(fgs)) =~= Seq::<char>::empty());
    }
}

proof fn lemma_footer_blocks(gs: Seq<Seq<EntryView>>)
    ensures
        footer_blocks(gs) == blocks_text(fblocks(gs)),
    decreases gs.len(),
{
    if gs.len() > 0 {
        lemma_footer_blocks(gs.drop_last());
        assert(fblocks(gs).drop_last() =~= fblocks(gs.drop_last()));
        assert(fblocks(gs).last() == (gs.last()[0].footer, gs.last()));
    } else {
        assert(blocks_text(fblocks(gs)) =~= Seq::<char>::empty());
    }
}

/// A rendered group is the text of its subject and body and its blocks.
proof fn lemma_render_group(g: Seq<EntryView>)
    requires
        g.len() > 0,
        g[0].subject_and_body.len() > 0,
    ensures
        render_group(g) == group_text(g[0].subject_and_body, blocks_of(g)),
{
    let fgs = footer_groups(g);
    lemma_split_footer_groups(fgs);
    lemma_footer_blocks(sort_groups_by_path(ogroups(fgs)));
    lemma_blocks_text_concat(tblocks(fgs), fblocks(sort_groups_by_path(ogroups(fgs))));
    let sab = g[0].subject_and_body;
    assert(render_group(g) =~= group_text(sab, blocks_of(g)));
}

/// The entries of blocks, in order.
pub open spec fn entries_of(bs: Seq<Block>) -> Seq<EntryView>
    decreases bs.len(),
{
    if bs.len() == 0 {
        Seq::empty()
    } else {
        entries_of(bs.drop_last()) + bs.last().1
    }
}

proof fn lemma_entries_concat(a: Seq<Block>, b: Seq<Block>)
    ensures
        entries_of(a + b) == entries_of(a) + entries_of(b),
    decreases b.len(),
{
    if b.len() == 0 {
        assert(a + b =~= a);
        assert(entries_of(a) + entries_of(b) =~= entries_of(a));
    } else {
        lemma_entries_concat(a, b.drop_last());
        assert((a + b).drop_last() =~= a + b.drop_last());
        assert(entries_of(a) + entries_of(b) =~= entries_of(a) + entries_of(b.drop_last()) + b.last().1);
    }
}

proof fn lemma_entries_fblocks(gs: Seq<Seq<EntryView>>)
    ensures
        entries_of(fblocks(gs)) == flat(gs),
    decreases gs.len(),
{
    if gs.len() > 0 {
        lemma_entries_fblocks(gs.drop_last());
        assert(fblocks(gs).drop_last() =~= fblocks(gs.drop_last()));
    } else {
        assert(entries_of(fblocks(gs)) =~= flat(gs));
    }
}

proof fn lemma_flat_ms_pointwise<T>(a: Seq<Seq<T>>, b: Seq<Seq<T>>)
    requires
        a.len() == b.len(),
        forall|i: int| 0 <= i < a.len() ==> (#[trigger] a[i]).to_multiset() == b[i].to_multiset(),
    ensures
        flat(a).to_multiset() == flat(b).to_multiset(),
    decreases a.len(),
{
    broadcast use vstd::seq_lib::group_to_multiset_ensures, vstd::multiset::group_multiset_axioms;
    if a.len() > 0 {
        assert forall|i: int| 0 <= i < a.drop_last().len() implies (#[trigger] a.drop_last()[i]).to_multiset() == b.drop_last()[i].to_multiset() by {
            assert(a.drop_last()[i] == a[i]);
            assert(b.drop_last()[i] == b[i]);
        };
        lemma_flat_ms_pointwise(a.drop_last(), b.drop_last());
        assert(a.last().to_multiset() == b.last().to_multiset()) by {
            assert(a.last() == a[a.len() - 1]);
        };
        vstd::seq_lib::lemma_multiset_commutative(flat(a.drop_last()), a.last());
        vstd::seq_lib::lemma_multiset_commutative(flat(b.drop_last()), b.last());
    }
}

/// The entries of a footer group share their footer.
pub open spec fn uniform(fg: Seq<EntryView>) -> bool {
    fg.len() > 0 && forall|k: int| 0 <= k < fg.len() ==> (#[trigger] fg[k]).footer == fg[0].footer
}

/// The footer groups of a group: together its entries, each with one footer.
proof fn lemma_footer_groups(g: Seq<EntryView>)
    ensures
        flat(footer_groups(g)).to_multiset() == g.to_multiset(),
        forall|m: int| 0 <= m < footer_groups(g).len() ==> uniform(#[trigger] footer_groups(g)[m]),
{
    broadcast use vstd::seq_lib::group_to_multiset_ensures, vstd::multiset::group_multiset_axioms;
    let key = |e: EntryView| e.footer;
    let raw = groups_of(g.map_values(|e: EntryView| (e.footer, e)));
    assert(g.map_values(|e: EntryView| (e.footer, e)) =~= g.map_values(|e: EntryView| (key(e), e)));
    lemma_groups_of(g, key, raw);
    let fgs = footer_groups(g);
    assert(fgs.len() == raw.len());
    assert forall|m: int| 0 <= m < fgs.len() implies (#[trigger] fgs[m]).to_multiset() == raw[m].to_multiset()
        && uniform(fgs[m]) by {
        let fg = raw[m];
        assert(fgs[m] == sort_by_path(fg));
        let keyed = fg.map_values(|e: EntryView| (path_key(e.path), e));
        lemma_sort_ms(keyed);
        assert(vals(keyed) =~= fg);
        assert(sort_by_path(fg) =~= vals(sort_by_key(keyed)));
        let sf = sort_by_path(fg);
        assert(fg.len() > 0);
        vstd::seq_lib::to_multiset_len(sf);
        vstd::seq_lib::to_multiset_len(fg);
        assert forall|k: int| 0 <= k < sf.len() implies (#[trigger] sf[k]).footer == sf[0].footer by {
            assert(sf.to_multiset().count(sf[k]) > 0);
            assert(fg.contains(sf[k]));
            assert(sf.to_multiset().count(sf[0]) > 0);
            assert(fg.contains(sf[0]));
            let a = choose|a: int| 0 <= a < fg.len() && fg[a] == sf[k];
            let b = choose|b: int| 0 <= b < fg.len() && fg[b] == sf[0];
            assert(key(raw[m][a]) == key(raw[m][0]));
            assert(key(raw[m][b]) == key(raw[m][0]));
        };
    };
    lemma_flat_ms_pointwise(fgs, raw);
}

proof fn lemma_tblocks_ogroups(fgs: Seq<Seq<EntryView>>)
    requires
        forall|m: int| 0 <= m < fgs.len() ==> uniform(#[trigger] fgs[m]),
    ensures
        entries_of(tblocks(fgs)).to_multiset().add(flat(ogroups(fgs)).to_multiset()) == flat(fgs).to_multiset(),
        forall|i: int| #![trigger tblocks(fgs)[i]] 0 <= i < tblocks(fgs).len() ==> tblocks(fgs)[i].0.len() == 0
            && uniform(tblocks(fgs)[i].1) && tblocks(fgs)[i].1[0].footer.len() == 0,
        forall|i: int| #![trigger ogroups(fgs)[i]] 0 <= i < ogroups(fgs).len() ==> uniform(ogroups(fgs)[i])
            && ogroups(fgs)[i][0].footer.len() > 0,
    decreases fgs.len(),
{
    broadcast use vstd::seq_lib::group_to_multiset_ensures, vstd::multiset::group_multiset_axioms;
    if fgs.len() == 0 {
        assert(entries_of(tblocks(fgs)) =~= Seq::<EntryView>::empty());
        assert(flat(ogroups(fgs)) =~= Seq::<EntryView>::empty());
        assert(flat(fgs) =~= Seq::<EntryView>::empty());
        assert(Seq::<EntryView>::empty().to_multiset() =~= Multiset::empty());
    } else {
        let d = fgs.drop_last();
        assert forall|m: int| 0 <= m < d.len() implies uniform(#[trigger] d[m]) by {
            assert(d[m] == fgs[m]);
        };
        lemma_tblocks_ogroups(d);
        let x = fgs.last();
        assert(uniform(fgs[fgs.len() - 1]));
        let et = entries_of(tblocks(d));
        let fo = flat(ogroups(d));
        vstd::seq_lib::lemma_multiset_commutative(flat(d), x);
        if x[0].footer.len() == 0 {
            let tb = tblocks(fgs);
            assert(tb.drop_last() =~= tblocks(d));
            assert(entries_of(tb) == et + x);
            vstd::seq_lib::lemma_multiset_commutative(et, x);
            assert forall|i: int| #![trigger tb[i]] 0 <= i < tb.len() implies tb[i].0.len() == 0
                && uniform(tb[i].1) && tb[i].1[0].footer.len() == 0 by {
                if i < tblocks(d).len() {
                    assert(tb[i] == tblocks(d)[i]);
                }
            };
        } else {
            let og = ogroups(fgs);
            assert(og.drop_last() =~= ogroups(d));
            assert(flat(og) == fo + x);
            vstd::seq_lib::lemma_multiset_commutative(fo, x);
            assert forall|i: int| #![trigger og[i]] 0 <= i < og.len() implies uniform(og[i]) && og[i][0].footer.len() > 0 by {
                if i < ogroups(d).len() {
                    assert(og[i] == ogroups(d)[i]);
                }
            };
        }
    }
}

proof fn lemma_sort_groups_by_path(o: Seq<Seq<EntryView>>)
    requires
        forall|i: int| 0 <= i < o.len() ==> uniform(#[trigger] o[i]) && o[i][0].footer.len() > 0,
    ensures
        flat(sort_groups_by_path(o)).to_multiset() == flat(o).to_multiset(),
        forall|i: int| 0 <= i < sort_groups_by_path(o).len() ==> uniform(#[trigger] sort_groups_by_path(o)[i])
            && sort_groups_by_path(o)[i][0].footer.len() > 0,
{
    let keyed = o.map_values(|g: Seq<EntryView>| (path_key(g[0].path), g));
    lemma_sort_flat_ms(keyed);
    assert(vals(keyed) =~= o);
    let sg = sort_groups_by_path(o);
    assert(sg =~= vals(sort_by_key(keyed)));
    crate::order::lemma_sort_by_key_items(keyed);
    assert forall|i: int| 0 <= i < sg.len() implies uniform(#[trigger] sg[i]) && sg[i][0].footer.len() > 0 by {
        let j = choose|j: int| 0 <= j < keyed.len() && #[trigger] sort_by_key(keyed)[i] == keyed[j];
        assert(sg[i] == o[j]);
    };
}

proof fn lemma_entries_member(bs: Seq<Block>, i: int, k: int)
    requires
        0 <= i < bs.len(),
        0 <= k < bs[i].1.len(),
    ensures
        entries_of(bs).contains(bs[i].1[k]),
    decreases bs.len(),
{
    let d = bs.drop_last();
    if i < bs.len() - 1 {
        assert(d[i] == bs[i]);
        lemma_entries_member(d, i, k);
        let j = choose|j: int| 0 <= j < entries_of(d).len() && entries_of(d)[j] == d[i].1[k];
        assert(entries_of(bs)[j] == entries_of(d)[j]);
    } else {
        assert(entries_of(bs)[entries_of(d).len() + k] == bs.last().1[k]);
    }
}

/// The blocks of a rendered group hold its entries, each block's entries
/// carrying its footer, the blocks without footer first.
proof fn lemma_blocks_of(g: Seq<EntryView>)
    requires
        g.len() > 0,
    ensures
        entries_of(blocks_of(g)).to_multiset() == g.to_multiset(),
        blocks_of(g).len() > 0,
        forall|i: int, k: int|
            0 <= i < blocks_of(g).len() && 0 <= k < blocks_of(g)[i].1.len() ==> (#[trigger] blocks_of(g)[i].1[k]).footer
                == blocks_of(g)[i].0,
        forall|i: int| #![trigger blocks_of(g)[i]] 0 <= i < blocks_of(g).len() ==> blocks_of(g)[i].1.len() > 0,
        forall|i: int, j: int|
            #![trigger blocks_of(g)[i], blocks_of(g)[j]]
            0 <= i < j < blocks_of(g).len() && blocks_of(g)[j].0.len() == 0 ==> blocks_of(g)[i].0.len() == 0,
{
    broadcast use vstd::seq_lib::group_to_multiset_ensures, vstd::multiset::group_multiset_axioms;
    let fgs = footer_groups(g);
    lemma_footer_groups(g);
    lemma_tblocks_ogroups(fgs);
    let tb = tblocks(fgs);
    let o = ogroups(fgs);
    lemma_sort_groups_by_path(o);
    let sg = sort_groups_by_path(o);
    let fb = fblocks(sg);
    let bs = blocks_of(g);
    assert(bs == tb + fb);
    lemma_entries_concat(tb, fb);
    lemma_entries_fblocks(sg);
    vstd::seq_lib::lemma_multiset_commutative(entries_of(tb), flat(sg));
    assert(entries_of(bs).to_multiset() =~= g.to_multiset());
    assert forall|i: int, k: int| 0 <= i < bs.len() && 0 <= k < bs[i].1.len() implies (#[trigger] bs[i].1[k]).footer == bs[i].0 by {
        if i < tb.len() {
            assert(bs[i] == tb[i]);
            assert(uniform(tb[i].1));
        } else {
            assert(bs[i] == fb[i - tb.len()]);
            assert(uniform(sg[i - tb.len()]));
        }
    };
    assert forall|i: int| #![trigger bs[i]] 0 <= i < bs.len() implies bs[i].1.len() > 0 by {
        if i < tb.len() {
            assert(bs[i] == tb[i]);
            assert(uniform(tb[i].1));
        } else {
            assert(bs[i] == fb[i - tb.len()]);
            assert(uniform(sg[i - tb.len()]));
        }
    };
    assert forall|i: int, j: int| #![trigger bs[i], bs[j]] 0 <= i < j < bs.len() && bs[j].0.len() == 0 implies bs[i].0.len() == 0 by {
        if j >= tb.len() {
            assert(bs[j] == fb[j - tb.len()]);
            assert(uniform(sg[j - tb.len()]) && sg[j - tb.len()][0].footer.len() > 0);
        }
        assert(bs[i] == tb[i]);
    };
    assert(bs.len() > 0) by {
        vstd::seq_lib::to_multiset_len(g);
        vstd::seq_lib::to_multiset_len(entries_of(bs));
        if bs.len() == 0 {
            assert(entries_of(bs) =~= Seq::<EntryView>::empty());
        }
    };
}

/// A repository's message as the law takes it.
pub open spec fn info_ok(info: CommitMessageInfoView) -> bool {
    &&& info.message matches Some(m)
    &&& subject_ok(m.subject_and_body)
    &&& spec_is_interesting_message(m.subject_and_body)
    &&& footer_ok(m.footer)
    &&& path_ok(info.path)
    &&& status_ok(info.status)
}

pub open spec fn info_entry(info: CommitMessageInfoView) -> EntryView {
    entry_of(info, info.message->0)
}

proof fn lemma_all_interesting(subs: Seq<CommitMessageInfoView>)
    requires
        forall|i: int| 0 <= i < subs.len() ==> info_ok(#[trigger] subs[i]),
    ensures
        interesting_entries(subs) == subs.map_values(|i: CommitMessageInfoView| info_entry(i)),
        boring_infos(subs) == Seq::<CommitMessageInfoView>::empty(),
    decreases subs.len(),
{
    if subs.len() > 0 {
        let d = subs.drop_last();
        assert forall|i: int| 0 <= i < d.len() implies info_ok(#[trigger] d[i]) by {
            assert(d[i] == subs[i]);
        };
        lemma_all_interesting(d);
        assert(info_ok(subs[subs.len() - 1]));
        assert(is_interesting_info(subs.last()));
        assert(subs.map_values(|i: CommitMessageInfoView| info_entry(i)) =~= d.map_values(
            |i: CommitMessageInfoView| info_entry(i),
        ).push(info_entry(subs.last())));
    } else {
        assert(interesting_entries(subs) =~= subs.map_values(|i: CommitMessageInfoView| info_entry(i)));
    }
}

/// All the messages shown in a combined message of valid messages: those of
/// the subrepos, then the source's.
proof fn lemma_message_entries(source: CommitMessageInfoView, subs: Seq<CommitMessageInfoView>)
    requires
        info_ok(source),
        forall|i: int| 0 <= i < subs.len() ==> info_ok(#[trigger] subs[i]),
    ensures
        message_entries(source, subs) == subs.push(source).map_values(|i: CommitMessageInfoView| info_entry(i)),
{
    lemma_all_interesting(subs);
    assert(hidden_infos(source, subs) =~= Seq::<CommitMessageInfoView>::empty());
    let sab = crate::commit_message::shared_subject(crate::commit_message::shown_entries(source, subs));
    assert(hidden_entries(Seq::<CommitMessageInfoView>::empty(), sab) =~= Seq::<EntryView>::empty());
    assert(message_entries(source, subs) =~= subs.push(source).map_values(|i: CommitMessageInfoView| info_entry(i)));
}

proof fn lemma_leading_le_map<V, W>(t: Seq<(SortKeyView, V)>, k: SortKeyView, f: spec_fn(V) -> W)
    ensures
        leading_le(t.map_values(|x: (SortKeyView, V)| (x.0, f(x.1))), k) == leading_le(t, k),
    decreases t.len(),
{
    if t.len() > 0 {
        lemma_leading_le_map(t.drop_first(), k, f);
        assert(t.map_values(|x: (SortKeyView, V)| (x.0, f(x.1))).drop_first() =~= t.drop_first().map_values(
            |x: (SortKeyView, V)| (x.0, f(x.1)),
        ));
    }
}

/// Sorting does not look at the items: mapping them before or after is the
/// same.
proof fn lemma_sort_map<V, W>(s: Seq<(SortKeyView, V)>, f: spec_fn(V) -> W)
    ensures
        sort_by_key(s.map_values(|x: (SortKeyView, V)| (x.0, f(x.1)))) == sort_by_key(s).map_values(
            |x: (SortKeyView, V)| (x.0, f(x.1)),
        ),
    decreases s.len(),
{
    let ms = s.map_values(|x: (SortKeyView, V)| (x.0, f(x.1)));
    if s.len() > 0 {
        lemma_sort_map(s.drop_last(), f);
        assert(ms.drop_last() =~= s.drop_last().map_values(|x: (SortKeyView, V)| (x.0, f(x.1))));
        let t = sort_by_key(s.drop_last());
        let x = s.last();
        lemma_leading_le_map(t, x.0, f);
        let p = leading_le(t, x.0) as int;
        lemma_leading_le_bound(t, x.0);
        let tm = t.map_values(|y: (SortKeyView, V)| (y.0, f(y.1)));
        assert(ms.last() == (x.0, f(x.1)));
        assert(insert_sorted(tm, ms.last()) =~= insert_sorted(t, x).map_values(
            |y: (SortKeyView, V)| (y.0, f(y.1)),
        ));
    } else {
        assert(sort_by_key(ms) =~= sort_by_key(s).map_values(|x: (SortKeyView, V)| (x.0, f(x.1))));
    }
}

/// The message that splitting gives an entry back.
pub open spec fn part_of(e: EntryView) -> (Seq<u8>, PushMessageView) {
    (e.path, PushMessageView { subject_and_body: e.subject_and_body, footer: e.footer, topic: None })
}

/// The blocks' entries all have the subject and body and carry the footer
/// of their block.
pub open spec fn blocks_match(sab: Seq<char>, bs: Seq<Block>) -> bool {
    forall|i: int, k: int|
        0 <= i < bs.len() && 0 <= k < bs[i].1.len() ==> (#[trigger] bs[i].1[k]).footer == bs[i].0
            && bs[i].1[k].subject_and_body == sab
}

proof fn lemma_messages_of_blocks(sab: Seq<char>, bs: Seq<Block>)
    requires
        blocks_match(sab, bs),
    ensures
        messages_of(sab, blocks_paths(bs)) == entries_of(bs).map_values(|e: EntryView| part_of(e)),
        blocks_paths(bs).len() == entries_of(bs).len(),
        forall|j: int| 0 <= j < blocks_paths(bs).len() ==> (#[trigger] blocks_paths(bs)[j]).0 == entries_of(bs)[j].path,
    decreases bs.len(),
{
    if bs.len() > 0 {
        let d = bs.drop_last();
        assert forall|i: int, k: int| 0 <= i < d.len() && 0 <= k < d[i].1.len() implies (#[trigger] d[i].1[k]).footer == d[i].0
            && d[i].1[k].subject_and_body == sab by {
            assert(d[i] == bs[i]);
            assert(bs[i].1[k].footer == bs[i].0);
        };
        lemma_messages_of_blocks(sab, d);
        let b = bs.last();
        assert forall|k: int| 0 <= k < b.1.len() implies (#[trigger] b.1[k]).footer == b.0 && b.1[k].subject_and_body == sab by {
            assert(bs[bs.len() - 1].1[k].footer == bs[bs.len() - 1].0);
        };
        let pd = blocks_paths(d);
        let ed = entries_of(d);
        assert(messages_of(sab, blocks_paths(bs)) =~= entries_of(bs).map_values(|e: EntryView| part_of(e))) by {
            assert forall|j: int| 0 <= j < entries_of(bs).len() implies messages_of(sab, blocks_paths(bs))[j]
                == entries_of(bs).map_values(|e: EntryView| part_of(e))[j] by {
                if j < ed.len() {
                    assert(blocks_paths(bs)[j] == pd[j]);
                    assert(entries_of(bs)[j] == ed[j]);
                    assert(messages_of(sab, pd)[j] == ed.map_values(|e: EntryView| part_of(e))[j]);
                } else {
                    assert(blocks_paths(bs)[j] == paths_of(b.1, b.0)[j - pd.len()]);
                    assert(entries_of(bs)[j] == b.1[j - ed.len()]);
                }
            };
        };
        assert forall|j: int| 0 <= j < blocks_paths(bs).len() implies (#[trigger] blocks_paths(bs)[j]).0 == entries_of(bs)[j].path by {
            if j < pd.len() {
                assert(blocks_paths(bs)[j] == pd[j]);
                assert(entries_of(bs)[j] == ed[j]);
            } else {
                assert(blocks_paths(bs)[j] == paths_of(b.1, b.0)[j - pd.len()]);
                assert(entries_of(bs)[j] == b.1[j - ed.len()]);
            }
        };
    } else {
        assert(entries_of(bs) =~= Seq::<EntryView>::empty());
        assert(messages_of(sab, blocks_paths(bs)) =~= entries_of(bs).map_values(|e: EntryView| part_of(e)));
    }
}

/// The entries of all groups, in order.
pub open spec fn all_entries(gs: Seq<Group>) -> Seq<EntryView>
    decreases gs.len(),
{
    if gs.len() == 0 {
        Seq::empty()
    } else {
        all_entries(gs.drop_last()) + entries_of(gs.last().1)
    }
}

proof fn lemma_all_messages_entries(gs: Seq<Group>)
    requires
        forall|i: int| 0 <= i < gs.len() ==> blocks_match((#[trigger] gs[i]).0, gs[i].1),
    ensures
        all_messages(gs) == all_entries(gs).map_values(|e: EntryView| part_of(e)),
        all_paths(gs).len() == all_entries(gs).len(),
        forall|j: int| 0 <= j < all_paths(gs).len() ==> (#[trigger] all_paths(gs)[j]).0 == all_entries(gs)[j].path,
    decreases gs.len(),
{
    if gs.len() > 0 {
        let d = gs.drop_last();
        assert forall|i: int| 0 <= i < d.len() implies blocks_match((#[trigger] d[i]).0, d[i].1) by {
            assert(d[i] == gs[i]);
        };
        lemma_all_messages_entries(d);
        let g = gs.last();
        assert(blocks_match(gs[gs.len() - 1].0, gs[gs.len() - 1].1));
        lemma_messages_of_blocks(g.0, g.1);
        let ad = all_entries(d);
        let pd = all_paths(d);
        assert(all_messages(gs) =~= all_entries(gs).map_values(|e: EntryView| part_of(e)));
        assert forall|j: int| 0 <= j < all_paths(gs).len() implies (#[trigger] all_paths(gs)[j]).0 == all_entries(gs)[j].path by {
            if j < pd.len() {
                assert(all_paths(gs)[j] == pd[j]);
                assert(all_entries(gs)[j] == ad[j]);
            } else {
                assert(all_paths(gs)[j] == blocks_paths(g.1)[j - pd.len()]);
                assert(all_entries(gs)[j] == entries_of(g.1)[j - ad.len()]);
            }
        };
    } else {
        assert(all_messages(gs) =~= all_entries(gs).map_values(|e: EntryView| part_of(e)));
    }
}

/// Entries that are a rearrangement of entries with different paths have
/// different paths.
proof fn lemma_distinct_paths(a: Seq<EntryView>, b: Seq<EntryView>)
    requires
        a.to_multiset() == b.to_multiset(),
        forall|i: int, j: int| 0 <= i < j < b.len() ==> (#[trigger] b[i]).path != (#[trigger] b[j]).path,
    ensures
        forall|i: int, j: int| 0 <= i < j < a.len() ==> (#[trigger] a[i]).path != (#[trigger] a[j]).path,
{
    broadcast use vstd::seq_lib::group_to_multiset_ensures, vstd::multiset::group_multiset_axioms;
    assert(b.no_duplicates()) by {
        assert forall|i: int, j: int| 0 <= i < b.len() && 0 <= j < b.len() && i != j implies b[i] != b[j] by {
            if i < j {
                assert(b[i].path != b[j].path);
            } else {
                assert(b[j].path != b[i].path);
            }
        };
    };
    b.lemma_multiset_has_no_duplicates();
    assert forall|i: int, j: int| 0 <= i < j < a.len() implies (#[trigger] a[i]).path != (#[trigger] a[j]).path by {
        if a[i].path == a[j].path {
            assert(a.to_multiset().count(a[i]) > 0);
            assert(a.to_multiset().count(a[j]) > 0);
            assert(b.contains(a[i]) && b.contains(a[j]));
            let p = choose|p: int| 0 <= p < b.len() && b[p] == a[i];
            let q = choose|q: int| 0 <= q < b.len() && b[q] == a[j];
            if p != q {
                if p < q {
                    assert(b[p].path != b[q].path);
                } else {
                    assert(b[q].path != b[p].path);
                }
            }
            assert(a[i] == a[j]);
            let a2 = a.remove(j);
            assert(a2[i] == a[i]);
            assert(a2.to_multiset().count(a[i]) > 0);
            assert(a2.to_multiset() == a.to_multiset().remove(a[j]));
            assert(a.to_multiset().count(a[i]) >= 2);
            assert(b.to_multiset().count(a[i]) <= 1);
        }
    };
}

/// What splitting gives back for a repository's message: its subject and
/// body and its footer, without topic.
pub open spec fn info_part(info: CommitMessageInfoView) -> (Seq<u8>, PushMessageView) {
    (
        info.path,
        PushMessageView {
            subject_and_body: info.message->0.subject_and_body,
            footer: info.message->0.footer,
            topic: None,
        },
    )
}

/// An entry whose message the law takes.
pub open spec fn entry_valid(e: EntryView) -> bool {
    subject_ok(e.subject_and_body) && footer_ok(e.footer) && entry_ok(e)
}

proof fn lemma_group_entries(gsq: Seq<Seq<EntryView>>, gs: Seq<Group>)
    requires
        gs.len() == gsq.len(),
        forall|i: int| 0 <= i < gs.len() ==> (#[trigger] gs[i]).1 == blocks_of(gsq[i]) && gsq[i].len() > 0,
    ensures
        all_entries(gs).to_multiset() == flat(gsq).to_multiset(),
    decreases gs.len(),
{
    broadcast use vstd::seq_lib::group_to_multiset_ensures, vstd::multiset::group_multiset_axioms;
    if gs.len() > 0 {
        let d = gs.drop_last();
        let dq = gsq.drop_last();
        assert forall|i: int| 0 <= i < d.len() implies (#[trigger] d[i]).1 == blocks_of(dq[i]) && dq[i].len() > 0 by {
            assert(d[i] == gs[i] && dq[i] == gsq[i]);
        };
        lemma_group_entries(dq, d);
        assert(gs[gs.len() - 1].1 == blocks_of(gsq[gsq.len() - 1]) && gsq[gsq.len() - 1].len() > 0);
        lemma_blocks_of(gsq.last());
        vstd::seq_lib::lemma_multiset_commutative(all_entries(d), entries_of(gs.last().1));
        vstd::seq_lib::lemma_multiset_commutative(flat(dq), gsq.last());
    } else {
        assert(all_entries(gs) =~= Seq::<EntryView>::empty());
        assert(flat(gsq) =~= Seq::<EntryView>::empty());
    }
}

/// Splitting the combined message of valid repository messages, each at its
/// own path, gives back each repository's subject and body and footer, with
/// no topic and no message left over.
///
/// A valid message has a non-empty first line, ends with exactly one line
/// ending, holds no `\r`, does not start with `Update git submodules`, and
/// has no `Topic:` or `Git-Toprepo-Ref:` line; its footer is empty or made
/// of footer lines without those keys; its path is valid UTF-8 shown as it
/// decodes, without white space and not shown as `<top>`; its status is one
/// line.
pub proof fn law_split_gives_back_combined_messages(
    source: CommitMessageInfoView,
    subs: Seq<CommitMessageInfoView>,
)
    requires
        info_ok(source),
        forall|i: int| 0 <= i < subs.len() ==> info_ok(#[trigger] subs[i]),
        forall|i: int, j: int|
            0 <= i < j < subs.push(source).len() ==> (#[trigger] subs.push(source)[i]).path != (#[trigger] subs.push(
                source,
            )[j]).path,
    ensures
        spec_split_commit_message(spec_mono_commit_message(source, subs)) matches Ok((ms, residual))
            && residual is None && ms.to_multiset() == subs.push(source).map_values(
            |i: CommitMessageInfoView| info_part(i),
        ).to_multiset(),
{
    broadcast use vstd::seq_lib::group_to_multiset_ensures, vstd::multiset::group_multiset_axioms;
    let infos = subs.push(source);
    lemma_message_entries(source, subs);
    let es = message_entries(source, subs);
    assert forall|k: int| 0 <= k < es.len() implies entry_valid(#[trigger] es[k]) by {
        assert(es[k] == info_entry(infos[k]));
        if k < subs.len() {
            assert(infos[k] == subs[k]);
            assert(info_ok(subs[k]));
        } else {
            assert(infos[k] == source);
        }
    };
    assert forall|i: int, j: int| 0 <= i < j < es.len() implies (#[trigger] es[i]).path != (#[trigger] es[j]).path by {
        assert(es[i].path == infos[i].path && es[j].path == infos[j].path);
    };
    // Sorted by text.
    let keyed_t = es.map_values(|e: EntryView| (text_key(e), e));
    lemma_sort_ms(keyed_t);
    assert(vals(keyed_t) =~= es);
    let sorted = sort_by_text(es);
    assert(sorted =~= vals(sort_by_key(keyed_t)));
    // Grouped by subject and body.
    let key = |e: EntryView| e.subject_and_body;
    let groups = groups_of(sorted.map_values(|e: EntryView| (e.subject_and_body, e)));
    assert(sorted.map_values(|e: EntryView| (e.subject_and_body, e)) =~= sorted.map_values(
        |e: EntryView| (key(e), e),
    ));
    lemma_groups_of(sorted, key, groups);
    // The groups in the order of the combined message.
    let kg = groups.map_values(|g: Seq<EntryView>| (combined_key(g), g));
    lemma_sort_flat_ms(kg);
    assert(vals(kg) =~= groups);
    crate::order::lemma_sort_by_key_items(kg);
    let gsorted = vals(sort_by_key(kg));
    let rf = |g: Seq<EntryView>| render_group(g);
    lemma_sort_map(kg, rf);
    assert(kg.map_values(|x: (SortKeyView, Seq<EntryView>)| (x.0, rf(x.1))) =~= groups.map_values(
        |g: Seq<EntryView>| (combined_key(g), render_group(g)),
    ));
    let combined = sort_by_key(groups.map_values(|g: Seq<EntryView>| (combined_key(g), render_group(g))));
    // Every entry of a sorted group is an entry of the messages, and shares
    // the group's subject and body.
    assert forall|i: int, k: int| 0 <= i < gsorted.len() && 0 <= k < gsorted[i].len() implies es.contains(
        #[trigger] gsorted[i][k],
    ) && gsorted[i][k].subject_and_body == gsorted[i][0].subject_and_body by {
        let j = choose|j: int| 0 <= j < kg.len() && #[trigger] sort_by_key(kg)[i] == kg[j];
        assert(gsorted[i] == groups[j]);
        lemma_flat_member(groups, j, k);
        let m = choose|m: int| 0 <= m < flat(groups).len() && flat(groups)[m] == groups[j][k];
        assert(sorted.to_multiset().count(sorted[m]) > 0);
        assert(key(groups[j][k]) == key(groups[j][0]));
    };
    assert forall|i: int| 0 <= i < gsorted.len() implies (#[trigger] gsorted[i]).len() > 0 by {
        let j = choose|j: int| 0 <= j < kg.len() && #[trigger] sort_by_key(kg)[i] == kg[j];
        assert(gsorted[i] == groups[j]);
    };
    let gs = gsorted.map_values(|g: Seq<EntryView>| (g[0].subject_and_body, blocks_of(g)));
    assert(combined == sort_by_key(kg).map_values(|x: (SortKeyView, Seq<EntryView>)| (x.0, rf(x.1))));
    // Each group is rendered as its text.
    assert forall|i: int| 0 <= i < gs.len() implies group_texts(gs)[i] == combined.map_values(
        |x: (SortKeyView, Seq<char>)| x.1,
    )[i] by {
        let g = gsorted[i];
        assert(g.len() > 0);
        assert(es.contains(g[0]));
        let k = choose|k: int| 0 <= k < es.len() && es[k] == g[0];
        assert(entry_valid(es[k]));
        lemma_render_group(g);
        assert(combined[i].1 == rf(sort_by_key(kg)[i].1));
    };
    assert(group_texts(gs) =~= combined.map_values(|x: (SortKeyView, Seq<char>)| x.1));
    assert(spec_mono_commit_message(source, subs) == join_messages(group_texts(gs)));
    // The groups are valid, and their blocks carry their entries.
    assert forall|i: int| 0 <= i < gs.len() implies blocks_match((#[trigger] gs[i]).0, gs[i].1) && subject_ok(
        gs[i].0,
    ) && blocks_ok(gs[i].1) && gs[i].1.len() > 0 by {
        let g = gsorted[i];
        lemma_blocks_of(g);
        let bs = blocks_of(g);
        assert(gs[i] == (g[0].subject_and_body, bs));
        assert(es.contains(g[0]));
        let k0 = choose|k: int| 0 <= k < es.len() && es[k] == g[0];
        assert(entry_valid(es[k0]));
        assert forall|b: int, k: int| 0 <= b < bs.len() && 0 <= k < bs[b].1.len() implies g.contains(
            #[trigger] bs[b].1[k],
        ) && entry_valid(bs[b].1[k]) && bs[b].1[k].subject_and_body == g[0].subject_and_body by {
            lemma_entries_member(bs, b, k);
            let e = bs[b].1[k];
            assert(entries_of(bs).to_multiset().count(e) > 0);
            assert(g.to_multiset().count(e) > 0);
            let m = choose|m: int| 0 <= m < g.len() && g[m] == e;
            assert(es.contains(g[m]) && g[m].subject_and_body == g[0].subject_and_body);
            let q = choose|q: int| 0 <= q < es.len() && es[q] == g[m];
            assert(entry_valid(es[q]));
        };
        assert forall|b: int, k: int| 0 <= b < bs.len() && 0 <= k < bs[b].1.len() implies (#[trigger] bs[b].1[k]).footer
            == bs[b].0 && bs[b].1[k].subject_and_body == g[0].subject_and_body by {
            assert(g.contains(bs[b].1[k]));
        };
        assert(blocks_ok(bs)) by {
            assert forall|b: int| #![trigger bs[b]] 0 <= b < bs.len() implies footer_ok(bs[b].0) && bs[b].1.len() > 0 by {
                assert(bs[b].1.len() > 0);
                assert(g.contains(bs[b].1[0]));
                assert(bs[b].1[0].footer == bs[b].0);
            };
            assert forall|b: int, k: int| 0 <= b < bs.len() && 0 <= k < bs[b].1.len() implies entry_ok(#[trigger] bs[b].1[k]) by {
                assert(g.contains(bs[b].1[k]));
            };
        };
    };
    // The entries of the groups are those of the messages, rearranged.
    assert forall|i: int| 0 <= i < gs.len() implies (#[trigger] gs[i]).1 == blocks_of(gsorted[i]) && gsorted[i].len() > 0 by {};
    lemma_group_entries(gsorted, gs);
    let ae = all_entries(gs);
    assert(ae.to_multiset() == es.to_multiset());
    lemma_all_messages_entries(gs);
    lemma_distinct_paths(ae, es);
    assert(groups_ok(gs)) by {
        assert forall|i: int| #![trigger gs[i]] 0 <= i < gs.len() implies subject_ok(gs[i].0) && blocks_ok(gs[i].1)
            && gs[i].1.len() > 0 by {
            assert(blocks_match(gs[i].0, gs[i].1));
        };
        assert forall|i: int, j: int| 0 <= i < j < all_paths(gs).len() implies (#[trigger] all_paths(gs)[i]).0
            != (#[trigger] all_paths(gs)[j]).0 by {
            assert(all_paths(gs)[i].0 == ae[i].path && all_paths(gs)[j].0 == ae[j].path);
        };
    };
    assert(gs.len() > 0) by {
        vstd::seq_lib::to_multiset_len(es);
        vstd::seq_lib::to_multiset_len(ae);
        if gs.len() == 0 {
            assert(ae =~= Seq::<EntryView>::empty());
        }
    };
    lemma_split_groups(gs);
    let pf = |e: EntryView| part_of(e);
    lemma_map_ms(ae, es, pf);
    assert(all_messages(gs) =~= ae.map_values(pf));
    assert(es.map_values(pf) =~= infos.map_values(|i: CommitMessageInfoView| info_part(i)));
}

} // verus!
