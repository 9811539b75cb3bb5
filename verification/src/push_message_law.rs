//! What rewriting a commit message for pushing keeps: every line but the
//! `Topic: ` lines and the `^-- ` lines that name submodule commits, in
//! order; and the topic of the last `Topic: ` line.
use crate::push::drop_double_newline_end;
use crate::push::push_message_fold;
use crate::push::spec_rewrite_push_message;
use crate::text::lines_of;
use vstd::prelude::*;

verus! {

/// The line starts with `Topic: `.
pub open spec fn starts_topic(line: Seq<char>) -> bool {
    line.len() >= 7 && line.take(7) == seq!['T', 'o', 'p', 'i', 'c', ':', ' ']
}

/// The line starts with `^-- `.
pub open spec fn starts_marker(line: Seq<char>) -> bool {
    line.len() >= 4 && line.take(4) == seq!['^', '-', '-', ' ']
}

/// A line that the pushed message keeps.
pub open spec fn kept_line(line: Seq<char>) -> bool {
    !starts_topic(line) && !starts_marker(line)
}

/// The lines, each followed by a line feed.
pub open spec fn line_text(lines: Seq<Seq<char>>) -> Seq<char>
    decreases lines.len(),
{
    if lines.len() == 0 {
        Seq::empty()
    } else {
        line_text(lines.drop_last()) + lines.last() + seq!['\n']
    }
}

/// `k` line feeds.
pub open spec fn newlines(k: nat) -> Seq<char> {
    Seq::new(k, |i: int| '\n')
}

proof fn lemma_fold(lines: Seq<Seq<char>>)
    ensures
        push_message_fold(lines).0 == line_text(lines.filter(|l: Seq<char>| kept_line(l))),
        (forall|j: int| 0 <= j < lines.len() ==> !starts_topic(#[trigger] lines[j])) ==> push_message_fold(lines).1 is None,
        forall|j: int|
            0 <= j < lines.len() && starts_topic(#[trigger] lines[j]) && (forall|i: int|
                j < i < lines.len() ==> !starts_topic(#[trigger] lines[i])) ==> push_message_fold(lines).1 == Some(
                lines[j].skip(7),
            ),
    decreases lines.len(),
{
    reveal(Seq::filter);
    let f = |l: Seq<char>| kept_line(l);
    if lines.len() == 0 {
        assert(lines.filter(f) =~= Seq::<Seq<char>>::empty());
    } else {
        let d = lines.drop_last();
        let l = lines.last();
        let n = d.len() as int;
        lemma_fold(d);
        assert(lines.filter(f) == if f(l) {
            d.filter(f).push(l)
        } else {
            d.filter(f)
        });
        assert forall|j: int| 0 <= j < n implies lines[j] == d[j] by {};
        assert(lines[n] == l);
        if f(l) {
            let e = d.filter(f).push(l);
            assert(e.drop_last() =~= d.filter(f));
            assert(line_text(e) == line_text(d.filter(f)) + l + seq!['\n']);
        }
        if starts_topic(l) {
            assert forall|j: int|
                0 <= j < lines.len() && starts_topic(#[trigger] lines[j]) && (forall|i: int|
                    j < i < lines.len() ==> !starts_topic(#[trigger] lines[i])) implies push_message_fold(lines).1
                == Some(lines[j].skip(7)) by {
                if j < n {
                    assert(!starts_topic(lines[n]));
                }
            };
        } else {
            assert forall|j: int|
                0 <= j < lines.len() && starts_topic(#[trigger] lines[j]) && (forall|i: int|
                    j < i < lines.len() ==> !starts_topic(#[trigger] lines[i])) implies push_message_fold(lines).1
                == Some(lines[j].skip(7)) by {
                assert(j < n);
                assert(starts_topic(d[j]));
                assert forall|i: int| j < i < d.len() implies !starts_topic(#[trigger] d[i]) by {
                    assert(!starts_topic(lines[i]));
                };
            };
            if forall|j: int| 0 <= j < lines.len() ==> !starts_topic(#[trigger] lines[j]) {
                assert forall|j: int| 0 <= j < d.len() implies !starts_topic(#[trigger] d[j]) by {
                    assert(!starts_topic(lines[j]));
                };
            }
        }
    }
}

/// Taking off the trailing `\n\n` takes off line feeds only, as many as
/// leave the text ending in at most one line feed.
proof fn lemma_drop_double_newline_end(s: Seq<char>) -> (k: nat)
    ensures
        drop_double_newline_end(s) + newlines(k) == s,
        k > 0 ==> drop_double_newline_end(s).len() > 0 && drop_double_newline_end(s).last() == '\n',
        !(drop_double_newline_end(s).len() >= 2 && drop_double_newline_end(s)[drop_double_newline_end(s).len() - 2] == '\n'
            && drop_double_newline_end(s).last() == '\n'),
    decreases s.len(),
{
    let nn = seq!['\n', '\n'];
    if crate::text::has_suffix(s, nn) {
        let d = s.drop_last();
        let k0 = lemma_drop_double_newline_end(d);
        let t = drop_double_newline_end(d);
        assert(s.subrange(s.len() - 2, s.len() as int)[1] == s[s.len() - 1]);
        assert(s.subrange(s.len() - 2, s.len() as int)[0] == s[s.len() - 2]);
        assert(t + newlines(k0 + 1) =~= (t + newlines(k0)).push('\n'));
        assert(d.push(s.last()) =~= s);
        if k0 == 0 {
            assert(t == d);
            assert(d.last() == s[s.len() - 2]);
        }
        (k0 + 1) as nat
    } else {
        assert(s + newlines(0) =~= s);
        if s.len() >= 2 && s[s.len() - 2] == '\n' && s.last() == '\n' {
            assert(s.subrange(s.len() - 2, s.len() as int) =~= nn);
        }
        0
    }
}

/// Rewriting a commit message for pushing removes exactly the lines that
/// start with `Topic: ` or `^-- `, wherever they stand: the kept lines, in
/// order, each ended by a line feed, are the rewritten message followed by
/// the line feeds taken off its end, which leave it ending in at most one
/// line feed. The topic is that of the last `Topic: ` line, and there is
/// none where no line gives one.
pub proof fn law_push_message_keeps_other_lines(message: Seq<char>)
    ensures
        ({
            let lines = lines_of(message);
            let (text, topic) = spec_rewrite_push_message(message);
            &&& exists|k: nat|
                #[trigger] (text + newlines(k)) == line_text(lines.filter(|l: Seq<char>| kept_line(l))) && (k > 0
                    ==> text.len() > 0 && text.last() == '\n')
            &&& !(text.len() >= 2 && text[text.len() - 2] == '\n' && text.last() == '\n')
            &&& (forall|j: int| 0 <= j < lines.len() ==> !starts_topic(#[trigger] lines[j])) ==> topic is None
            &&& forall|j: int|
                0 <= j < lines.len() && starts_topic(#[trigger] lines[j]) && (forall|i: int|
                    j < i < lines.len() ==> !starts_topic(#[trigger] lines[i])) ==> topic == Some(lines[j].skip(7))
        }),
{
    let lines = lines_of(message);
    lemma_fold(lines);
    let k = lemma_drop_double_newline_end(push_message_fold(lines).0);
    let text = spec_rewrite_push_message(message).0;
    assert(text + newlines(k) == line_text(lines.filter(|l: Seq<char>| kept_line(l))));
}

} // verus!
