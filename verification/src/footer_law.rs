//! Where a commit message's footer starts: at the last paragraph, when that
//! paragraph follows an empty line and holds footer lines alone.
use crate::commit_message::footer_scan;
use crate::commit_message::spec_extract_footer;
use crate::commit_message::spec_is_footer_line;
use crate::text::split_on;
use crate::text::trim_start;
use vstd::prelude::*;

verus! {

/// A line of white space only, which separates paragraphs.
pub open spec fn blank(line: Seq<char>) -> bool {
    trim_start(line).len() == 0
}

/// Where line `k` starts in the text that the lines were split from.
pub open spec fn line_offset(lines: Seq<Seq<char>>, k: int) -> int
    decreases k,
{
    if k <= 0 {
        0
    } else {
        line_offset(lines, k - 1) + lines[k - 1].len() + 1
    }
}

/// Line `k` starts the footer: it is a footer line after an empty line,
/// every line after it is empty or a footer line, and no paragraph starts
/// after it.
pub open spec fn starts_footer(lines: Seq<Seq<char>>, k: int) -> bool {
    &&& 1 <= k < lines.len()
    &&& !blank(lines[k])
    &&& spec_is_footer_line(lines[k])
    &&& blank(lines[k - 1])
    &&& forall|j: int| k < j < lines.len() ==> blank(#[trigger] lines[j]) || spec_is_footer_line(lines[j])
    &&& forall|j: int| k < j < lines.len() && !blank(#[trigger] lines[j]) ==> !blank(lines[j - 1])
}

/// At most one line starts the footer.
proof fn lemma_starts_footer_unique(lines: Seq<Seq<char>>, k: int, m: int)
    requires
        starts_footer(lines, k),
        starts_footer(lines, m),
    ensures
        k == m,
{
    if k < m {
        assert(!blank(lines[m]));
    } else if m < k {
        assert(!blank(lines[k]));
    }
}

proof fn lemma_line_offset_push(lines: Seq<Seq<char>>, l: Seq<char>, k: int)
    requires
        0 <= k <= lines.len(),
    ensures
        line_offset(lines.push(l), k) == line_offset(lines, k),
    decreases k,
{
    if k > 0 {
        lemma_line_offset_push(lines, l, k - 1);
        assert(lines.push(l)[k - 1] == lines[k - 1]);
    }
}

/// What scanning the lines finds: the line that starts the footer, whether
/// the last line was empty, and the offset after the lines.
proof fn lemma_footer_scan(lines: Seq<Seq<char>>)
    ensures
        footer_scan(lines).1 == (lines.len() > 0 && blank(lines.last())),
        footer_scan(lines).2 == line_offset(lines, lines.len() as int),
        footer_scan(lines).0 matches Some(o) ==> exists|k: int| #[trigger] starts_footer(lines, k) && o == line_offset(lines, k),
        footer_scan(lines).0 is None ==> forall|k: int| !#[trigger] starts_footer(lines, k),
    decreases lines.len(),
{
    if lines.len() > 0 {
        let d = lines.drop_last();
        let l = lines.last();
        let n = d.len() as int;
        lemma_footer_scan(d);
        assert(lines == d.push(l));
        lemma_line_offset_push(d, l, n);
        assert forall|k: int| 0 <= k <= n implies line_offset(lines, k) == line_offset(d, k) by {
            lemma_line_offset_push(d, l, k);
        };
        assert(line_offset(lines, n + 1) == line_offset(d, n) + l.len() + 1);
        // A line that started the footer before still does, and no other.
        if blank(l) {
            assert forall|k: int| #[trigger] starts_footer(lines, k) == starts_footer(d, k) by {
                if 1 <= k < n {
                    assert forall|j: int| k < j < n implies lines[j] == d[j] by {};
                    assert(lines[k] == d[k] && lines[k - 1] == d[k - 1]);
                }
            };
            match footer_scan(d).0 {
                Some(o) => {
                    let k = choose|k: int| #[trigger] starts_footer(d, k) && o == line_offset(d, k);
                    assert(starts_footer(lines, k));
                },
                None => {},
            }
        } else if spec_is_footer_line(l) {
            if footer_scan(d).1 {
                assert(starts_footer(lines, n)) by {
                    assert(lines[n] == l);
                    assert(lines[n - 1] == d.last());
                };
                assert forall|k: int| #[trigger] starts_footer(lines, k) implies k == n by {
                    lemma_starts_footer_unique(lines, k, n);
                };
            } else {
                assert forall|k: int| #[trigger] starts_footer(lines, k) == starts_footer(d, k) by {
                    if 1 <= k < n {
                        assert forall|j: int| k < j < n implies lines[j] == d[j] by {};
                        assert(lines[k] == d[k] && lines[k - 1] == d[k - 1]);
                        assert(lines[n] == l);
                        if starts_footer(d, k) {
                            assert(!blank(lines[n - 1]));
                        }
                    }
                    if k == n && n >= 1 {
                        assert(lines[n - 1] == d.last());
                    }
                };
                match footer_scan(d).0 {
                    Some(o) => {
                        let k = choose|k: int| #[trigger] starts_footer(d, k) && o == line_offset(d, k);
                        assert(starts_footer(lines, k));
                    },
                    None => {},
                }
            }
        } else {
            assert forall|k: int| !#[trigger] starts_footer(lines, k) by {
                if 1 <= k < n {
                    assert(lines[n] == l);
                }
            };
        }
    }
}

/// The footer of a commit message, as extracting it finds it, is the last
/// paragraph when that paragraph follows an empty line and holds footer
/// lines alone (empty lines may follow it): the message splits at the start
/// of the line that begins it. Where no line begins such a paragraph, the
/// message has no footer.
pub proof fn law_footer_is_last_paragraph(message: Seq<char>)
    ensures
        ({
            let lines = split_on(message, '\n');
            &&& forall|k: int|
                #[trigger] starts_footer(lines, k) ==> spec_extract_footer(message) == (
                    message.take(line_offset(lines, k)),
                    Some(message.skip(line_offset(lines, k))),
                )
            &&& (forall|k: int| !#[trigger] starts_footer(lines, k)) ==> spec_extract_footer(message)
                == (message, None::<Seq<char>>)
        }),
{
    let lines = split_on(message, '\n');
    lemma_footer_scan(lines);
    assert forall|k: int| #[trigger] starts_footer(lines, k) implies spec_extract_footer(message) == (
        message.take(line_offset(lines, k)),
        Some(message.skip(line_offset(lines, k))),
    ) by {
        match footer_scan(lines).0 {
            Some(o) => {
                let m = choose|m: int| #[trigger] starts_footer(lines, m) && o == line_offset(lines, m);
                lemma_starts_footer_unique(lines, k, m);
            },
            None => {},
        }
    };
    if forall|k: int| !#[trigger] starts_footer(lines, k) {
        match footer_scan(lines).0 {
            Some(o) => {
                let m = choose|m: int| #[trigger] starts_footer(lines, m) && o == line_offset(lines, m);
            },
            None => {},
        }
    }
}

} // verus!
