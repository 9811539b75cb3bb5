use git_toprepo::commit_message::decode_commit_message;
use git_toprepo::commit_message::calculate_mono_commit_message;
use git_toprepo::commit_message::commit_message_has_footer;
use git_toprepo::commit_message::extract_commit_message_footer;
use git_toprepo::commit_message::get_toprepo_footer_subrepo_path_for_tests_only as get_toprepo_footer_subrepo_path;
use git_toprepo::commit_message::is_footer_line_for_tests_only as is_footer_line;
use git_toprepo::commit_message::split_commit_message;
use git_toprepo::commit_message::CommitMessage;
use git_toprepo::commit_message::CommitMessageInfo;
use git_toprepo::commit_message::EmptyFooterPath;
use git_toprepo::commit_message::PushMessage;
use git_toprepo::commit_message::SplitError;
use git_toprepo::git::GitPath;


fn path_of(s: &str) -> GitPath {
    GitPath::new(s.as_bytes().to_vec())
}

fn info(idx: usize, subject_and_body: &str, footer: &str) -> CommitMessageInfo {
    CommitMessageInfo {
        path: path_of(&format!("sub/{idx}-path")),
        message: Some(CommitMessage {
            subject_and_body: subject_and_body.to_owned(),
            footer: footer.to_owned(),
        }),
        status: format!("status {idx}"),
    }
}

fn push(subject_and_body: &str, footer: &str, topic: Option<&str>) -> PushMessage {
    PushMessage {
        subject_and_body: subject_and_body.to_owned(),
        footer: footer.to_owned(),
        topic: topic.map(|t| t.to_owned()),
    }
}

/// Combining the messages of several repositories and splitting the result
/// gives back each message, its topic taken out of the footer.
#[test]
fn combine_and_split_round_trip() {
    let cases: Vec<Vec<(&str, &str, PushMessage)>> = vec![
        vec![("Subject line\n", "", push("Subject line\n", "", None))],
        vec![(
            "Subject line\n\nSingle body line\n",
            "Footer: A\nTopic: X\nFooter: B\n",
            push("Subject line\n\nSingle body line\n", "Footer: A\nFooter: B\n", Some("X")),
        )],
        vec![
            (
                "Alpha\n\nBody a\n",
                "Change-Id: I1\n",
                push("Alpha\n\nBody a\n", "Change-Id: I1\n", None),
            ),
            ("Beta\n", "Topic: T\n", push("Beta\n", "", Some("T"))),
        ],
        vec![
            ("Same\n", "Footer: C\n", push("Same\n", "Footer: C\n", None)),
            ("Same\n", "Footer: C\n", push("Same\n", "Footer: C\n", None)),
            ("Other\n\nFirst\nparagraph\n", "", push("Other\n\nFirst\nparagraph\n", "", None)),
        ],
    ];
    for case in cases {
        let mut infos = case
            .iter()
            .enumerate()
            .map(|(idx, (sab, footer, _))| info(idx, sab, footer));
        let source_info = infos.next().unwrap();
        let sub_infos: Vec<CommitMessageInfo> = infos.collect();
        let mono_message = calculate_mono_commit_message(source_info, sub_infos);
        let (parts, residual) = split_commit_message(mono_message.clone()).unwrap();
        assert!(residual.is_none(), "{mono_message:?}");
        assert_eq!(parts.len(), case.len());
        for (idx, (_, _, expected)) in case.iter().enumerate() {
            let path = path_of(&format!("sub/{idx}-path"));
            let found = parts.iter().find(|(p, _)| *p == path).map(|(_, m)| m);
            assert_eq!(found.unwrap(), expected, "{mono_message:?}");
        }
    }
}

#[test]
fn mono_message_layout() {
    let mono = calculate_mono_commit_message(
        info(0, "Alpha\n", "Change-Id: I1\n"),
        vec![info(1, "Update git submodules\n", "")],
    );
    assert_eq!(
        mono,
        "Alpha\n\nGit-Toprepo-Ref: sub/1-path status 1\nChange-Id: I1\nGit-Toprepo-Ref: sub/0-path status 0\n"
    );
}

#[test]
fn footer_lines() {
    assert!(is_footer_line("Valid-Key: value"));
    assert!(is_footer_line("Valid-Key1:value"));
    assert!(!is_footer_line("Normal line"));
    assert!(!is_footer_line("Invalid_Key: value"));
    assert!(!is_footer_line("Invalid^Key: value"));
    assert!(!is_footer_line(":Something"));
    assert!(!is_footer_line(""));
}

#[test]
fn toprepo_footer_paths() {
    assert_eq!(
        get_toprepo_footer_subrepo_path("Git-Toprepo-Ref: path/to/submodule 0123456789abcdef")
            .unwrap(),
        Some(path_of("path/to/submodule")),
    );
    assert_eq!(
        get_toprepo_footer_subrepo_path("Git-Toprepo-Ref:   path 0123456789abcdef").unwrap(),
        Some(path_of("path")),
    );
    assert_eq!(
        get_toprepo_footer_subrepo_path("Git-Toprepo-Ref: path").unwrap(),
        Some(path_of("path")),
    );
    assert_eq!(
        get_toprepo_footer_subrepo_path("Git-Toprepo-Ref: <top>").unwrap(),
        Some(path_of("")),
    );
    assert_eq!(get_toprepo_footer_subrepo_path("Other-Footer: foo bar").unwrap(), None);
    assert_eq!(get_toprepo_footer_subrepo_path("Not a footer").unwrap(), None);
    assert_eq!(
        get_toprepo_footer_subrepo_path("Git-Toprepo-Ref: ").unwrap_err(),
        EmptyFooterPath { line: "Git-Toprepo-Ref: ".to_owned() },
    );
    assert_eq!(
        get_toprepo_footer_subrepo_path("Git-Toprepo-Ref:    ").unwrap_err(),
        EmptyFooterPath { line: "Git-Toprepo-Ref:    ".to_owned() },
    );
    assert_eq!(
        get_toprepo_footer_subrepo_path("Git-Toprepo-Ref: ").unwrap_err().to_text(),
        "Empty submodule path in TopRepo footer \"Git-Toprepo-Ref: \"",
    );
}

#[test]
fn split_commit_message_example() {
    let full_message = "\
Subject line

Topic: not-the-footer-yet

Body line 1
Body line 2

Footer-Key: value
Git-Toprepo-Ref: sub1 0123456789abcdef0123456789abcdef01234567
Git-Toprepo-Ref: sub2 89abcdef0123456789abcdef0123456789abcdef0
Topic: my-topic

Subject 2

Another-Footer: another value
Git-Toprepo-Ref: <top> fedcba9876543210fedcba9876543210fedcba98

Residual message

Topic: with-topic
";
    let (messages, residual) = split_commit_message(full_message.to_owned()).unwrap();
    let find = |p: &str| {
        messages
            .iter()
            .find(|(path, _)| *path == path_of(p))
            .map(|(_, m)| m.clone())
            .unwrap()
    };
    assert_eq!(messages.len(), 3);
    let sub1 = find("sub1");
    assert_eq!(sub1, find("sub2"));
    assert_eq!(sub1.topic, Some("my-topic".to_owned()));
    assert_eq!(
        sub1.full_message(),
        "Subject line\n\nTopic: not-the-footer-yet\n\nBody line 1\nBody line 2\n\nFooter-Key: value\n"
    );
    let top = find("");
    assert_eq!(top.topic, None);
    assert_eq!(top.full_message(), "Subject 2\n\nAnother-Footer: another value\n");
    let residual = residual.unwrap();
    assert_eq!(residual.full_message(), "Residual message\n");
    assert_eq!(residual.topic, Some("with-topic".to_owned()));
}

#[test]
fn split_errors_carry_their_messages() {
    let msg = "S\n\nGit-Toprepo-Ref: a 1\n\nT\n\nGit-Toprepo-Ref: a 2\n";
    assert_eq!(
        split_commit_message(msg.to_owned()).unwrap_err().to_text(),
        "Multiple commit messages for submodule a"
    );
    let msg = "A\n\nGit-Toprepo-Ref: sub1 0123\nTopic: a\nTopic: b\n";
    assert_eq!(split_commit_message(msg.to_owned()).unwrap_err().to_text(), "Multiple topic footers: b a");
}

#[test]
fn split_commit_message_errors() {
    let msg = "A\n\nGit-Toprepo-Ref: sub1 0123\nTopic: a\n\nB\n\nGit-Toprepo-Ref: sub1 4567\n";
    assert!(matches!(
        split_commit_message(msg.to_owned()),
        Err(SplitError::MultipleMessages { .. })
    ));
    let msg = "A\n\nGit-Toprepo-Ref:  \n";
    assert!(matches!(
        split_commit_message(msg.to_owned()),
        Err(SplitError::EmptyFooterPath { .. })
    ));
    let msg = "A\n\nGit-Toprepo-Ref: sub1 0123\nTopic: a\nTopic: b\n";
    assert!(matches!(
        split_commit_message(msg.to_owned()),
        Err(SplitError::MultipleTopics { .. })
    ));
}

#[test]
fn extract_commit_message_footer_examples() {
    let verify_no_footer = |msg: &str| {
        assert_eq!(extract_commit_message_footer(msg), (msg.to_owned(), None));
    };
    verify_no_footer("Subject line\nmore subject");
    verify_no_footer("Subject line\n\nBody (invalid footer line)\n");
    verify_no_footer("Subject line\n\nInvalid_Key: value\nValid-Key: value");
    assert_eq!(
        extract_commit_message_footer("Subject line\n\nFooter-Key: value"),
        ("Subject line\n\n".to_owned(), Some("Footer-Key: value".to_owned())),
    );
    verify_no_footer("Subject line\n\nFooter Key: value");
    assert_eq!(
        extract_commit_message_footer("Subject line\n\nBody\n\nFooter-Key: value"),
        ("Subject line\n\nBody\n\n".to_owned(), Some("Footer-Key: value".to_owned()))
    );
    verify_no_footer("Subject line\n\nBody\n\nFooter Key: value");
    assert_eq!(
        extract_commit_message_footer(
            "Subject line\n\nFooter-Key: value\nAnother-Footer: another value"
        ),
        (
            "Subject line\n\n".to_owned(),
            Some("Footer-Key: value\nAnother-Footer: another value".to_owned())
        )
    );
    verify_no_footer("Subject line\n\nFooter Key: value\nAnother-Footer: value\n");
    verify_no_footer("Subject line\n\nBad^Key: value");
    verify_no_footer("Subject line\n\nBad_Key: value");
    assert_eq!(
        extract_commit_message_footer(
            "With CRLF, spaces\nand extra newlines\n\r\n\r\nFooter-Key: value\r\n   \n"
        ),
        (
            "With CRLF, spaces\nand extra newlines\n\r\n\r\n".to_owned(),
            Some("Footer-Key: value\r\n   \n".to_owned())
        )
    );
    assert!(!commit_message_has_footer("Subject line"));
    assert!(commit_message_has_footer("Subject line\n\nFooter-Key: value"));
}

#[test]
fn commit_messages_are_decoded_by_their_encoding() {
    assert_eq!(decode_commit_message(None, b"Subject\n\nBody\n"), "Subject\n\nBody\n");
    assert_eq!(decode_commit_message(Some(b"latin1"), b"caf\xe9"), "caf\u{e9}");
    assert_eq!(decode_commit_message(Some(b"no-such-encoding"), b"plain"), "plain");
    assert_eq!(decode_commit_message(None, b"bad \xff byte"), "bad \u{fffd} byte");
}

/// Every combination of these messages over one and two repositories is
/// given back by splitting the combined message.
#[test]
fn combine_and_split_many_combinations() {
    let subjects = ["Subject line", "Subject...\n... lines"];
    let bodies = ["\n", "\n\nSingle body line\n", "\n\nFirst\nparagraph\n\nSecond\nparagraph\n"];
    let footers: [(&str, &str, Option<&str>); 3] = [
        ("", "", None),
        ("Footer: E\n", "Footer: E\n", None),
        ("Footer: A\nTopic: X\nFooter: B\n", "Footer: A\nFooter: B\n", Some("X")),
    ];
    let mut messages: Vec<(String, &str, PushMessage)> = Vec::new();
    for s in subjects {
        for b in bodies {
            for (f, kept, topic) in footers {
                let sab = format!("{s}{b}");
                messages.push((sab.clone(), f, push(&sab, kept, topic)));
            }
        }
    }
    let mut cases: Vec<Vec<usize>> = Vec::new();
    for i in 0..messages.len() {
        cases.push(vec![i]);
        for j in 0..messages.len() {
            cases.push(vec![i, j]);
        }
    }
    for case in cases {
        let mut infos = case
            .iter()
            .enumerate()
            .map(|(idx, m)| info(idx, &messages[*m].0, messages[*m].1));
        let source_info = infos.next().unwrap();
        let sub_infos: Vec<CommitMessageInfo> = infos.collect();
        let mono_message = calculate_mono_commit_message(source_info, sub_infos);
        let (parts, residual) = split_commit_message(mono_message.clone()).unwrap();
        assert!(residual.is_none(), "{mono_message:?}");
        assert_eq!(parts.len(), case.len());
        for (idx, m) in case.iter().enumerate() {
            let path = path_of(&format!("sub/{idx}-path"));
            let found = parts.iter().find(|(p, _)| *p == path).map(|(_, m)| m);
            assert_eq!(found.unwrap(), &messages[*m].2, "{mono_message:?}");
        }
    }
}

#[test]
fn messages_without_toprepo_footers_split_into_a_residual_only() {
    let (parts, residual) = split_commit_message("Subject\n\nBody\n\nFooter: x\n".to_owned()).unwrap();
    assert!(parts.is_empty());
    assert_eq!(residual.unwrap().full_message(), "Subject\n\nBody\n\nFooter: x\n");
    assert!(matches!(
        split_commit_message("S\n\nTopic: a\nTopic: b\n".to_owned()),
        Err(SplitError::MultipleTopics { .. })
    ));
}

#[test]
fn footer_is_the_last_paragraph() {
    assert_eq!(
        extract_commit_message_footer("Subject\n\nA-Key: 1\n\nB-Key: 2\n"),
        ("Subject\n\nA-Key: 1\n\n".to_owned(), Some("B-Key: 2\n".to_owned()))
    );
    assert_eq!(
        extract_commit_message_footer("Subject\n\nA-Key: 1\nplain text"),
        ("Subject\n\nA-Key: 1\nplain text".to_owned(), None)
    );
    assert_eq!(
        extract_commit_message_footer("A-Key: 1\nB-Key: 2"),
        ("A-Key: 1\nB-Key: 2".to_owned(), None)
    );
}
