use git_toprepo::fast_export::parse_oid_exec;
use git_toprepo::fast_export::ChangedFile;
use git_toprepo::fast_export::FastExportEntry;
use git_toprepo::fast_export::FastExportError;
use git_toprepo::fast_export::FastExportParser;
use git_toprepo::fast_export::FileDelete;
use git_toprepo::fast_export::FileModify;

const OUTPUT: &str = "feature done
reset refs/heads/main
commit refs/heads/main
mark :1
original-oid 6fc12aa7d6d06400a70bb522244bb184e3678416
author A Name <a@no.domain> 1672625045 +0100
committer C Name <c@no.domain> 1686121750 +0100
data 2
A

commit refs/heads/main
mark :2
original-oid 9f781a9707757573b16ee5946ab147e4e66857bc
committer C Name <c@no.domain> 1686121750 +0100
encoding ISO-8859-1
data 2
D
from :1
merge ec67a8703750336a938bef740115009b6310892f
M 160000 eeb85c77b614a7ec060f6df5825c9a5c10414307 sub
D old/file name

reset refs/heads/other
from :2

done
";

fn oid(hex: &str) -> Vec<u8> {
    parse_oid_exec(hex.as_bytes()).unwrap()
}

#[test]
fn parses_commits_and_resets() {
    let mut parser = FastExportParser::new(OUTPUT.as_bytes().to_vec());
    let commit_a = match parser.next_entry().unwrap().unwrap() {
        FastExportEntry::Commit(c) => c,
        _ => panic!("expected a commit"),
    };
    assert_eq!(commit_a.branch, Some(b"refs/heads/main".to_vec()));
    assert_eq!(commit_a.author_info, b"A Name <a@no.domain> 1672625045 +0100".to_vec());
    assert_eq!(commit_a.committer_info, b"C Name <c@no.domain> 1686121750 +0100".to_vec());
    assert_eq!(commit_a.message, b"A\n".to_vec());
    assert!(commit_a.file_changes.is_empty());
    assert!(commit_a.parents.is_empty());
    assert_eq!(commit_a.original_id, oid("6fc12aa7d6d06400a70bb522244bb184e3678416"));
    assert_eq!(commit_a.encoding, None);

    let commit_d = match parser.next_entry().unwrap().unwrap() {
        FastExportEntry::Commit(c) => c,
        _ => panic!("expected a commit"),
    };
    // Without an author line, the committer is the author.
    assert_eq!(commit_d.author_info, b"C Name <c@no.domain> 1686121750 +0100".to_vec());
    assert_eq!(commit_d.encoding, Some(b"ISO-8859-1".to_vec()));
    assert_eq!(commit_d.message, b"D\n".to_vec());
    assert_eq!(
        commit_d.parents,
        vec![
            oid("6fc12aa7d6d06400a70bb522244bb184e3678416"),
            oid("ec67a8703750336a938bef740115009b6310892f"),
        ]
    );
    assert_eq!(
        commit_d.file_changes,
        vec![
            ChangedFile::Modified(FileModify {
                path: b"sub".to_vec(),
                mode: b"160000".to_vec(),
                hash: b"eeb85c77b614a7ec060f6df5825c9a5c10414307".to_vec(),
            }),
            ChangedFile::Deleted(FileDelete { path: b"old/file name".to_vec() }),
        ]
    );
    assert_eq!(commit_d.original_id, oid("9f781a9707757573b16ee5946ab147e4e66857bc"));

    match parser.next_entry().unwrap().unwrap() {
        FastExportEntry::Reset(r) => {
            assert_eq!(r.branch, b"refs/heads/other".to_vec());
            assert_eq!(r.from, oid("9f781a9707757573b16ee5946ab147e4e66857bc"));
        },
        _ => panic!("expected a reset"),
    }
    assert!(parser.next_entry().is_none());
    assert!(parser.next_entry().is_none());
}

#[test]
fn object_ids_are_forty_hex_digits() {
    let o = oid("0123456789ABCDEFabcdef0123456789abcdef01");
    assert_eq!(o.len(), 20);
    assert_eq!(o[0], 0x01);
    assert_eq!(o[5], 0xab);
    assert!(parse_oid_exec(b"0123").is_none());
    assert!(parse_oid_exec(b"g123456789abcdef0123456789abcdef01234567").is_none());
}

fn first_error(output: &str) -> FastExportError {
    let mut parser = FastExportParser::new(output.as_bytes().to_vec());
    loop {
        match parser.next_entry() {
            Some(Ok(_)) => {}
            Some(Err(e)) => return e,
            None => panic!("expected an error"),
        }
    }
}

const HEAD: &str = "commit refs/heads/main
original-oid 6fc12aa7d6d06400a70bb522244bb184e3678416
committer C <c@d> 1 +0000
data 1
x
";

#[test]
fn commit_by_object_id_has_no_branch() {
    let out = "commit 6fc12aa7d6d06400a70bb522244bb184e3678416
original-oid 6fc12aa7d6d06400a70bb522244bb184e3678416
committer C <c@d> 1 +0000
data 0

done
";
    let mut parser = FastExportParser::new(out.as_bytes().to_vec());
    match parser.next_entry().unwrap().unwrap() {
        FastExportEntry::Commit(c) => {
            assert_eq!(c.branch, None);
            assert!(c.message.is_empty());
        },
        _ => panic!("expected a commit"),
    }
    assert!(parser.next_entry().is_none());
}

#[test]
fn reports_each_kind_of_error() {
    assert_eq!(first_error("blob\n"), FastExportError::UnexpectedCommand);
    assert_eq!(first_error("commit refs/heads/main\n"), FastExportError::UnexpectedEof);
    assert_eq!(first_error("commit bad name\n"), FastExportError::InvalidBranch);
    assert_eq!(first_error("feature done"), FastExportError::MissingNewline);
    assert_eq!(
        first_error("commit refs/heads/main\ncommitter C\n"),
        FastExportError::ExpectedOriginalOid
    );
    assert_eq!(
        first_error("commit refs/heads/main\noriginal-oid 12\n"),
        FastExportError::BadObjectId
    );
    assert_eq!(
        first_error("commit refs/heads/main\noriginal-oid 6fc12aa7d6d06400a70bb522244bb184e3678416\ndata 1\n"),
        FastExportError::ExpectedCommitter
    );
    assert_eq!(
        first_error("commit refs/heads/main\noriginal-oid 6fc12aa7d6d06400a70bb522244bb184e3678416\ncommitter C\nfrom :1\n"),
        FastExportError::ExpectedData
    );
    assert_eq!(
        first_error("commit refs/heads/main\noriginal-oid 6fc12aa7d6d06400a70bb522244bb184e3678416\ncommitter C\ndata x\n"),
        FastExportError::BadDataLength
    );
    assert_eq!(
        first_error("commit refs/heads/main\noriginal-oid 6fc12aa7d6d06400a70bb522244bb184e3678416\ncommitter C\ndata 99\nshort"),
        FastExportError::TruncatedMessage
    );
    assert_eq!(first_error(&format!("{HEAD}from :7\n")), FastExportError::UnknownMark);
    assert_eq!(
        first_error(&format!("{HEAD}merge 6fc12aa7d6d06400a70bb522244bb184e3678416\n")),
        FastExportError::MergeWithoutFrom
    );
    assert_eq!(first_error(&format!("{HEAD}M 100644 only\n")), FastExportError::BadFileModify);
    assert_eq!(first_error(&format!("{HEAD}C a b\n")), FastExportError::FileCopy);
    assert_eq!(first_error(&format!("{HEAD}R a b\n")), FastExportError::FileRename);
    assert_eq!(first_error(&format!("{HEAD}deleteall\n")), FastExportError::DeleteAll);
    assert_eq!(first_error(&format!("{HEAD}N x y\n")), FastExportError::NoteModify);
}

#[test]
fn read_commit_and_reset_need_their_command() {
    let mut parser = FastExportParser::new(b"x\n".to_vec());
    assert_eq!(parser.read_commit().unwrap_err(), FastExportError::ExpectedCommitLine);
    assert_eq!(parser.read_reset().unwrap_err(), FastExportError::ExpectedResetLine);
}
