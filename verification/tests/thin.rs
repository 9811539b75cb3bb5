use git_toprepo::git::GitPath;
use git_toprepo::thin::ThinCommitGraph;
use git_toprepo::thin::ThinSubmodule;
use git_toprepo::thin::ThinSubmoduleContent;

/// 0 -- 1 -- 3
///  \-- 2 --/
/// and 4, a root of its own.
fn graph() -> ThinCommitGraph {
    let mut g = ThinCommitGraph::new();
    assert_eq!(g.new_rc(b"a".to_vec(), Vec::new(), vec![], None, Vec::new()), 0);
    assert_eq!(g.new_rc(b"b".to_vec(), Vec::new(), vec![0], None, Vec::new()), 1);
    assert_eq!(g.new_rc(b"c".to_vec(), Vec::new(), vec![0], None, Vec::new()), 2);
    assert_eq!(g.new_rc(b"d".to_vec(), Vec::new(), vec![1, 2], None, Vec::new()), 3);
    assert_eq!(g.new_rc(b"e".to_vec(), Vec::new(), vec![], None, Vec::new()), 4);
    g
}

#[test]
fn depth_is_the_longest_path_to_a_root() {
    let mut g = graph();
    assert_eq!(g.commit(0).depth, 0);
    assert_eq!(g.commit(1).depth, 1);
    assert_eq!(g.commit(3).depth, 2);
    assert_eq!(g.commit(4).depth, 0);
    assert_eq!(g.new_rc(b"f".to_vec(), Vec::new(), vec![4, 3], None, Vec::new()), 5);
    assert_eq!(g.commit(5).depth, 3);
    assert_eq!(g.len(), 6);
    assert_eq!(g.commit(5).commit_id, b"f".to_vec());
}

#[test]
fn parents_are_loaded_first_and_once() {
    let g = graph();
    let mut loaded = vec![false; 5];
    let order = g.cached_load_order(&mut loaded, &vec![3]);
    assert_eq!(order.len(), 4);
    for (k, &c) in order.iter().enumerate() {
        for &p in &g.commit(c).parents {
            assert!(order[..k].contains(&p), "{p} before {c}");
        }
    }
    assert_eq!(order[order.len() - 1], 3);
    assert_eq!(loaded, vec![true, true, true, true, false]);
}

#[test]
fn loaded_commits_are_not_loaded_again() {
    let g = graph();
    let mut loaded = vec![true, true, false, false, false];
    let order = g.cached_load_order(&mut loaded, &vec![3, 4, 2]);
    assert_eq!(order, vec![2, 3, 4]);
    assert_eq!(loaded, vec![true; 5]);
}

#[test]
fn nothing_to_load_without_tips() {
    let g = graph();
    let mut loaded = vec![false; 5];
    assert!(g.cached_load_order(&mut loaded, &vec![]).is_empty());
    assert_eq!(loaded, vec![false; 5]);
}

use git_toprepo::fast_export::ChangedFile;
use git_toprepo::fast_export::FastExportCommit;
use git_toprepo::fast_export::FileDelete;
use git_toprepo::fast_export::FileModify;
use git_toprepo::thin::get_dot_gitmodules_update;
use git_toprepo::thin::parse_octal_u32_exec;
use git_toprepo::thin::DotGitModulesError;
use git_toprepo::thin::ExportedFileEntry;

fn exported(changes: Vec<ChangedFile>) -> FastExportCommit {
    FastExportCommit {
        branch: None,
        author_info: Vec::new(),
        committer_info: Vec::new(),
        encoding: None,
        message: Vec::new(),
        file_changes: changes,
        parents: Vec::new(),
        original_id: Vec::new(),
    }
}

fn modify(path: &str, mode: &[u8], hash: &[u8]) -> ChangedFile {
    ChangedFile::Modified(FileModify { path: path.as_bytes().to_vec(), mode: mode.to_vec(), hash: hash.to_vec() })
}

const BLOB: &[u8] = b"0123456789abcdef0123456789abcdef01234567";

#[test]
fn octal_modes() {
    assert_eq!(parse_octal_u32_exec(b"100644"), Some(0o100644));
    assert_eq!(parse_octal_u32_exec(b"+17"), Some(15));
    assert_eq!(parse_octal_u32_exec(b"37777777777"), Some(u32::MAX));
    assert_eq!(parse_octal_u32_exec(b"40000000000"), None);
    assert_eq!(parse_octal_u32_exec(b"8"), None);
    assert_eq!(parse_octal_u32_exec(b""), None);
    assert_eq!(parse_octal_u32_exec(b"+"), None);
    assert_eq!(parse_octal_u32_exec(b"-1"), None);
}

#[test]
fn dot_gitmodules_updates() {
    assert_eq!(get_dot_gitmodules_update(&exported(vec![modify("a", b"100644", BLOB)])), Ok(None));
    let deleted = ChangedFile::Deleted(FileDelete { path: b".gitmodules".to_vec() });
    assert_eq!(get_dot_gitmodules_update(&exported(vec![modify("a", b"100644", BLOB), deleted])), Ok(Some(None)));
    let mut id = Vec::new();
    for k in 0..20 {
        id.push(BLOB[2 * k..2 * k + 2].iter().fold(0u8, |acc, &c| {
            acc * 16 + if c.is_ascii_digit() { c - b'0' } else { c - b'a' + 10 }
        }));
    }
    assert_eq!(
        get_dot_gitmodules_update(&exported(vec![modify(".gitmodules", b"100644", BLOB)])),
        Ok(Some(Some(ExportedFileEntry { mode: 0o100644, id })))
    );
    assert_eq!(
        get_dot_gitmodules_update(&exported(vec![modify(".gitmodules", b"100644", b"xyz")])),
        Err(DotGitModulesError::BadBlobId)
    );
    assert_eq!(
        get_dot_gitmodules_update(&exported(vec![modify(".gitmodules", b"10\xff", BLOB)])),
        Err(DotGitModulesError::BadModeEncoding(b"10\xff".to_vec()))
    );
    assert_eq!(
        get_dot_gitmodules_update(&exported(vec![modify(".gitmodules", b"1009", BLOB)])),
        Err(DotGitModulesError::BadMode("1009".to_owned()))
    );
}

#[test]
fn descendants_follow_the_parents() {
    let g = graph();
    assert!(g.is_descendant_of(3, 0));
    assert!(g.is_descendant_of(3, 2));
    assert!(g.is_descendant_of(2, 2));
    assert!(!g.is_descendant_of(2, 1));
    assert!(!g.is_descendant_of(0, 3));
    assert!(!g.is_descendant_of(4, 0));
}

#[test]
fn submodule_paths_follow_the_first_parent() {
    let mut g = ThinCommitGraph::new();
    let sub = |id: &[u8]| ThinSubmodule::AddedOrModified(ThinSubmoduleContent { repo_name: None, commit_id: id.to_vec() });
    let p = |s: &str| GitPath::new(s.as_bytes().to_vec());
    g.new_rc(b"a".to_vec(), b"t".to_vec(), vec![], None, vec![(p("x"), sub(b"1")), (p("y"), sub(b"2"))]);
    g.new_rc(b"b".to_vec(), b"t".to_vec(), vec![0], None, vec![(p("y"), ThinSubmodule::Removed)]);
    g.new_rc(b"c".to_vec(), b"t".to_vec(), vec![1], None, vec![]);
    assert_eq!(g.commit(1).submodule_paths, vec![p("x")]);
    assert_eq!(g.commit(2).submodule_paths, vec![p("x")]);
    assert_eq!(g.get_submodule(2, &p("x")), Some(&sub(b"1")));
    assert_eq!(g.get_submodule(2, &p("y")), Some(&ThinSubmodule::Removed));
    assert_eq!(g.get_submodule(2, &p("z")), None);
}
