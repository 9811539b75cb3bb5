use git_toprepo::fast_export::ChangedFile;
use git_toprepo::fast_export::FileDelete;
use git_toprepo::fast_export::FileModify;
use git_toprepo::git::GitPath;
use git_toprepo::mono::ExpandedOrRemovedSubmodule;
use git_toprepo::mono::ExpandedSubmodule;
use git_toprepo::mono::MonoRepoGraph;
use git_toprepo::mono::MonoRepoParent;
use git_toprepo::mono::OriginalSubmodParent;
use git_toprepo::mono::SubmoduleContent;
use git_toprepo::push::split_push_commit;
use git_toprepo::push::PushGroup;
use git_toprepo::push::ResolvedChange;
use git_toprepo::push::SplitPushError;
use git_toprepo::repo_name::RepoName;
use git_toprepo::repo_name::SubRepoName;

fn path(p: &str) -> GitPath {
    GitPath::new(p.as_bytes().to_vec())
}

fn expanded(p: &str, repo: &str, id: &[u8]) -> (GitPath, ExpandedOrRemovedSubmodule) {
    (
        path(p),
        ExpandedOrRemovedSubmodule::Expanded(ExpandedSubmodule::Expanded(SubmoduleContent {
            repo_name: SubRepoName::new(repo.to_owned()),
            orig_commit_id: id.to_vec(),
        })),
    )
}

/// 0 (top T0, sub at A) -- 1 (sub at B) -- 2 (top T2)
/// and 3, a commit of a subrepo only, without top repository content.
fn graph() -> MonoRepoGraph {
    let mut g = MonoRepoGraph::new();
    assert_eq!(g.add_commit(vec![], Some(b"T0".to_vec()), vec![expanded("sub", "subx", b"A")]), 0);
    assert_eq!(g.add_commit(vec![MonoRepoParent::Mono(0)], None, vec![expanded("sub", "subx", b"B")]), 1);
    assert_eq!(g.add_commit(vec![MonoRepoParent::Mono(1)], Some(b"T2".to_vec()), vec![]), 2);
    assert_eq!(
        g.add_commit(
            vec![MonoRepoParent::OriginalSubmod(OriginalSubmodParent {
                path: path("other"),
                commit_id: b"X".to_vec(),
            })],
            None,
            vec![],
        ),
        3
    );
    g
}

fn modify(p: &str) -> ChangedFile {
    ChangedFile::Modified(FileModify {
        path: p.as_bytes().to_vec(),
        mode: b"100644".to_vec(),
        hash: b"0123".to_vec(),
    })
}

fn top_change(p: &str) -> ResolvedChange {
    ResolvedChange {
        submod_path: path(""),
        repo_name: RepoName::Top,
        push_url: "ssh://host/top.git".to_owned(),
        change: modify(p),
    }
}

fn sub_change(change: ChangedFile) -> ResolvedChange {
    ResolvedChange {
        submod_path: path("sub"),
        repo_name: RepoName::SubRepo(SubRepoName::new("subx".to_owned())),
        push_url: "ssh://host/subx.git".to_owned(),
        change,
    }
}

fn unwrap_groups(r: Result<Vec<PushGroup>, SplitPushError>) -> Vec<PushGroup> {
    match r {
        Ok(v) => v,
        Err(e) => panic!("unexpected error {e:?}"),
    }
}

#[test]
fn commit_without_changes_is_refused() {
    let g = graph();
    let r = split_push_commit(&g, &vec![2], vec![], true);
    assert_eq!(r.unwrap_err(), SplitPushError::EmptyCommit);
}

#[test]
fn several_repositories_need_a_topic() {
    let g = graph();
    let r = split_push_commit(&g, &vec![2], vec![top_change("a"), sub_change(modify("b"))], false);
    assert_eq!(r.unwrap_err(), SplitPushError::MultipleReposWithoutTopic);
}

#[test]
fn one_repository_needs_no_topic() {
    let g = graph();
    let groups = unwrap_groups(split_push_commit(&g, &vec![2], vec![top_change("a"), top_change("b")], false));
    assert_eq!(groups.len(), 1);
    assert_eq!(groups[0].submod_path, path(""));
    assert_eq!(groups[0].repo_name, RepoName::Top);
    assert_eq!(groups[0].push_url, "ssh://host/top.git");
    assert_eq!(groups[0].file_changes, vec![modify("a"), modify("b")]);
    assert_eq!(groups[0].parents, vec![b"T2".to_vec()]);
}

#[test]
fn groups_come_in_order_of_paths_with_their_parents() {
    let g = graph();
    let delete = ChangedFile::Deleted(FileDelete { path: b"gone".to_vec() });
    let groups = unwrap_groups(split_push_commit(
        &g,
        &vec![1],
        vec![sub_change(modify("x")), top_change("a"), sub_change(delete.clone())],
        true,
    ));
    assert_eq!(groups.len(), 2);
    assert_eq!(groups[0].submod_path, path(""));
    assert_eq!(groups[0].file_changes, vec![modify("a")]);
    // The top repository commit of 1 is found through its first parent.
    assert_eq!(groups[0].parents, vec![b"T0".to_vec()]);
    assert_eq!(groups[1].submod_path, path("sub"));
    assert_eq!(groups[1].repo_name, RepoName::SubRepo(SubRepoName::new("subx".to_owned())));
    assert_eq!(groups[1].push_url, "ssh://host/subx.git");
    assert_eq!(groups[1].file_changes, vec![modify("x"), delete]);
    assert_eq!(groups[1].parents, vec![b"B".to_vec()]);
}

#[test]
fn parents_holding_the_same_commit_give_it_once() {
    let g = graph();
    // 1 and 2 both hold the submodule at B; 0 holds it at A.
    let groups = unwrap_groups(split_push_commit(&g, &vec![1, 2, 0], vec![sub_change(modify("x"))], false));
    assert_eq!(groups.len(), 1);
    assert_eq!(groups[0].parents, vec![b"B".to_vec(), b"A".to_vec()]);
}

#[test]
fn submodule_missing_in_parents_is_refused() {
    let g = graph();
    let r = split_push_commit(&g, &vec![3], vec![sub_change(modify("x"))], false);
    assert_eq!(
        r.unwrap_err(),
        SplitPushError::SubmoduleNotInParents { name: SubRepoName::new("subx".to_owned()), path: path("sub") }
    );
}

#[test]
fn top_repository_missing_in_parents_is_refused() {
    let g = graph();
    let r = split_push_commit(&g, &vec![3], vec![top_change("a")], false);
    assert_eq!(r.unwrap_err(), SplitPushError::NoTopParent);
}

#[test]
fn orig_commit_id_of_each_kind() {
    assert_eq!(ExpandedSubmodule::KeptAsSubmodule(b"K".to_vec()).get_orig_commit_id(), &b"K".to_vec());
    assert_eq!(ExpandedSubmodule::UnknownSubmodule(b"U".to_vec()).get_orig_commit_id(), &b"U".to_vec());
    let c = ExpandedSubmodule::CommitMissingInSubRepo(SubmoduleContent {
        repo_name: SubRepoName::new("s".to_owned()),
        orig_commit_id: b"M".to_vec(),
    });
    assert_eq!(c.get_orig_commit_id(), &b"M".to_vec());
}
