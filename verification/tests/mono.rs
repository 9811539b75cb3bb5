use git_toprepo::git::GitPath;
use git_toprepo::mono::ExpandedOrRemovedSubmodule;
use git_toprepo::mono::ExpandedSubmodule;
use git_toprepo::mono::MonoRepoGraph;
use git_toprepo::mono::MonoRepoParent;
use git_toprepo::mono::OriginalSubmodParent;
use git_toprepo::mono::SubmoduleContent;
use git_toprepo::repo_name::SubRepoName;

fn path(p: &str) -> GitPath {
    GitPath::new(p.as_bytes().to_vec())
}

fn content(repo: &str, id: &[u8]) -> ExpandedSubmodule {
    ExpandedSubmodule::Expanded(SubmoduleContent {
        repo_name: SubRepoName::new(repo.to_owned()),
        orig_commit_id: id.to_vec(),
    })
}

fn expanded(p: &str, repo: &str, id: &[u8]) -> (GitPath, ExpandedOrRemovedSubmodule) {
    (path(p), ExpandedOrRemovedSubmodule::Expanded(content(repo, id)))
}

fn commit_id(e: &ExpandedSubmodule) -> Vec<u8> {
    match e {
        ExpandedSubmodule::Expanded(c) => c.orig_commit_id.clone(),
        _ => panic!("expected an expanded submodule"),
    }
}

/// 0 -- 1 -- 2 -- 3 (merge of 1 and 2, moves sub to moved)
///        \------/
/// and 5, a merge of 1 and 2 without changes.
fn graph() -> MonoRepoGraph {
    let mut g = MonoRepoGraph::new();
    assert_eq!(g.add_commit(vec![], Some(b"T0".to_vec()), vec![expanded("sub", "sub1", b"A")]), 0);
    assert_eq!(g.add_commit(vec![MonoRepoParent::Mono(0)], None, vec![]), 1);
    assert_eq!(
        g.add_commit(vec![MonoRepoParent::Mono(1)], Some(b"T2".to_vec()), vec![expanded("sub", "sub1", b"B")]),
        2
    );
    assert_eq!(
        g.add_commit(
            vec![MonoRepoParent::Mono(1), MonoRepoParent::Mono(2)],
            None,
            vec![expanded("moved", "sub1", b"B"), (path("sub"), ExpandedOrRemovedSubmodule::Removed)],
        ),
        3
    );
    assert_eq!(
        g.add_commit(
            vec![MonoRepoParent::OriginalSubmod(OriginalSubmodParent {
                path: path("sub"),
                commit_id: b"X".to_vec(),
            })],
            None,
            vec![],
        ),
        4
    );
    assert_eq!(g.add_commit(vec![MonoRepoParent::Mono(1), MonoRepoParent::Mono(2)], None, vec![]), 5);
    g
}

#[test]
fn depths_and_paths_follow_the_parents() {
    let g = graph();
    assert_eq!(g.len(), 6);
    assert_eq!(g.commit(0).depth, 0);
    assert_eq!(g.commit(1).depth, 1);
    assert_eq!(g.commit(2).depth, 2);
    assert_eq!(g.commit(3).depth, 3);
    assert_eq!(g.commit(4).depth, 0);
    assert_eq!(g.commit(1).submodule_paths, vec![path("sub")]);
    assert_eq!(g.commit(3).submodule_paths, vec![path("moved")]);
    assert!(g.commit(4).submodule_paths.is_empty());
}

#[test]
fn top_bumps_and_submodules_through_first_parents() {
    let g = graph();
    assert_eq!(g.get_top_bump(1), Some(b"T0".to_vec()));
    assert_eq!(g.get_top_bump(3), Some(b"T0".to_vec()));
    assert_eq!(g.get_top_bump(2), Some(b"T2".to_vec()));
    assert_eq!(g.get_top_bump(4), None);
    assert_eq!(commit_id(&g.get_submodule(1, &path("sub")).unwrap()), b"A".to_vec());
    assert_eq!(commit_id(&g.get_submodule(2, &path("sub")).unwrap()), b"B".to_vec());
    assert!(g.get_submodule(3, &path("sub")).is_none());
    assert_eq!(commit_id(&g.get_submodule(3, &path("moved")).unwrap()), b"B".to_vec());
    assert!(g.get_submodule(4, &path("sub")).is_none());
}

#[test]
fn some_submodule_follows_a_move() {
    let g = graph();
    let name = SubRepoName::new("sub1".to_owned());
    let found = g.get_some_submodule(3, &path("sub"), &name).unwrap();
    assert_eq!(commit_id(&found), b"B".to_vec());
    assert!(g.get_some_submodule(3, &path("sub"), &SubRepoName::new("other".to_owned())).is_none());
    assert_eq!(commit_id(&g.get_some_submodule(1, &path("sub"), &name).unwrap()), b"A".to_vec());
}

#[test]
fn ancestors() {
    let g = graph();
    assert!(g.is_ancestor_of(0, 3));
    assert!(g.is_ancestor_of(2, 3));
    assert!(g.is_ancestor_of(3, 3));
    assert!(!g.is_ancestor_of(3, 2));
    assert!(!g.is_ancestor_of(2, 1));
    assert!(!g.is_ancestor_of(0, 4));
    assert!(g.is_ancestor_of(1, 5));
}

#[test]
fn last_bumps_on_every_line_of_history() {
    let g = graph();
    assert_eq!(g.get_bumps(1, &path("sub")), vec![0]);
    assert_eq!(g.get_bumps(2, &path("sub")), vec![2]);
    assert_eq!(g.get_bumps(3, &path("moved")), vec![3]);
    assert_eq!(g.get_bumps(5, &path("sub")), vec![0, 2]);
    assert!(g.get_bumps(4, &path("sub")).is_empty());
    assert_eq!(g.get_parents_of_last_bumps(5, &path("sub")), vec![1]);
    assert!(g.get_parents_of_last_bumps(1, &path("sub")).is_empty());
}
