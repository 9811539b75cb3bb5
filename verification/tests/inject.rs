use git_toprepo::git::GitPath;
use git_toprepo::inject::injected_parents;
use git_toprepo::inject::search_injection_point;
use git_toprepo::inject::InjectSearch;
use git_toprepo::inject::SubRepoCommits;
use git_toprepo::mono::ExpandedOrRemovedSubmodule;
use git_toprepo::mono::ExpandedSubmodule;
use git_toprepo::mono::MonoRepoGraph;
use git_toprepo::mono::MonoRepoParent;
use git_toprepo::mono::SubmoduleContent;
use git_toprepo::repo_name::SubRepoName;

fn path(p: &str) -> GitPath {
    GitPath::new(p.as_bytes().to_vec())
}

fn expanded(p: &str, repo: &str, id: &[u8]) -> (GitPath, ExpandedOrRemovedSubmodule) {
    (
        path(p),
        ExpandedOrRemovedSubmodule::Expanded(ExpandedSubmodule::Expanded(SubmoduleContent {
            repo_name: SubRepoName::new(repo.to_owned()),
            orig_commit_id: id.to_vec(),
        })),
    )
}

/// 0 (sub at A) -- 1 -- 2 (sub at B)
fn graph() -> MonoRepoGraph {
    let mut g = MonoRepoGraph::new();
    g.add_commit(vec![], None, vec![expanded("sub", "sub1", b"A")]);
    g.add_commit(vec![MonoRepoParent::Mono(0)], None, vec![]);
    g.add_commit(vec![MonoRepoParent::Mono(1)], None, vec![expanded("sub", "sub1", b"B")]);
    g
}

fn subs(enabled: bool) -> Vec<SubRepoCommits> {
    vec![SubRepoCommits {
        name: SubRepoName::new("sub1".to_owned()),
        enabled,
        loaded: Some(vec![(b"A".to_vec(), 0), (b"B".to_vec(), 1), (b"C".to_vec(), 2)]),
    }]
}

fn search(enabled: bool, wanted: &[u8], depth: usize) -> InjectSearch {
    let name = SubRepoName::new("sub1".to_owned());
    search_injection_point(&graph(), &subs(enabled), &vec![2], &path("sub"), &name, wanted, depth)
}

#[test]
fn injection_point_at_the_commit_that_holds_the_wanted_commit() {
    assert_eq!(search(true, b"B", 1), InjectSearch::Found { at: 2, oldest: Some(2) });
    assert_eq!(search(true, b"A", 0), InjectSearch::Found { at: 1, oldest: Some(0) });
}

#[test]
fn injection_point_search_keeps_older_commits_or_finds_none() {
    assert_eq!(search(true, b"C", 2), InjectSearch::Deeper(vec![2]));
    assert_eq!(search(true, b"X", 0), InjectSearch::NotFound);
    assert_eq!(search(false, b"B", 1), InjectSearch::NotFound);
}

#[test]
fn injection_point_search_of_an_unlisted_subrepo_walks_on() {
    let name = SubRepoName::new("sub1".to_owned());
    let r = search_injection_point(&graph(), &vec![], &vec![2, 0], &path("sub"), &name, b"A", 0);
    assert_eq!(r, InjectSearch::NotFound);
}

#[test]
fn injected_parents_keep_unfound_subrepo_parents() {
    let ids = vec![b"P1".to_vec(), b"P2".to_vec()];
    let ps = injected_parents(&vec![None, Some(4)], &ids, &path("sub")).unwrap();
    assert_eq!(ps.len(), 2);
    assert!(matches!(&ps[0], MonoRepoParent::OriginalSubmod(o) if o.commit_id == b"P1".to_vec()));
    assert!(matches!(&ps[1], MonoRepoParent::Mono(4)));
    assert!(injected_parents(&vec![None, None], &ids, &path("sub")).is_none());
}
