use git_toprepo::refs::ref_update_report;
use git_toprepo::refs::MonoRefUpdateAction;
use git_toprepo::refs::RefCategory;
use git_toprepo::refs::RefTarget;

fn obj(id: u8, short: &str) -> RefTarget {
    RefTarget::Object { id: vec![id; 20], short: short.to_owned() }
}

#[test]
fn update_action_from_old_and_new_targets() {
    assert!(MonoRefUpdateAction::new(None, None).is_none());
    assert!(matches!(
        MonoRefUpdateAction::new(None, Some(obj(1, "0101"))),
        Some(MonoRefUpdateAction::Create { .. })
    ));
    assert!(matches!(
        MonoRefUpdateAction::new(Some(obj(1, "0101")), None),
        Some(MonoRefUpdateAction::Delete { .. })
    ));
    assert!(matches!(
        MonoRefUpdateAction::new(Some(obj(1, "0101")), Some(obj(1, "other"))),
        Some(MonoRefUpdateAction::Unchanged { .. })
    ));
    assert!(matches!(
        MonoRefUpdateAction::new(Some(obj(1, "0101")), Some(obj(2, "0202"))),
        Some(MonoRefUpdateAction::Update { .. })
    ));
    assert!(matches!(
        MonoRefUpdateAction::new(
            Some(RefTarget::Symbolic("refs/heads/a".to_owned())),
            Some(RefTarget::Symbolic("refs/heads/a".to_owned()))
        ),
        Some(MonoRefUpdateAction::Unchanged { .. })
    ));
    assert!(matches!(
        MonoRefUpdateAction::new(Some(RefTarget::Symbolic("x".to_owned())), Some(obj(1, "0101"))),
        Some(MonoRefUpdateAction::Update { .. })
    ));
}

#[test]
fn describe_like_git_fetch() {
    let branch = Some((RefCategory::LocalBranch, b"main".to_vec()));
    let tag = Some((RefCategory::Tag, b"v1.0".to_vec()));
    let create = MonoRefUpdateAction::Create { new_target: obj(1, "abc1234") };
    assert_eq!(
        create.describe(branch.clone(), b"refs/heads/main", false),
        ("* [new] abc1234".to_owned(), "main".to_owned())
    );
    assert_eq!(
        create.describe(tag.clone(), b"refs/tags/v1.0", false),
        ("* [new tag] abc1234".to_owned(), "v1.0".to_owned())
    );
    let update = MonoRefUpdateAction::Update { old_target: obj(1, "abc1234"), new_target: obj(2, "def5678") };
    assert_eq!(update.describe(branch.clone(), b"refs/heads/main", false).0, "  abc1234..def5678");
    assert_eq!(
        update.describe(branch.clone(), b"refs/heads/main", true).0,
        "+ [forced update] abc1234...def5678"
    );
    assert_eq!(update.describe(tag.clone(), b"refs/tags/v1.0", false).0, "t [updated tag] abc1234..def5678");
    assert_eq!(
        update.describe(tag.clone(), b"refs/tags/v1.0", true).0,
        "T [force updated tag] abc1234...def5678"
    );
    let symbolic = MonoRefUpdateAction::Update {
        old_target: RefTarget::Symbolic("refs/heads/a".to_owned()),
        new_target: obj(2, "def5678"),
    };
    // Only an update between two commits can be forced.
    assert_eq!(
        symbolic.describe(branch.clone(), b"refs/heads/main", true).0,
        "  link:refs/heads/a..def5678"
    );
    let unchanged = MonoRefUpdateAction::Unchanged { target: obj(1, "abc1234") };
    assert_eq!(unchanged.describe(branch.clone(), b"refs/heads/main", false).0, "= [up to date] abc1234");
    assert_eq!(unchanged.describe(tag.clone(), b"refs/tags/v1.0", false).0, "= [tag up to date] abc1234");
    let delete = MonoRefUpdateAction::Delete { old_target: obj(1, "abc1234") };
    assert_eq!(
        delete.describe(Some((RefCategory::Other, b"x".to_vec())), b"refs/notes/x", false),
        ("- [deleted] abc1234".to_owned(), "refs/notes/x".to_owned())
    );
    assert_eq!(delete.describe(None, b"HEAD", false).1, "HEAD");
    assert_eq!(delete.describe(tag, b"refs/tags/v1.0", false).0, "- [deleted tag] abc1234");
    assert_eq!(create.sort_order(), 1);
    assert_eq!(update.sort_order(), 2);
    assert_eq!(unchanged.sort_order(), 3);
    assert_eq!(delete.sort_order(), 4);
}

#[test]
fn report_lines_are_sorted_and_aligned() {
    let lines = ref_update_report(vec![
        (4, "old".to_owned(), "- [deleted] 1111111".to_owned()),
        (2, "main".to_owned(), "+ [forced update] 2222222...3333333".to_owned()),
        (1, "v1".to_owned(), "* [new tag] 4444444".to_owned()),
        (2, "dev".to_owned(), "  5555555..6666666".to_owned()),
    ]);
    assert_eq!(
        lines,
        vec![
            " * [new tag] 4444444                 -> v1",
            "   5555555..6666666                  -> dev",
            " + [forced update] 2222222...3333333 -> main",
            " - [deleted] 1111111                 -> old",
        ]
    );
    let short = ref_update_report(vec![(1, "b".to_owned(), "* [new] abc".to_owned())]);
    assert_eq!(short, vec![" * [new] abc          -> b"]);
    assert!(ref_update_report(vec![]).is_empty());
}
