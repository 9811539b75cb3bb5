use git_toprepo::recombine::format_refs_log;
use git_toprepo::recombine::not_prefixed_message;
use git_toprepo::recombine::old_and_new_refs;
use git_toprepo::recombine::parse_refs_log;
use git_toprepo::recombine::plan_ref_updates;
use git_toprepo::recombine::plan_top_ref;
use git_toprepo::recombine::plan_top_refs;
use git_toprepo::recombine::remaining_refs;
use git_toprepo::recombine::strip_ref_prefix;
use git_toprepo::recombine::ObjectKind;
use git_toprepo::recombine::StripRefPrefixError;
use git_toprepo::recombine::TopRefPlan;
use git_toprepo::recombine::TopRefTarget;
use git_toprepo::refs::MonoRefUpdateAction;
use git_toprepo::refs::RefTarget;

fn commit() -> TopRefTarget {
    TopRefTarget::Object { kind: ObjectKind::Commit, peeled: ObjectKind::Commit }
}

#[test]
fn strip_ref_prefix_examples() {
    assert_eq!(
        strip_ref_prefix(b"refs/namespaces/top/refs/heads/main", b"refs/namespaces/top/"),
        Ok(b"refs/heads/main".to_vec())
    );
    assert_eq!(
        strip_ref_prefix(b"refs/heads/main", b"refs/namespaces/top/"),
        Err(StripRefPrefixError::NotPrefixed)
    );
    assert_eq!(
        strip_ref_prefix(b"refs/namespaces/top/refs/heads/a..b", b"refs/namespaces/top/"),
        Err(StripRefPrefixError::InvalidName)
    );
}

#[test]
fn top_refs_become_monorepo_refs() {
    assert_eq!(
        plan_top_ref(b"refs/namespaces/top/refs/heads/main", &commit()),
        Some(TopRefPlan::CommitTip { name: b"refs/heads/main".to_vec() })
    );
    assert_eq!(
        plan_top_ref(
            b"refs/namespaces/top/refs/tags/v1",
            &TopRefTarget::Object { kind: ObjectKind::Tag, peeled: ObjectKind::Commit }
        ),
        Some(TopRefPlan::AnnotatedTag { name: b"refs/tags/v1".to_vec() })
    );
    assert_eq!(
        plan_top_ref(
            b"refs/namespaces/top/HEAD",
            &TopRefTarget::Symbolic(b"refs/namespaces/top/refs/heads/main".to_vec())
        ),
        Some(TopRefPlan::Symbolic { name: b"HEAD".to_vec(), target: b"refs/heads/main".to_vec() })
    );
    assert_eq!(
        plan_top_ref(b"refs/namespaces/top/HEAD", &TopRefTarget::Symbolic(b"refs/heads/main".to_vec())),
        Some(TopRefPlan::Skip(
            "Skipping symbolic ref refs/namespaces/top/HEAD that points outside the top repo, to refs/heads/main"
                .to_owned()
        ))
    );
    assert_eq!(
        plan_top_ref(
            b"refs/namespaces/top/refs/tags/tree",
            &TopRefTarget::Object { kind: ObjectKind::Tree, peeled: ObjectKind::Tree }
        ),
        Some(TopRefPlan::Skip("Skipping ref refs/namespaces/top/refs/tags/tree that points to a tree".to_owned()))
    );
    assert_eq!(
        plan_top_ref(
            b"refs/namespaces/top/refs/tags/blobtag",
            &TopRefTarget::Object { kind: ObjectKind::Tag, peeled: ObjectKind::Blob }
        ),
        Some(TopRefPlan::Skip(
            "Skipping tag refs/namespaces/top/refs/tags/blobtag that (ultimately) points to a blob".to_owned()
        ))
    );
    assert_eq!(plan_top_ref(b"refs/namespaces/sub/refs/heads/main", &commit()), None);
}

#[test]
fn refs_log_round_trip() {
    let names = vec![b"refs/heads/main".to_vec(), b"refs/tags/v1".to_vec()];
    let text = format_refs_log(&names);
    assert_eq!(text, b"refs/heads/main\nrefs/tags/v1\n".to_vec());
    assert_eq!(parse_refs_log(&text), Ok(names));
    assert_eq!(parse_refs_log(b""), Ok(vec![]));
    assert_eq!(parse_refs_log(b"refs/heads/a\r\nrefs/heads/b"), Ok(vec![b"refs/heads/a".to_vec(), b"refs/heads/b".to_vec()]));
    assert_eq!(parse_refs_log(b"refs/heads/a\n\nrefs/heads/b\n"), Err(b"".to_vec()));
    assert_eq!(parse_refs_log(b"refs/heads/a\nbad..name\n"), Err(b"bad..name".to_vec()));
}

#[test]
fn old_and_new_refs_are_sorted_once() {
    let r = old_and_new_refs(
        &[b"refs/tags/v1".to_vec(), b"refs/heads/main".to_vec()],
        &[b"refs/heads/main".to_vec(), b"HEAD".to_vec(), b"refs/heads/dev".to_vec()],
    );
    assert_eq!(
        r,
        vec![
            b"HEAD".to_vec(),
            b"refs/heads/dev".to_vec(),
            b"refs/heads/main".to_vec(),
            b"refs/tags/v1".to_vec(),
        ]
    );
}

fn obj(id: &str) -> RefTarget {
    RefTarget::Object { id: id.as_bytes().to_vec(), short: id[..3].to_string() }
}

#[test]
fn top_refs_are_planned_in_order_or_refused_by_name() {
    let refs = vec![
        (b"refs/namespaces/top/refs/heads/main".to_vec(), commit()),
        (b"refs/namespaces/top/refs/tags/v1".to_vec(), commit()),
    ];
    let plans = plan_top_refs(&refs).unwrap();
    assert_eq!(plans.len(), 2);
    assert_eq!(plans[0], TopRefPlan::CommitTip { name: b"refs/heads/main".to_vec() });
    assert_eq!(plans[1], TopRefPlan::CommitTip { name: b"refs/tags/v1".to_vec() });
    let bad = vec![
        (b"refs/namespaces/top/refs/heads/main".to_vec(), commit()),
        (b"refs/heads/other".to_vec(), commit()),
        (b"refs/bad".to_vec(), commit()),
    ];
    assert_eq!(plan_top_refs(&bad), Err(b"refs/heads/other".to_vec()));
}

#[test]
fn ref_updates_create_update_keep_and_delete() {
    let news = vec![
        (b"refs/heads/new".to_vec(), Some(obj("aaaa"))),
        (b"refs/heads/moved".to_vec(), Some(obj("bbbb"))),
        (b"refs/heads/same".to_vec(), Some(obj("cccc"))),
        (b"refs/tags/failed".to_vec(), None),
        (b"refs/heads/new".to_vec(), Some(obj("dddd"))),
    ];
    let old = vec![
        (b"refs/heads/moved".to_vec(), obj("eeee")),
        (b"refs/heads/same".to_vec(), obj("cccc")),
        (b"refs/heads/stale".to_vec(), obj("ffff")),
    ];
    let kept = plan_ref_updates(&news, &old, false);
    assert_eq!(kept.len(), 3);
    assert_eq!(kept[0].0, b"refs/heads/new".to_vec());
    assert!(matches!(&kept[0].1, MonoRefUpdateAction::Create { new_target: RefTarget::Object { id, .. } } if id == b"dddd"));
    assert!(matches!(&kept[1].1, MonoRefUpdateAction::Update { old_target: RefTarget::Object { id: o, .. }, new_target: RefTarget::Object { id: n, .. } } if o == b"eeee" && n == b"bbbb"));
    assert!(matches!(&kept[2].1, MonoRefUpdateAction::Unchanged { .. }));
    let removed = plan_ref_updates(&news, &old, true);
    assert_eq!(removed.len(), 4);
    assert_eq!(removed[3].0, b"refs/heads/stale".to_vec());
    assert!(matches!(&removed[3].1, MonoRefUpdateAction::Delete { old_target: RefTarget::Object { id, .. } } if id == b"ffff"));
    assert_eq!(
        remaining_refs(&removed),
        vec![b"refs/heads/moved".to_vec(), b"refs/heads/new".to_vec(), b"refs/heads/same".to_vec()]
    );
}

#[test]
fn not_prefixed_names_are_reported() {
    assert_eq!(
        not_prefixed_message(b"refs/namespaces/top/HEAD", b"refs/other"),
        "Expected refs/namespaces/top/HEAD to start with refs/other"
    );
}
