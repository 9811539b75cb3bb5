use git_toprepo::submitted_together::reorder_submitted_together;
use git_toprepo::submitted_together::ReorderError;
use git_toprepo::submitted_together::SubmittedTogether;
use git_toprepo::submitted_together::SupercommitSplitStrategy;

fn new(id: &str, topic: Option<&str>, repo: i32) -> SubmittedTogether<i32> {
    SubmittedTogether::<i32> {
        id: id.to_owned(),
        topic: topic.map(|s| s.to_owned()),
        repo,
    }
}

fn new_s(id: &str, topic: Option<&str>, repo: &str) -> SubmittedTogether<String> {
    SubmittedTogether::<String> {
        id: id.to_owned(),
        topic: topic.map(|s| s.to_owned()),
        repo: repo.to_owned(),
    }
}

#[test]
fn no_topic() {
    let a = new("first", None, 1);
    let b = new("second", None, 2);

    let res = reorder_submitted_together(&[a.clone(), b.clone()]);
    assert_eq!(res.unwrap(), vec![vec![[a]], vec![[b]]]);
}

#[test]
fn only_topic() {
    let topic = Some("topic");
    let a = new("first", topic, 1);
    let b = new("second", topic, 2);

    let res = reorder_submitted_together(&[a.clone(), b.clone()]);
    assert_eq!(res.unwrap(), vec![vec![[a], [b]]]);
}

#[test]
fn topic_in_same_repo() {
    let topic = Some("topic");
    let shared_repo = 2;
    let a = new("first", topic, shared_repo);
    let b = new("second", topic, shared_repo);

    let res = reorder_submitted_together(&[b.clone(), a.clone()]);
    assert_eq!(res.unwrap(), vec![vec![[b, a]]]);
}

#[test]
fn under_topic() {
    let topic = Some("topic");
    let shared_repo = 2;

    let a = new("first", topic, 1);
    let b = new("second", topic, shared_repo);
    let u = new("under", None, shared_repo);

    let res = reorder_submitted_together(&[a.clone(), b.clone(), u.clone()]);
    assert_eq!(res.unwrap(), vec![vec![[a], [b]], vec![[u]]]);
}

#[test]
fn over_topic() {
    let topic = Some("topic");
    let shared_repo = 2;
    let a = new("first", topic, 1);
    let b = new("second", topic, shared_repo);
    let o = new("over", None, shared_repo);

    let res = reorder_submitted_together(&[a.clone(), o.clone(), b.clone()]);
    assert_eq!(res.unwrap(), vec![vec![[o]], vec![[a], [b]]]);
}

#[test]
fn topic_hamburger() {
    let topic = Some("topic");
    let other_topic = Some("other_topic");
    let shared_repo = 2;
    let a = new("first", topic, 1);
    let b = new("second", topic, shared_repo);
    let m = new("middle", None, shared_repo);
    let c = new("fourth", other_topic, shared_repo);
    let d = new("fifth", other_topic, 3);

    let res = reorder_submitted_together(&[a.clone(), c.clone(), m.clone(), b.clone(), d.clone()]);
    assert_eq!(
        res.unwrap(),
        vec![vec![[c], [d]], vec![[m]], vec![[a], [b]]]
    );
}

#[test]
fn two_topics() {
    let topic = Some("topic");
    let other_topic = Some("other_topic");
    let shared_repo = 2;
    let at = new("first_on_top", other_topic, 1);
    let bu = new("first_under", topic, shared_repo);
    let bt = new("second_on_top", other_topic, shared_repo);
    let cu = new("second_under", topic, 3);

    let res = reorder_submitted_together(&[at.clone(), bt.clone(), bu.clone(), cu.clone()]);
    assert_eq!(res.unwrap(), vec![vec![[at], [bt]], vec![[bu], [cu]]]);
}

#[test]
fn stacked_commits_in_topic() {
    let topic = Some("topic");
    let shared_repo = 1;
    let a = new("under", topic, shared_repo);
    let b = new("on_top", topic, shared_repo);
    let c = new("other", topic, 2);

    let res = reorder_submitted_together(&[b.clone(), a.clone(), c.clone()]);
    assert_eq!(res.unwrap(), vec![vec![vec![b, a], vec![c]]]);
}

#[test]
fn fail_no_topic_inside_a_stacked_topic() {
    let topic = Some("topic");
    let shared_repo = 1;
    let a = new("under", topic, shared_repo);
    let b = new("interloper", None, shared_repo);
    let c = new("on_top", topic, shared_repo);

    let res = reorder_submitted_together(&[c.clone(), b.clone(), a.clone()]);
    assert!(res.is_err());
}

#[test]
fn fail_scrambled_commits_in_repos() {
    let shared_repo = 1;
    let a = new("first", None, shared_repo);
    let b = new("other", None, 2);
    let c = new("also_first", None, shared_repo);

    let res = reorder_submitted_together(&[a.clone(), b.clone(), c.clone()]);
    assert!(res.is_err())
}

#[test]
fn disjoint_topics() {
    // There is no shared repository information.
    let topic = Some("topic");
    let other = Some("other");
    let a = new("first", topic, 1);
    let b = new("also_first", topic, 2);
    let c = new("other", other, 3);
    let d = new("also_other", other, 4);

    let one_order = reorder_submitted_together(&[a.clone(), b.clone(), c.clone(), d.clone()]);
    let other_order = reorder_submitted_together(&[d.clone(), c.clone(), b.clone(), a.clone()]);
    let _ = one_order;
    let _ = other_order;
}

#[test]
fn seen_in_the_wild() {
    let submitted_together = vec![
        new_s(
            "csp%2Fbazel%2Frules_csp~master~I14c8cee68c00ab13f1faed256529c7443cdf495f",
            Some("ARTCEE-9526-em"),
            "csp/bazel/rules_csp",
        ),
        new_s(
            "csp%2Fdiagnostics_did_rid~master~I36d481a26c0210d306947ced13531f53debece8d",
            Some("ARTCEE-9526-secure_storage"),
            "csp/diagnostics_did_rid",
        ),
        new_s(
            "csp%2Fhp%2Fcore~master~If66426a06b4d7d56588fac8958532076c185a8a7",
            None,
            "csp/hp/core",
        ),
        new_s(
            "csp%2Fhp%2Fcore~master~I4e3f6934555663dd08b2a0bd7cba35fad6a80bf5",
            Some("ARTCEE-9526-com_proxy"),
            "csp/hp/core",
        ),
        new_s(
            "csp%2Fhp%2Fcore~master~I7a1760b883e7cb2c87ee993e14ae41547f9cc1a8",
            Some("ARTCEE-9526-log_framework"),
            "csp/hp/core",
        ),
        new_s(
            "csp%2Fhp%2Fcore~master~I1c16f0b722c66268661724d1401211c50920205f",
            Some("ARTCEE-9526-secure_storage"),
            "csp/hp/core",
        ),
        new_s(
            "csp%2Fhp%2Fcore~master~I824d90f3edc7559549db94ff4e67580e5d715eb7",
            Some("ARTCEE-9526-em"),
            "csp/hp/core",
        ),
        new_s(
            "csp%2Fhp%2Fcore~master~I6c0b1f85a50b7b4334427051bbc8555d851bdb8e",
            None,
            "csp/hp/core",
        ),
        new_s(
            "csp%2Fhp%2Fcore~master~I1497a9b290dce15baed011d1e55f7fd3499f9eea",
            Some("ARTCEE-9526"),
            "csp/hp/core",
        ),
        new_s(
            "csp%2Fhpa%2Ftest~master~I3e22f189f5668923befdf5995c0fcdd159a2570d",
            Some("ARTCEE-9526"),
            "csp/hpa/test",
        ),
        new_s(
            "csp%2Fhpa%2Ftest~master~I3cfde1a7af81896f4e84509aa47c4700265123fa",
            Some("ARTCEE-9526-log_framework"),
            "csp/hpa/test",
        ),
        new_s(
            "csp%2Fhpa%2Ftest~master~If63208d14b15b5d042fc0c0fdc1819702daf3c94",
            Some("ARTCEE-9526-com_proxy"),
            "csp/hpa/test",
        ),
        new_s(
            "csp%2Fhpa_lpa_diagnostic_platform_facade~master~I82763f898a909c3a0a2c1836f417920e91c718a7",
            Some("ARTCEE-9526"),
            "csp/hpa_lpa_diagnostic_platform_facade",
        ),
        new_s(
            "csp%2Flpa_agent~master~Iaec404a5df03322164ae53edd01d73ecff4d0141",
            Some("ARTCEE-9526"),
            "csp/lpa_agent",
        ),
        new_s(
            "csp%2Fproducts%2Fvhpa~master~I58abf025431a3a77bcdb4a8504ee2cc12147acd9",
            Some("ARTCEE-9526-em"),
            "csp/products/vhpa",
        ),
        new_s(
            "csp%2Fproducts%2Fvhpa~master~I88149a728791580323f7774be058260ad5e7a01c",
            Some("ARTCEE-9526-com_proxy"),
            "csp/products/vhpa",
        ),
        new_s(
            "csp%2Fsystem%2Fhpa_activation_manager~master~Ie6ed1d287589e7d24d1f30f9162adab237e5163b",
            Some("ARTCEE-9526"),
            "csp/system/hpa_activation_manager",
        ),
        new_s(
            "csp%2Fuds_tester_handler~master~I77a7f35f2fbf8d635ab5211337b56f0c1624b10d",
            Some("ARTCEE-9526"),
            "csp/uds_tester_handler",
        ),
        new_s(
            "vcuapps%2Fexample_app~master~I2b1b3fe9415a808aab544f2ae0579a923215ca19",
            Some("ARTCEE-9526"),
            "vcuapps/example_app",
        ),
        new_s(
            "vcuapps%2Fexample_app~master~I77968adc2aa9f39df7e61d940de1980314eb2623",
            Some("ARTCEE-9526-com_proxy"),
            "vcuapps/example_app",
        ),
    ];

    // Should not crash.
    let _ = reorder_submitted_together(&submitted_together);
}

#[test]
fn reorder_errors_name_their_cause() {
    let a = new("first", None, 1);
    let b = new("other", None, 2);
    let c = new("also_first", None, 1);
    assert_eq!(
        reorder_submitted_together(&[a.clone(), b.clone(), c.clone()]).unwrap_err(),
        ReorderError::ScrambledRepo
    );
    let t = Some("t");
    let x = new("x", t, 1);
    let y = new("y", None, 1);
    let z = new("z", t, 1);
    assert_eq!(
        reorder_submitted_together(&[z, y, x]).unwrap_err(),
        ReorderError::NonTopicCommit
    );
    let empty: Vec<SubmittedTogether<i32>> = Vec::new();
    assert!(reorder_submitted_together(&empty).unwrap().is_empty());
}

#[test]
fn reorder_with_string_repos_keeps_order_within_repo() {
    let a2 = new_s("a2", None, "A");
    let a1 = new_s("a1", None, "A");
    let b1 = new_s("b1", None, "B");
    let res = reorder_submitted_together(&[a2.clone(), a1.clone(), b1.clone()]).unwrap();
    assert_eq!(res, vec![vec![vec![a2]], vec![vec![a1]], vec![vec![b1]]]);
}

#[test]
fn split_strategy_names() {
    assert_eq!(SupercommitSplitStrategy::default(), SupercommitSplitStrategy::Recreate);
    assert_eq!(SupercommitSplitStrategy::ForceSquash.as_str(), "force-squash");
    assert_eq!(
        SupercommitSplitStrategy::SquashIfPossible.as_str(),
        "squash-if-possible"
    );
    assert_eq!(SupercommitSplitStrategy::Recreate.as_str(), "recreate");
}
