use git_toprepo::git::GitPath;
use git_toprepo::hooks;
use git_toprepo::hooks::hook_changes;
use git_toprepo::hooks::lfs_filter_action;
use git_toprepo::hooks::lfs_filter_value;
use git_toprepo::hooks::lfs_filters;
use git_toprepo::hooks::other_git_lfs_base_hook_content;
use git_toprepo::hooks::HookChange;
use git_toprepo::hooks::LfsFilterAction;
use git_toprepo::hooks::LfsFilterConfigState;
use git_toprepo::hooks::RemoveHookDecision;
use git_toprepo::hooks::WriteHookDecision;
use git_toprepo::lfs;
use git_toprepo::lfs::LfsFetchOptions;

#[test]
fn hooks_accepts_git_toprepo_wrapper() {
    assert!(hooks::is_lfs_filter_through_toprepo(
        "git toprepo lfs filter-process",
        "filter-process"
    ));
    assert!(hooks::is_lfs_filter_through_toprepo(
        "git-toprepo lfs smudge -- %f",
        "smudge"
    ));
    assert!(hooks::is_lfs_filter_through_toprepo(
        "/some/path/git-toprepo lfs smudge -- %f",
        "smudge"
    ));
}

#[test]
fn hooks_rejects_plain_git_lfs() {
    assert!(!hooks::is_lfs_filter_through_toprepo(
        "git lfs filter-process",
        "filter-process"
    ));
    assert!(!hooks::is_lfs_filter_through_toprepo(
        "git-lfs smudge -- %f",
        "smudge"
    ));
}

#[test]
fn lfs_accepts_git_toprepo_wrapper() {
    assert!(lfs::is_lfs_filter_through_toprepo(
        "git-toprepo lfs smudge -- %f",
        "smudge"
    ));
    assert!(lfs::is_lfs_filter_through_toprepo(
        "git toprepo lfs filter-process",
        "filter-process"
    ));
    assert!(lfs::is_lfs_filter_through_toprepo(
        "/some/path/git-toprepo lfs smudge -- %f",
        "smudge"
    ));
}

#[test]
fn lfs_rejects_plain_git_lfs() {
    assert!(!lfs::is_lfs_filter_through_toprepo(
        "git-lfs smudge -- %f",
        "smudge"
    ));
    assert!(!lfs::is_lfs_filter_through_toprepo(
        "git lfs filter-process",
        "filter-process"
    ));
}

#[test]
fn hooks_file_stem_drops_extension_and_subcommand_must_match() {
    // `Path::file_stem` drops the extension of the program name.
    assert!(hooks::is_lfs_filter_through_toprepo(
        "C/bin/git-toprepo.exe lfs smudge %f",
        "smudge"
    ));
    assert!(!hooks::is_lfs_filter_through_toprepo(
        "git-toprepo lfs smudge",
        "filter-process"
    ));
    assert!(!hooks::is_lfs_filter_through_toprepo("", "smudge"));
    assert!(!hooks::is_lfs_filter_through_toprepo("   ", "smudge"));
    // The comparison is case sensitive.
    assert!(!hooks::is_lfs_filter_through_toprepo(
        "Git-Toprepo lfs smudge",
        "smudge"
    ));
}

#[test]
fn lfs_ignores_ascii_case() {
    assert!(lfs::is_lfs_filter_through_toprepo(
        "GIT TopRepo LFS Smudge %f",
        "smudge"
    ));
    assert!(lfs::is_lfs_filter_through_toprepo(
        "/usr/bin/Git-Toprepo lfs FILTER-PROCESS",
        "Filter-Process"
    ));
    assert!(!lfs::is_lfs_filter_through_toprepo("git toprepo lfs", "smudge"));
    assert!(!lfs::is_lfs_filter_through_toprepo("", "smudge"));
}

#[test]
fn hooks_tokens_through_toprepo_takes_the_given_name() {
    let tokens: Vec<Vec<char>> = ["x", "lfs", "smudge"]
        .iter()
        .map(|s| s.chars().collect())
        .collect();
    assert!(hooks::tokens_through_toprepo(&tokens, "git-toprepo", "smudge"));
    assert!(!hooks::tokens_through_toprepo(&tokens, "x", "smudge"));
    assert!(!hooks::tokens_through_toprepo(&[], "git-toprepo", "smudge"));
}

#[test]
fn classify_lfs_filter_values_states() {
    assert_eq!(
        hooks::classify_lfs_filter_values(vec![], "smudge"),
        LfsFilterConfigState::Missing
    );
    assert_eq!(
        hooks::classify_lfs_filter_values(
            vec!["git-toprepo lfs smudge -- %f".to_owned()],
            "smudge"
        ),
        LfsFilterConfigState::ThroughGitToprepo
    );
    assert_eq!(
        hooks::classify_lfs_filter_values(
            vec![
                "git-lfs smudge -- %f".to_owned(),
                "git toprepo lfs smudge".to_owned(),
                "other".to_owned(),
            ],
            "smudge"
        ),
        LfsFilterConfigState::Bad(vec!["git-lfs smudge -- %f".to_owned(), "other".to_owned()])
    );
}

#[test]
fn write_hook_decisions() {
    let acceptable = vec!["old".to_owned()];
    assert_eq!(
        hooks::write_hook_decision(Some("new"), true, "new", &acceptable, false),
        WriteHookDecision::Verified
    );
    assert_eq!(
        hooks::write_hook_decision(Some("old"), true, "new", &acceptable, false),
        WriteHookDecision::Write { overwrite: true }
    );
    assert_eq!(
        hooks::write_hook_decision(Some("custom"), true, "new", &acceptable, false),
        WriteHookDecision::Write { overwrite: false }
    );
    assert_eq!(
        hooks::write_hook_decision(Some("custom"), true, "new", &acceptable, true),
        WriteHookDecision::Write { overwrite: true }
    );
    // A non-executable file with the right content is rewritten.
    assert_eq!(
        hooks::write_hook_decision(Some("new"), false, "new", &acceptable, false),
        WriteHookDecision::Write { overwrite: false }
    );
    assert_eq!(
        hooks::write_hook_decision(None, false, "new", &acceptable, false),
        WriteHookDecision::Write { overwrite: false }
    );
}

#[test]
fn remove_hook_decisions() {
    let acceptable = vec!["lfs".to_owned()];
    assert_eq!(
        hooks::remove_hook_decision(None, &acceptable, false),
        RemoveHookDecision::Absent
    );
    assert_eq!(
        hooks::remove_hook_decision(Some("lfs"), &acceptable, false),
        RemoveHookDecision::Remove
    );
    assert_eq!(
        hooks::remove_hook_decision(Some("mine"), &acceptable, false),
        RemoveHookDecision::Refuse
    );
    assert_eq!(
        hooks::remove_hook_decision(Some("mine"), &acceptable, true),
        RemoveHookDecision::Remove
    );
}

#[test]
fn lfs_fetch_args_in_order() {
    let options = LfsFetchOptions {
        dry_run: true,
        prune: false,
        recent: true,
        refetch: false,
        exclude: vec!["a/*".to_owned(), "b".to_owned()],
    };
    assert_eq!(
        lfs::lfs_fetch_args("ssh://host/repo.git", &options, "sub/file.bin"),
        vec![
            "lfs",
            "fetch",
            "ssh://host/repo.git",
            "--dry-run",
            "--recent",
            "-X",
            "a/*",
            "-X",
            "b",
            "-I",
            "sub/file.bin"
        ]
    );
    assert_eq!(
        lfs::lfs_fetch_args("u", &LfsFetchOptions::default(), "p"),
        vec!["lfs", "fetch", "u", "-I", "p"]
    );
}

#[test]
fn ensure_literal_path_refuses_globs() {
    assert!(lfs::ensure_literal_path("dir/file.bin").is_ok());
    assert!(lfs::ensure_literal_path("").is_ok());
    for p in ["*.bin", "a?", "[ab]", "x]"] {
        let err = lfs::ensure_literal_path(p).unwrap_err();
        assert!(err.contains("literal paths"));
        assert!(err.contains(p));
    }
}

#[test]
fn deepest_prefix_wins() {
    let subs = vec![
        GitPath::new(b"libs/a".to_vec()),
        GitPath::new(b"libs/a/vendor/b".to_vec()),
    ];
    let hit = lfs::deepest_containing_submodule(
        &subs,
        &GitPath::new(b"libs/a/vendor/b/model.bin".to_vec()),
    )
    .unwrap();
    assert_eq!(subs[hit], GitPath::new(b"libs/a/vendor/b".to_vec()));
}

#[test]
fn deepest_containing_submodule_needs_a_whole_component() {
    let subs = vec![
        GitPath::new(b"service-a".to_vec()),
        GitPath::new(b"service".to_vec()),
    ];
    assert_eq!(
        lfs::deepest_containing_submodule(&subs, &GitPath::new(b"service-a/assets/model.bin".to_vec())),
        Some(0)
    );
    assert_eq!(
        lfs::deepest_containing_submodule(&subs, &GitPath::new(b"video.mov".to_vec())),
        None
    );
}

#[test]
fn lfs_hook_content_runs_git_lfs() {
    assert_eq!(
        other_git_lfs_base_hook_content("post-merge"),
        "#!/bin/sh\nset -eu\ngit lfs post-merge \"$@\"\n"
    );
}

#[test]
fn hook_changes_with_and_without_lfs() {
    let with = hook_changes(true);
    assert_eq!(with.len(), 5);
    match &with[0] {
        HookChange::Write { name, content, acceptable } => {
            assert_eq!(name, "pre-push.toprepo");
            assert!(content.contains("GIT_TOPREPO_ALLOW_PUSH"));
            assert!(acceptable.is_empty());
        }
        _ => panic!("expected a write"),
    }
    match &with[1] {
        HookChange::Write { name, content, acceptable } => {
            assert_eq!(name, "pre-push");
            assert!(content.ends_with("git lfs pre-push \"$@\"\n"));
            assert_eq!(acceptable.len(), 1);
            assert!(!acceptable[0].contains("git lfs"));
        }
        _ => panic!("expected a write"),
    }
    assert_eq!(
        with[4],
        HookChange::Write {
            name: "post-merge".to_owned(),
            content: other_git_lfs_base_hook_content("post-merge"),
            acceptable: vec![],
        }
    );
    let without = hook_changes(false);
    assert_eq!(
        without[2],
        HookChange::Remove {
            name: "post-checkout".to_owned(),
            acceptable: vec![other_git_lfs_base_hook_content("post-checkout")],
        }
    );
    match &without[1] {
        HookChange::Write { content, acceptable, .. } => {
            assert!(!content.contains("git lfs"));
            assert!(acceptable[0].contains("git lfs pre-push"));
        }
        _ => panic!("expected a write"),
    }
}

#[test]
fn lfs_filter_actions() {
    let filters = lfs_filters();
    assert_eq!(filters.len(), 2);
    assert_eq!(filters[0].git_config_key, "filter.lfs.smudge");
    assert_eq!(filters[1].subcommand, "filter-process");
    assert_eq!(lfs_filter_value("smudge"), "git toprepo lfs smudge");
    let f = &filters[0];
    assert_eq!(lfs_filter_action(true, f, LfsFilterConfigState::Missing, false), LfsFilterAction::Install);
    assert_eq!(lfs_filter_action(false, f, LfsFilterConfigState::Missing, false), LfsFilterAction::Verified);
    assert_eq!(
        lfs_filter_action(true, f, LfsFilterConfigState::ThroughGitToprepo, false),
        LfsFilterAction::Verified
    );
    assert_eq!(
        lfs_filter_action(false, f, LfsFilterConfigState::ThroughGitToprepo, false),
        LfsFilterAction::Remove
    );
    let bad = LfsFilterConfigState::Bad(vec!["git-lfs smudge -- %f".to_owned()]);
    assert_eq!(lfs_filter_action(false, f, bad, true), LfsFilterAction::Remove);
    let bad = LfsFilterConfigState::Bad(vec!["git-lfs smudge -- %f".to_owned()]);
    assert_eq!(
        lfs_filter_action(true, f, bad, false),
        LfsFilterAction::Report(vec![
            "filter.lfs.smudge is configured as 'git-lfs smudge -- %f', which bypasses Git Toprepo. In an emulated monorepo this may fetch Git LFS objects from the wrong remote.".to_owned()
        ])
    );
}
