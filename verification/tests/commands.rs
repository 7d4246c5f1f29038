use gz::{branch, done, stash, sync, uncommit};

#[test]
fn sync_forced_fetches_then_hard_resets() {
    let cmds = sync(true, &"feature".to_string());
    assert_eq!(cmds, vec![
        vec!["fetch".to_string(), "origin".to_string(), "feature".to_string()],
        vec!["reset".to_string(), "--hard".to_string(), "origin/feature".to_string()],
    ]);
}

#[test]
fn sync_default_pulls_fast_forward_only() {
    let cmds = sync(false, &"main".to_string());
    assert_eq!(cmds, vec![vec![
        "pull".to_string(),
        "--ff-only".to_string(),
        "origin".to_string(),
        "main".to_string(),
    ]]);
}

#[test]
fn stash_includes_untracked() {
    assert_eq!(stash(), vec![
        "stash".to_string(),
        "push".to_string(),
        "--include-untracked".to_string(),
    ]);
}

#[test]
fn uncommit_resets_back_by_count() {
    assert_eq!(uncommit(1), vec!["reset".to_string(), "HEAD~1".to_string()]);
    assert_eq!(uncommit(3), vec!["reset".to_string(), "HEAD~3".to_string()]);
    assert_eq!(uncommit(42), vec!["reset".to_string(), "HEAD~42".to_string()]);
}

#[test]
fn branch_creates_and_switches() {
    assert_eq!(branch(&"topic".to_string()), vec![
        "switch".to_string(),
        "--create".to_string(),
        "topic".to_string(),
    ]);
}

#[test]
fn done_on_main_plans_nothing() {
    assert_eq!(done(&"main".to_string()), None);
}

#[test]
fn done_on_feature_switches_and_deletes() {
    let cmds = done(&"feature".to_string()).unwrap();
    assert_eq!(cmds, vec![
        vec!["switch".to_string(), "main".to_string()],
        vec![
            "branch".to_string(),
            "--delete".to_string(),
            "--force".to_string(),
            "feature".to_string(),
        ],
    ]);
}
