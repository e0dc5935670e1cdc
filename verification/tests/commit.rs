use gaggle::commit::{
    commit_dirty, current_branch, dirty_paths, discard_commands, ensure_run_branch, failure,
    is_dirty, is_harness_path, printed, records, require_head, reset_worktree, run_branch_at, show_code,
    step_args, BranchConfig, CommitConfig, CommitStep, RunBranch, NO_HEAD,
};

fn list(items: &[&str]) -> Vec<String> {
    items.iter().map(|s| s.to_string()).collect()
}

#[test]
fn harness_paths() {
    assert!(is_harness_path(".review/checklist.md"));
    assert!(is_harness_path(".review/state.json"));
    assert!(is_harness_path("./.review/foo"));
    assert!(!is_harness_path("src/main.rs"));
    assert!(!is_harness_path(".gitignore"));
}

#[test]
fn porcelain_extracts_path() {
    let line = |s: &str| s.get(3..).unwrap_or("").to_string();
    assert_eq!(line(" M src/foo.rs"), "src/foo.rs");
    assert!(is_dirty(&list(&[" M src/foo.rs"])));
    assert!(!is_dirty(&list(&[" M .review/foo.rs"])));
}

#[test]
fn harness_paths_in_other_spellings() {
    assert!(is_harness_path(".review"));
    assert!(is_harness_path("  ././.review\\state.json "));
    assert!(!is_harness_path(".reviews/x"));
    assert!(!is_harness_path("src/.review/x"));
}

#[test]
fn renames_are_dirty_unless_both_sides_are_the_harness() {
    assert!(!is_dirty(&list(&[])));
    assert!(!is_dirty(&list(&["R  .review/b", ".review/a"])));
    assert!(is_dirty(&list(&["R  .review/b", "src/a.rs"])));
    assert!(is_dirty(&list(&["R  src/a.rs", ".review/b"])));
    assert!(is_dirty(&list(&["R  .review/b"])));
    assert!(is_dirty(&list(&["?? .review/x", " M src/ü.rs"])));
    assert!(!is_dirty(&list(&["??", "?? .review/x"])));
}

#[test]
fn settings_of_commits_and_branches() {
    assert!(!CommitConfig::load(None).unwrap().sign);
    assert!(!CommitConfig::load(Some("verify = [\"x\"]\n")).unwrap().sign);
    assert!(CommitConfig::load(Some("[commit]\nsign = true\n")).unwrap().sign);
    let err = CommitConfig::load(Some("[commit]\nsign = \"yes\"\n"))
        .unwrap_err()
        .message("c.toml");
    assert_eq!(
        err,
        "`commit.sign` in c.toml must be a boolean (true/false), found `string` — refusing to guess intent"
    );
    assert!(!BranchConfig::load(None).unwrap().dedicated);
    assert!(BranchConfig::load(Some("[branch]\ndedicated = true\n"))
        .unwrap()
        .dedicated);
    let err = BranchConfig::load(Some("[branch]\ndedicated = 1\n"))
        .unwrap_err()
        .message("c.toml");
    assert_eq!(
        err,
        "`branch.dedicated` in c.toml must be a boolean, found `integer`"
    );
    let err = CommitConfig::load(Some("not toml [[["))
        .unwrap_err()
        .message("c.toml");
    assert!(err.starts_with("failed to parse `c.toml`: "), "{err}");
}

#[test]
fn a_repository_without_commits_is_refused() {
    assert!(require_head(true).is_ok());
    assert_eq!(require_head(false).unwrap_err(), NO_HEAD);
    assert!(NO_HEAD.starts_with("this repository has no commits yet"));
}

#[test]
fn git_output_is_read() {
    assert_eq!(printed(b"  abc\xff \n"), "abc\u{fffd}");
    assert_eq!(records(b"a\0\0b c\0"), list(&["a", "b c"]));
    assert_eq!(current_branch(b"main\n"), Some("main".to_string()));
    assert_eq!(current_branch(b"\n"), None);
    assert_eq!(show_code(Some(-3)), "Some(-3)");
    assert_eq!(show_code(None), "None");
    assert_eq!(
        failure(&list(&["add", "-A"]), Some(128), b"fatal: no\n"),
        "git add -A failed (exit Some(128)): fatal: no"
    );
}

#[test]
fn a_run_branch_is_made_once() {
    let off = BranchConfig { dedicated: false };
    let on = BranchConfig { dedicated: true };
    assert!(matches!(
        run_branch_at(&off, Some("main"), "t"),
        RunBranch::Current
    ));
    match run_branch_at(&on, Some("main"), "20260101-000000") {
        RunBranch::Create(b) => {
            assert_eq!(b, "gaggle/run-20260101-000000");
            match run_branch_at(&on, Some(&b), "20270101-000000") {
                RunBranch::Reuse(again) => assert_eq!(again, b),
                _ => panic!("not reused"),
            }
        }
        _ => panic!("not created"),
    }
    assert!(matches!(
        run_branch_at(&on, None, "t"),
        RunBranch::Create(_)
    ));
}

#[test]
fn dirty_paths_leave_the_harness_out_and_hold_each_once() {
    let out = dirty_paths(
        &list(&["src/a.rs", ".review/state.json"]),
        &list(&["src/b.rs", "src/a.rs", "./.review/x"]),
    );
    assert_eq!(out, list(&["src/a.rs", "src/b.rs"]));
}

#[test]
fn a_commit_stages_all_and_drops_the_harness() {
    let cfg = CommitConfig { sign: false };
    let mut at = CommitStep::Add;
    let codes = [Some(0), Some(1), None, Some(1), Some(0), Some(0)];
    let mut ran: Vec<String> = Vec::new();
    for code in codes {
        ran.push(step_args(at, &cfg, "fix").join(" "));
        at = commit_dirty(at, code);
    }
    assert_eq!(at, CommitStep::Done);
    assert_eq!(
        ran,
        list(&[
            "add -A",
            "reset --quiet -- .review",
            "reset --quiet -- .gitignore",
            "diff --cached --quiet",
            "-c commit.gpgsign=false commit -m fix",
            "rev-parse --short HEAD",
        ])
    );
    assert_eq!(
        step_args(CommitStep::Commit, &CommitConfig { sign: true }, "fix"),
        list(&["commit", "-m", "fix"])
    );
}

#[test]
fn a_commit_ends_early() {
    assert_eq!(commit_dirty(CommitStep::Probe, Some(0)), CommitStep::Nothing);
    assert_eq!(commit_dirty(CommitStep::Probe, Some(128)), CommitStep::Failed);
    assert_eq!(commit_dirty(CommitStep::Add, Some(1)), CommitStep::Failed);
    assert_eq!(commit_dirty(CommitStep::Commit, None), CommitStep::Failed);
    assert_eq!(commit_dirty(CommitStep::Hash, Some(1)), CommitStep::Failed);
    assert_eq!(commit_dirty(CommitStep::Nothing, Some(0)), CommitStep::Nothing);
    let none = step_args(CommitStep::Done, &CommitConfig { sign: false }, "x");
    assert!(none.is_empty());
}

#[test]
fn a_reset_spares_the_ignore_file() {
    let commands = discard_commands();
    assert_eq!(commands[0].join(" "), "reset --quiet -- .");
    assert_eq!(commands[1].join(" "), "clean -f -d -e .review");
    assert_eq!(reset_worktree(&list(&[".gitignore"])), None);
    assert_eq!(reset_worktree(&list(&[])), None);
    assert_eq!(
        reset_worktree(&list(&["a", ".gitignore", "b"])),
        Some(list(&["checkout", "--", "a", "b"]))
    );
}

#[test]
fn a_run_that_starts_now_gets_a_stamped_branch() {
    let on = BranchConfig { dedicated: true };
    match ensure_run_branch(&on, Some("main")) {
        RunBranch::Create(name) => {
            let stamp = name.strip_prefix("gaggle/run-").unwrap();
            assert_eq!(stamp.len(), 15);
            assert_eq!(&stamp[8..9], "-");
            assert!(stamp.chars().all(|c| c.is_ascii_digit() || c == '-'));
            assert!(matches!(
                ensure_run_branch(&on, Some(&name)),
                RunBranch::Reuse(kept) if kept == name
            ));
        }
        other => panic!("{other:?}"),
    }
    let off = BranchConfig { dedicated: false };
    assert!(matches!(ensure_run_branch(&off, None), RunBranch::Current));
}
