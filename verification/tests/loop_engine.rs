use gaggle::checklist::Component;
use gaggle::loop_engine::{
    check_again, classify, commit_message, component_name, component_paths, component_paths_vec,
    counting_result, diagnostics, needs_full, parse_findings, parse_questions, parse_still_open,
    passing, quarantine, scoped_commands, src_places, verify_until_stable, write_findings_file,
    Action, ComponentRun, Engine, Step, VerifyVerdict,
};
use gaggle::state::{Phase, State};
use gaggle::verify::RunResult;

fn json(text: &str) -> serde_json::Value {
    serde_json::from_str(text).unwrap()
}

fn list(items: &[&str]) -> Vec<String> {
    items.iter().map(|s| s.to_string()).collect()
}

fn state() -> State {
    let mut s = State::default();
    s.sync(&vec![
        Component::new("a", "The A", "high"),
        Component::new("b", "B", "low"),
    ]);
    s
}

fn red(cause: &str, diagnostics: &str) -> VerifyVerdict {
    VerifyVerdict {
        passed: false,
        cause: Some(cause.to_string()),
        diagnostics: Some(diagnostics.to_string()),
    }
}

fn result(passed: bool, cmd: Option<&str>, output: &str) -> RunResult {
    RunResult {
        passed,
        failed_command: cmd.map(|s| s.to_string()),
        output: output.to_string(),
        kill: None,
    }
}

#[test]
fn missing_findings_is_error() {
    let v = json("{\"status\": \"ok\"}");
    let f = parse_findings(&v);
    assert_eq!(f.len(), 1);
    assert!(f[0].contains("missing findings key"));
}

#[test]
fn empty_array_is_clean() {
    let v = json("{\"findings\": []}");
    assert!(parse_findings(&v).is_empty());
}

#[test]
fn null_findings_is_error() {
    let v = json("{\"findings\": null}");
    let f = parse_findings(&v);
    assert_eq!(f.len(), 1);
    assert!(f[0].contains("malformed"));
}

#[test]
fn still_open_parses_array() {
    let v = json("{\"still_open\": [\"a\", \"\", \"b\"]}");
    assert_eq!(parse_still_open(&v), vec!["a", "b"]);
}

#[test]
fn missing_still_open_is_empty() {
    let v = json("{\"status\": \"ok\"}");
    assert!(parse_still_open(&v).is_empty());
}

#[test]
fn findings_path_stays_inside_findings_dir() {
    let engine = Engine::new("/tmp/gaggle-path-test");
    let p = engine.findings_path("../evil");
    let findings = format!("{}/findings", engine.review_dir);
    let p = std::path::Path::new(&p);
    assert!(p.starts_with(&findings), "{}", p.display());
    assert_eq!(p.file_name().unwrap(), "___evil.txt");
    let p = engine.findings_path("loop-engine");
    let p = std::path::Path::new(&p);
    assert_eq!(p.file_name().unwrap(), "loop-engine.txt");
}

#[test]
fn places_of_the_engine() {
    let engine = Engine::new("/r");
    assert_eq!(engine.repo, "/r");
    assert_eq!(engine.review_dir, "/r/.review");
    assert_eq!(engine.state_path(), "/r/.review/state.json");
    assert_eq!(
        engine.findings_path(""),
        "/r/.review/findings/unknown.txt"
    );
    assert_eq!(Engine::new("/").review_dir, "/.review");
    assert_eq!(Engine::new("").review_dir, ".review");
}

#[test]
fn findings_in_other_shapes() {
    assert_eq!(
        parse_findings(&json("{\"findings\": [\" a \", 1, \"\\n\", \"b\"]}")),
        vec!["a", "b"]
    );
    assert_eq!(parse_findings(&json("{\"findings\": \" one \"}")), vec!["one"]);
    assert_eq!(
        parse_findings(&json("{\"findings\": \"  \"}")),
        vec!["review result was malformed (findings value was null or empty-string, expected an array)"]
    );
    assert_eq!(
        parse_findings(&json("{\"findings\": {\"k\": [1, true]}}")),
        vec!["review result was malformed (unexpected findings shape: {\"k\":[1,true]})"]
    );
    assert_eq!(parse_still_open(&json("{\"still_open\": \"x\"}")), vec!["x"]);
    assert!(parse_still_open(&json("{\"still_open\": 3}")).is_empty());
    assert!(parse_still_open(&json("{\"still_open\": null}")).is_empty());
    assert_eq!(
        parse_questions(&json("{\"questions\": [\"why?\", \" \", 4]}")),
        vec!["why?"]
    );
    assert!(parse_questions(&json("{}")).is_empty());
}

#[test]
fn a_clean_review_ends_the_work() {
    let mut st = state();
    let mut run = ComponentRun::start(&mut st, "a").unwrap();
    assert_eq!(st.get("a").unwrap().phase, Phase::Reviewing);
    assert!(run.ready(&st, Step::Review));
    assert!(!run.ready(&st, Step::Fix));
    assert!(matches!(run.reviewed(&mut st, Ok(vec![])), Action::Clean));
    let row = st.get("a").unwrap();
    assert_eq!(row.phase, Phase::Done);
    assert_eq!(row.detail, "clean review — no findings");
    assert_eq!(row.findings, 0);
    assert_eq!(st.get("b").unwrap().phase, Phase::Pending);
}

#[test]
fn a_fix_that_is_green_and_confirmed_is_done() {
    let mut st = state();
    let mut run = ComponentRun::start(&mut st, "a").unwrap();
    assert!(matches!(
        run.reviewed(&mut st, Ok(list(&["f1", "f2"]))),
        Action::Fix
    ));
    assert_eq!(run.cycle_note(), "fix cycle 1/3 — 2 finding(s)");
    assert_eq!(st.get("a").unwrap().phase, Phase::Fixing);
    assert_eq!(st.get("a").unwrap().findings, 2);
    assert!(matches!(run.fixed(&mut st, None), Action::Verify));
    assert!(matches!(run.verified(&mut st, &passing()), Action::CheckGate));
    assert!(matches!(
        run.gate_checked(&mut st, &list(&["ci.sh"]), &list(&["src/a.rs"])),
        Action::Commit
    ));
    assert!(matches!(
        run.committed(&mut st, Ok(Some("abc123".to_string()))),
        Action::Confirm
    ));
    assert!(matches!(run.confirmed(&mut st, Some(vec![])), Action::Finish));
    assert!(!run.must_reset());
    assert_eq!(run.finish_done(&mut st), "fixed + committed abc123");
    let row = st.get("a").unwrap();
    assert_eq!(row.phase, Phase::Done);
    assert_eq!(row.findings, 0);
    assert_eq!(row.commit, Some("abc123".to_string()));
}

#[test]
fn a_fixer_that_touches_the_gate_is_parked() {
    let mut st = state();
    let mut run = ComponentRun::start(&mut st, "a").unwrap();
    run.reviewed(&mut st, Ok(list(&["f"])));
    run.fixed(&mut st, None);
    run.verified(&mut st, &passing());
    let gates = list(&["ci.sh", "e2e.sh"]);
    let dirty = list(&["src/a.rs", "e2e.sh", "ci.sh"]);
    match run.gate_checked(&mut st, &gates, &dirty) {
        Action::Quarantine { why } => {
            assert_eq!(
                why,
                "fixer modified verify gate file(s): e2e.sh, ci.sh — refusing to commit a green result produced by a gate the agent changed"
            );
            quarantine(&mut st, "a", &why).unwrap();
        }
        _ => panic!("not parked"),
    }
    let row = st.get("a").unwrap();
    assert_eq!(row.phase, Phase::Failed);
    assert!(row.detail.starts_with("fixer modified"));
    assert!(row.commit.is_none());
}

#[test]
fn red_checks_are_fed_back_until_the_cycles_are_spent() {
    let mut st = state();
    let mut run = ComponentRun::start(&mut st, "a").unwrap();
    run.reviewed(&mut st, Ok(list(&["f"])));
    for cycle in 1..=3 {
        assert_eq!(run.cycles, cycle);
        run.fixed(&mut st, None);
        let action = run.verified(&mut st, &red("fix", "boom"));
        assert_eq!(run.findings.len(), cycle + 1);
        assert_eq!(
            run.findings[0],
            "VERIFY FAILED (cause: fix). Diagnostics from the failed check:\nboom"
        );
        assert_eq!(
            st.get("a").unwrap().detail,
            format!("verify fail cycle {cycle} (cause: fix)\nboom")
        );
        if cycle < 3 {
            assert!(matches!(action, Action::Fix));
        } else {
            match action {
                Action::Quarantine { why } => {
                    assert_eq!(why, "4 finding(s) unresolved after 3 fix cycles")
                }
                _ => panic!("not parked"),
            }
        }
    }
}

#[test]
fn a_red_environment_keeps_the_last_green_commit() {
    let mut st = state();
    let mut run = ComponentRun::start(&mut st, "a").unwrap();
    run.reviewed(&mut st, Ok(list(&["f1", "f2"])));
    run.fixed(&mut st, None);
    run.verified(&mut st, &passing());
    run.gate_checked(&mut st, &vec![], &vec![]);
    run.committed(&mut st, Ok(Some("c0ffee".to_string())));
    assert!(matches!(
        run.confirmed(&mut st, Some(list(&["f2"]))),
        Action::Fix
    ));
    assert_eq!(
        st.get("a").unwrap().detail,
        "committed c0ffee; 1 still open after confirm"
    );
    run.fixed(&mut st, None);
    assert!(matches!(
        run.verified(&mut st, &red("environmental", "disk full")),
        Action::Finish
    ));
    assert!(run.must_reset());
    assert_eq!(
        run.finish_done(&mut st),
        "kept last green c0ffee; 1 still open (environmental verify)"
    );
    assert_eq!(st.get("a").unwrap().phase, Phase::Done);
    assert_eq!(st.get("a").unwrap().findings, 1);
}

#[test]
fn a_red_environment_without_a_commit_is_parked() {
    let mut st = state();
    let mut run = ComponentRun::start(&mut st, "a").unwrap();
    run.reviewed(&mut st, Ok(list(&["f"])));
    run.fixed(&mut st, None);
    let long = "é".repeat(2000);
    match run.verified(&mut st, &red("environmental", &long)) {
        Action::Quarantine { why } => assert_eq!(
            why,
            "verify failed for environmental reasons (not counted as a fix cycle)"
        ),
        _ => panic!("not parked"),
    }
    let detail = &st.get("a").unwrap().detail;
    assert!(detail.starts_with("verify environmental after cycle 1\n"));
    assert_eq!(detail.matches('é').count(), 512);
}

#[test]
fn agents_that_fail_park_the_component() {
    let mut st = state();
    let mut run = ComponentRun::start(&mut st, "a").unwrap();
    match run.reviewed(&mut st, Err("timeout".to_string())) {
        Action::Quarantine { why } => assert_eq!(why, "review failed: timeout"),
        _ => panic!("not parked"),
    }
    let mut run = ComponentRun::start(&mut st, "b").unwrap();
    run.reviewed(&mut st, Ok(list(&["f"])));
    match run.fixed(&mut st, Some("crash".to_string())) {
        Action::Quarantine { why } => assert_eq!(why, "fix failed in cycle 1: crash"),
        _ => panic!("not parked"),
    }
}

#[test]
fn commits_that_fail_park_the_component() {
    let mut st = state();
    let mut run = ComponentRun::start(&mut st, "a").unwrap();
    run.reviewed(&mut st, Ok(list(&["f"])));
    run.fixed(&mut st, None);
    run.verified(&mut st, &passing());
    run.gate_checked(&mut st, &vec![], &vec![]);
    match run.committed(&mut st, Err("hook".to_string())) {
        Action::Quarantine { why } => assert_eq!(why, "verify passed but commit failed: hook"),
        _ => panic!("not parked"),
    }
}

#[test]
fn a_confirmation_that_fails_leaves_the_work_order_open() {
    let mut st = state();
    let mut run = ComponentRun::start(&mut st, "a").unwrap();
    run.reviewed(&mut st, Ok(list(&["f1", "f2"])));
    let mut action = Action::Fix;
    let mut sent = 0;
    while matches!(action, Action::Fix) {
        sent += 1;
        run.fixed(&mut st, None);
        run.verified(&mut st, &passing());
        run.gate_checked(&mut st, &vec![], &vec![]);
        run.committed(&mut st, Ok(None));
        action = run.confirmed(&mut st, None);
    }
    assert_eq!(sent, 3);
    assert!(matches!(action, Action::Finish));
    assert_eq!(run.findings, list(&["f1", "f2"]));
    assert_eq!(
        run.finish_done(&mut st),
        "kept last green; 2 still open after confirm"
    );
    assert_eq!(st.get("a").unwrap().commit, None);
}

#[test]
fn work_cannot_start_on_a_component_that_is_not_pending() {
    let mut st = state();
    assert_eq!(
        ComponentRun::start(&mut st, "x").unwrap_err().message(),
        "unknown component x"
    );
    ComponentRun::start(&mut st, "a").unwrap();
    assert_eq!(
        ComponentRun::start(&mut st, "a").unwrap_err().message(),
        "illegal transition a: reviewing → reviewing"
    );
    assert_eq!(
        quarantine(&mut st, "b", "no").unwrap_err().message(),
        "illegal transition b: pending → failed"
    );
    assert!(quarantine(&mut st, "x", "no").is_err());
}

#[test]
fn own_checks_come_first_and_the_full_ones_at_most_once() {
    let mut st = state();
    assert!(scoped_commands(&st, "a").is_empty());
    let mut c = Component::new("a", "The A", "high");
    c.verify = list(&["go test ./a"]);
    st.sync(&vec![c]);
    assert_eq!(scoped_commands(&st, "a"), vec!["go test ./a"]);
    assert!(scoped_commands(&st, "x").is_empty());
    assert!(needs_full(None));
    assert!(needs_full(Some(true)));
    assert!(!needs_full(Some(false)));
    let scoped = || Some(result(true, None, "scoped"));
    let r = counting_result(scoped(), Some(result(true, None, "full"))).unwrap();
    assert_eq!(r.output, "scoped");
    let r = counting_result(scoped(), Some(result(false, Some("t"), "full"))).unwrap();
    assert_eq!(r.output, "full");
    let r = counting_result(Some(result(false, Some("s"), "scoped")), None).unwrap();
    assert_eq!(r.output, "scoped");
    let r = counting_result(None, Some(result(true, None, "full"))).unwrap();
    assert_eq!(r.output, "full");
    assert!(counting_result(None, None).is_none());
}

#[test]
fn failures_are_classified() {
    assert_eq!(
        diagnostics(&result(false, Some("make"), "boom")),
        "command `make` failed\nboom"
    );
    assert_eq!(diagnostics(&result(false, None, "boom")), "boom");
    let v = classify(None, "d");
    assert_eq!(v.cause.as_deref(), Some("fix"));
    assert_eq!(v.diagnostics.as_deref(), Some("d"));
    assert!(!verify_until_stable(&v));
    let answer = json("{\"cause\": \"environmental\", \"diagnostics\": \"e\"}");
    let v = classify(Some(&answer), "d");
    assert_eq!(v.cause.as_deref(), Some("environmental"));
    assert_eq!(v.diagnostics.as_deref(), Some("e"));
    assert!(verify_until_stable(&v));
    let v = classify(Some(&json("{\"cause\": 1}")), "d");
    assert_eq!(v.cause.as_deref(), Some("fix"));
    assert_eq!(v.diagnostics.as_deref(), Some("d"));
    assert!(!verify_until_stable(&passing()));
}

#[test]
fn a_failing_environment_gets_one_more_run() {
    let v = red("environmental", "no space left");
    assert!(check_again(1, &v));
    assert!(!check_again(0, &v));
    assert!(!check_again(2, &v));
    assert!(!check_again(1, &red("fix", "d")));
    assert!(!check_again(1, &passing()));
}

#[test]
fn slugs_stand_for_modules() {
    assert_eq!(src_places("src-verify"), vec!["src/verify.rs", "src/verify"]);
    assert_eq!(
        src_places("src-loop"),
        vec!["src/loop_engine.rs", "src/loop_engine"]
    );
    assert_eq!(
        src_places("src-a-b"),
        vec!["src/a_b.rs", "src/a_b", "src/a-b.rs", "src/a-b"]
    );
    assert!(src_places("core").is_empty());
}

#[test]
fn paths_and_names_of_components() {
    let mut st = state();
    assert_eq!(
        component_paths_vec(&st, "a", Some("src/a.rs")),
        vec!["src/a.rs"]
    );
    assert!(component_paths_vec(&st, "a", None).is_empty());
    let mut c = Component::new("a", "The A", "high");
    c.paths = list(&["x", "y"]);
    st.sync(&vec![c]);
    assert_eq!(component_paths(&st, "a", Some("src/a.rs")), "x, y");
    assert_eq!(component_paths(&st, "q", None), "");
    assert_eq!(component_name(&st, "a"), "The A");
    assert_eq!(component_name(&st, "q"), "q");
}

#[test]
fn findings_are_numbered() {
    assert_eq!(write_findings_file(&vec![]), None);
    assert_eq!(
        write_findings_file(&list(&["one", "two\nlines"])),
        Some("1. one\n\n2. two\nlines".to_string())
    );
    assert_eq!(commit_message("core"), "gaggle(core): fix review findings");
}
