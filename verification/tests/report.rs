use gaggle::checklist::Component;
use gaggle::loop_engine::{history, list};
use gaggle::report::{
    archive_at, archive_run, errored_gate, generate_report, history_head, history_row, ledger, newest_first,
    red_gate, run_end, Facts, Spender,
};
use gaggle::state::{transition, Phase, State};
use gaggle::status;
use gaggle::verify::RunResult;

fn texts(items: &[&str]) -> Vec<String> {
    items.iter().map(|s| s.to_string()).collect()
}

fn green() -> RunResult {
    RunResult {
        passed: true,
        failed_command: None,
        output: String::new(),
        kill: None,
    }
}

fn red() -> RunResult {
    RunResult {
        passed: false,
        failed_command: Some("make e2e".to_string()),
        output: "boom".to_string(),
        kill: None,
    }
}

fn done(s: &mut State, slug: &str, findings: usize, commit: Option<&str>) {
    transition(s, slug, Phase::Reviewing).unwrap();
    transition(s, slug, Phase::Done).unwrap();
    s.set_findings(slug, findings).unwrap();
    if let Some(c) = commit {
        s.set_commit(slug, c).unwrap();
    }
}

fn state() -> State {
    let mut s = State::default();
    s.sync(&vec![
        Component::new("auth", "Auth", "high"),
        Component::new("core", "Core", "high"),
        Component::new("db", "DB", "low"),
        Component::new("ui", "UI", "low"),
    ]);
    done(&mut s, "auth", 0, None);
    done(&mut s, "core", 2, Some("abc123"));
    transition(&mut s, "db", Phase::Reviewing).unwrap();
    transition(&mut s, "db", Phase::Failed).unwrap();
    s.set_findings("db", 3).unwrap();
    s.set_detail("db", "a|b\nc").unwrap();
    s
}

fn facts() -> Facts {
    Facts {
        model: "p / m".to_string(),
        branch: None,
        usage: None,
        spenders: vec![],
    }
}

#[test]
fn the_ledger_has_a_line_per_component() {
    assert_eq!(
        ledger(&state()),
        "# Run ledger\n\n| slug | tier | phase | findings | commit | detail |\n|------|------|-------|----------|--------|--------|\n| auth | high | done | 0 | - |  |\n| core | high | done | 2 | abc123 |  |\n| db | low | failed | 3 | - | a\\|b c |\n| ui | low | pending | 0 | - |  |\n"
    );
    let mut s = state();
    s.set_detail("ui", &"é".repeat(200)).unwrap();
    assert_eq!(ledger(&s).matches('é').count(), 80);
}

#[test]
fn the_report_states_the_facts() {
    let text = generate_report(&state(), &green(), &facts(), Ok(texts(&["why?", "how?"])));
    assert_eq!(
        text,
        "# Final Review Report\n\n## Run summary\n\n- reviewed: 3 of 4 components\n- fixed+committed: 1: core (abc123)\n- clean: 1: auth\n- needs-decision: 2: db (failed, 3 open), core (done, 2 leftover)\n- commits: 1\n- final verify: PASS\n- model: p / m\n\n## OPEN QUESTIONS\n\n1. why?\n\n2. how?\n\n"
    );
}

#[test]
fn the_report_of_an_empty_run() {
    let text = generate_report(&State::default(), &red(), &facts(), Ok(vec![]));
    assert_eq!(
        text,
        "# Final Review Report\n\n## Run summary\n\n- reviewed: 0 of 0 components\n- fixed+committed: 0\n- clean: 0\n- needs-decision: 0\n- commits: 0\n- final verify: FAIL (`make e2e`)\n- model: p / m\n\n## OPEN QUESTIONS\n\n(none)\n"
    );
}

#[test]
fn the_report_survives_its_agent() {
    let text = generate_report(&state(), &green(), &facts(), Err("timeout".to_string()));
    assert!(text.contains("- reviewed: 3 of 4 components\n"));
    assert!(text.ends_with(
        "## OPEN QUESTIONS\n\n(questions unavailable — report agent failed: timeout)\n"
    ));
    let text = generate_report(&state(), &green(), &facts(), Ok(vec![]));
    assert!(text.ends_with(
        "(the report agent returned no questions — see the run ledger and findings files)\n"
    ));
}

#[test]
fn the_report_names_the_biggest_spenders() {
    let mut f = facts();
    f.branch = Some("gaggle/run-1".to_string());
    f.usage = Some("$1.0000".to_string());
    for (line, micros) in [
        ("a", 5),
        ("b", 9),
        ("c", 5),
        ("d", 0),
        ("e", 7),
        ("f", 9),
        ("g", 1),
    ] {
        f.spenders.push(Spender {
            line: line.to_string(),
            micros,
        });
    }
    let text = generate_report(&state(), &green(), &f, Ok(vec![]));
    assert!(text.contains(
        "- branch: gaggle/run-1 (dedicated — merge or revert as a unit)\n- usage: $1.0000\n  - b\n  - f\n  - e\n  - a\n  - c\n\n## OPEN"
    ), "{text}");
}

#[test]
fn the_archive_counts() {
    let r = archive_at(&state(), &red(), "20260101-000000");
    assert_eq!(r.ts, "20260101-000000");
    assert_eq!(r.outcome, "red");
    assert_eq!(r.components, 4);
    assert_eq!(r.done, 2);
    assert_eq!(r.failed, 1);
    assert_eq!(r.leftover_findings, 2);
    assert_eq!(r.commits, vec!["abc123"]);
    let mut s = State::default();
    s.sync(&vec![
        Component::new("a", "A", "high"),
        Component::new("b", "B", "high"),
    ]);
    done(&mut s, "a", usize::MAX, None);
    done(&mut s, "b", usize::MAX, None);
    let r = archive_run(&s, &green());
    assert_eq!((r.ts.len(), &r.ts[8..9]), (15, "-"));
    assert_eq!(r.outcome, "green");
    assert_eq!(r.leftover_findings, 2 * (usize::MAX as u128));
}

#[test]
fn the_end_of_a_run_is_told() {
    let mut clean = State::default();
    clean.sync(&vec![Component::new("a", "A", "high")]);
    let (p, w) = run_end(&clean, &green());
    assert_eq!(p, status::Phase::Done);
    assert_eq!(w, "all components done, final verify green");
    let (p, w) = run_end(&clean, &red());
    assert_eq!(p, status::Phase::Failed);
    assert_eq!(
        w,
        "loop finished with a RED final verify: no quarantined component(s) — final gate `make e2e` failed"
    );
    let (p, w) = run_end(&state(), &green());
    assert_eq!(p, status::Phase::Failed);
    assert_eq!(w, "loop finished: quarantined component(s)");
    assert_eq!(red_gate(&green(), "r.md"), None);
    assert_eq!(
        red_gate(&red(), "r.md").unwrap(),
        "final verify is RED (`make e2e`) — see r.md for the full report"
    );
    let e = errored_gate("no shell");
    assert!(!e.passed);
    assert_eq!(e.failed_command.as_deref(), Some("(final verify errored)"));
    assert_eq!(e.output, "no shell");
}

#[test]
fn the_table_of_components() {
    let cs = vec![
        Component::new("core", "Core", "high"),
        Component::new("new", "New", "low"),
    ];
    let mut s = state();
    s.set_detail("core", "fixed").unwrap();
    let expected = format!(
        "{:<28} {:<10} {:<10} {:<8} detail\n{:<28} {:<10} {:<10} {:<8} fixed\n{:<28} {:<10} {:<10} {:<8} \n",
        "slug", "tier", "phase", "findings", "core", "high", "done", 2, "new", "low", "pending", 0
    );
    assert_eq!(list(&cs, &s), expected);
}

#[test]
fn the_list_of_past_runs() {
    assert_eq!(
        history_head(),
        format!(
            "{:<18} {:<7} {:>5} {:>7} {:>9} {:>10}  model/usage",
            "run", "outcome", "done", "failed", "leftover", "cost"
        )
    );
    let text = "{\"outcome\": \"green\", \"done\": 3, \"failed\": 0, \"leftover_findings\": 12, \"model\": \"p / m — from .review/config.toml\"}";
    let expected = format!(
        "{:<18} {:<7} {:>5} {:>7} {:>9} {:>10}  p / m",
        "20260101-000000", "green", 3, 0, 12, "$0.1000"
    );
    assert_eq!(history("20260101-000000", text, "$0.1000"), expected);
    let v: serde_json::Value = serde_json::from_str(text).unwrap();
    assert_eq!(history_row("20260101-000000", &v, "$0.1000"), expected);
    assert_eq!(
        history("x", "{", "-"),
        format!(
            "{:<18} {:<7} {:>5} {:>7} {:>9} {:>10}  -",
            "x", "?", 0, 0, 0, "-"
        )
    );
    assert_eq!(history("x", "{}", "-"), history("x", "{", "-"));
}

#[test]
fn past_runs_come_newest_first() {
    assert_eq!(
        newest_first(&texts(&["20260102", "20260103", "20251231", "20260102"])),
        vec!["20260103", "20260102", "20260102", "20251231"]
    );
    assert!(newest_first(&vec![]).is_empty());
}
