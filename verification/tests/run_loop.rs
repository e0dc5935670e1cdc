use gaggle::checklist::Component;
use gaggle::run_loop::{Next, Run, Stage, EMPTY_CHECKLIST};
use gaggle::state::{transition, Phase, State};
use gaggle::status;
use gaggle::verify::RunResult;

fn list(slugs: &[&str]) -> Vec<Component> {
    slugs.iter().map(|s| Component::new(s, s, "high")).collect()
}

fn gate(failed: Option<&str>) -> RunResult {
    RunResult {
        passed: failed.is_none(),
        failed_command: failed.map(str::to_string),
        output: String::new(),
        kill: None,
    }
}

fn settle(s: &mut State, slug: &str, phase: Phase) {
    transition(s, slug, Phase::Reviewing).unwrap();
    transition(s, slug, phase).unwrap();
}

fn slug(next: Next<String>) -> String {
    match next {
        Next::Work { slug } => slug,
        other => panic!("{other:?}"),
    }
}

#[test]
fn an_empty_checklist_is_refused() {
    let mut st = State::default();
    st.sync(&list(&["a"]));
    assert_eq!(Run::open(&mut st, &Vec::new()).unwrap_err(), EMPTY_CHECKLIST);
    assert!(st.get("a").is_some());
}

#[test]
fn every_pending_component_comes_before_the_final_checks() {
    let mut st = State::default();
    let (mut run, next) = Run::open(&mut st, &list(&["b", "a"])).unwrap();
    assert!(matches!(next, Next::Look));
    assert!(matches!(run.looked(&vec![".gitignore".to_string()]), Next::Begin));
    assert_eq!(slug(run.begun(&st)), "a");
    settle(&mut st, "a", Phase::Done);
    assert_eq!(slug(run.worked(&st)), "b");
    settle(&mut st, "b", Phase::Done);
    assert!(matches!(run.worked(&st), Next::FinalGate));
    match run.gated(&st, &gate(None), "r.md") {
        Next::Close { phase, words, fault } => {
            assert_eq!(phase, status::Phase::Done);
            assert_eq!(words, "all components done, final verify green");
            assert_eq!(fault, None);
        }
        other => panic!("{other:?}"),
    }
    assert_eq!(run.stage, Stage::Ended);
}

#[test]
fn changes_of_the_user_stop_a_run() {
    let mut st = State::default();
    let (mut run, _) = Run::open(&mut st, &list(&["a"])).unwrap();
    match run.looked(&vec!["src/a.rs".to_string()]) {
        Next::Refuse { why } => assert!(why.contains("(dirty: src/a.rs)"), "{why}"),
        other => panic!("{other:?}"),
    }
    assert_eq!(run.stage, Stage::Ended);
}

#[test]
fn interrupted_work_is_discarded_and_taken_up_again() {
    let mut st = State::default();
    st.sync(&list(&["a", "b"]));
    transition(&mut st, "b", Phase::Reviewing).unwrap();
    transition(&mut st, "b", Phase::Fixing).unwrap();
    let (mut run, next) = Run::open(&mut st, &list(&["a", "b"])).unwrap();
    assert!(matches!(next, Next::Discard));
    assert_eq!(st.get("b").unwrap().phase, Phase::Fixing);
    assert!(matches!(run.discarded(&mut st), Next::Begin));
    assert_eq!(st.get("b").unwrap().phase, Phase::Pending);
    assert_eq!(slug(run.begun(&st)), "a");
}

#[test]
fn red_checks_and_parked_components_show_at_the_end() {
    let mut st = State::default();
    let (mut run, _) = Run::open(&mut st, &list(&["a"])).unwrap();
    run.looked(&Vec::new());
    run.begun(&st);
    settle(&mut st, "a", Phase::Failed);
    run.worked(&st);
    match run.gated(&st, &gate(Some("make test")), "r.md") {
        Next::Close { phase, words, fault } => {
            assert_eq!(phase, status::Phase::Failed);
            assert_eq!(
                words,
                "loop finished with a RED final verify: quarantined component(s) — final gate `make test` failed"
            );
            assert_eq!(
                fault.as_deref(),
                Some("final verify is RED (`make test`) — see r.md for the full report")
            );
        }
        other => panic!("{other:?}"),
    }
}
