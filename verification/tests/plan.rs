use gaggle::checklist::Component;
use gaggle::cli::parse_components;
use gaggle::discover::DiscoveredComponent;
use gaggle::loop_engine::{init, requeue};
use gaggle::plan::{
    checklist_from_state, dirty_guard, discovered_components, has_active, load_existing_slugs,
    named_components, persist_checklist, requeue_note, review_order, run_review_only,
    show_findings, NO_CHECKLIST,
};
use gaggle::state::{transition, Phase, State};

fn texts(items: &[&str]) -> Vec<String> {
    items.iter().map(|s| s.to_string()).collect()
}

fn park(s: &mut State, slug: &str, why: &str) {
    transition(s, slug, Phase::Reviewing).unwrap();
    transition(s, slug, Phase::Failed).unwrap();
    s.set_detail(slug, why).unwrap();
    s.set_findings(slug, 2).unwrap();
}

fn state(slugs: &[&str]) -> State {
    let mut s = State::default();
    s.sync(
        &slugs
            .iter()
            .map(|n| Component::new(n, n, "high"))
            .collect(),
    );
    s
}

#[test]
fn named_components_get_their_places() {
    let entries =
        parse_components(&texts(&["--components", "src-verify|Verify|low,core|Core"])).unwrap();
    let list = named_components(&entries);
    let resolved = vec![Some("/r/src/verify.rs".to_string()), None];
    let (st, shown) = init(&list, &resolved);
    assert_eq!(shown[0].slug, "src-verify");
    assert_eq!(shown[0].tier, "low");
    assert_eq!(shown[0].paths, vec!["/r/src/verify.rs"]);
    assert!(shown[1].paths.is_empty());
    assert_eq!(shown[1].tier, "medium");
    assert_eq!(st.get("src-verify").unwrap().paths, vec!["/r/src/verify.rs"]);
    assert_eq!(st.get("core").unwrap().phase, Phase::Pending);
}

#[test]
fn discovered_components_keep_their_paths() {
    let found = vec![DiscoveredComponent {
        slug: "core".to_string(),
        name: "Core".to_string(),
        description: "d".to_string(),
        paths: texts(&["src/a.rs"]),
        tier: "high".to_string(),
        priority: 100,
    }];
    let list = discovered_components(&found);
    assert_eq!(list.len(), 1);
    assert_eq!(list[0].paths, vec!["src/a.rs"]);
    assert_eq!(list[0].tier, "high");
    assert!(!list[0].done);
}

#[test]
fn the_list_is_written_back() {
    let mut s = state(&["a", "b"]);
    transition(&mut s, "a", Phase::Reviewing).unwrap();
    transition(&mut s, "a", Phase::Done).unwrap();
    s.components.get_mut("b").unwrap().paths = texts(&["new"]);
    let mut a = Component::new("a", "A", "high");
    a.paths = texts(&["kept"]);
    let mut b = Component::new("b", "B", "high");
    b.done = true;
    b.paths = texts(&["old"]);
    let c = Component::new("c", "C", "high");
    let out = persist_checklist(&vec![a.duplicate(), b.duplicate(), c], &s);
    assert!(out[0].done);
    assert_eq!(out[0].paths, vec!["kept"]);
    assert!(!out[1].done);
    assert_eq!(out[1].paths, vec!["new"]);
    assert!(!out[2].done);
    let out = checklist_from_state(&s, &vec![a, b]);
    assert!(out[0].paths.is_empty());
    assert_eq!(out[1].paths, vec!["new"]);
    assert!(out[1].done);
    let before = format!("{:?}", s);
    let list = persist_checklist(&out, &s);
    s.sync(&list);
    assert_eq!(s.get("a").unwrap().phase, Phase::Done);
    assert!(before.contains("Done"));
}

#[test]
fn a_discovery_is_told_of_the_slugs() {
    assert_eq!(load_existing_slugs(&vec![], None), NO_CHECKLIST);
    let mut a = Component::new("a", "A", "high");
    a.paths = texts(&["x", "y"]);
    let b = Component::new("b", "B", "low");
    let list = vec![a, b];
    assert_eq!(
        load_existing_slugs(&list, None),
        "- a — A [high]  paths: x, y\n- b — B [low]"
    );
    let mut s = State::default();
    s.sync(&list);
    s.components.get_mut("a").unwrap().paths = texts(&["z"]);
    assert_eq!(
        load_existing_slugs(&list, Some(&s)),
        "- a — A [high]  paths: z\n- b — B [low]"
    );
}

#[test]
fn interrupted_work_is_seen() {
    let mut s = state(&["a", "b"]);
    assert!(!has_active(&s));
    transition(&mut s, "b", Phase::Reviewing).unwrap();
    assert!(has_active(&s));
}

#[test]
fn a_dirty_worktree_stops_a_run() {
    assert_eq!(dirty_guard(&texts(&[])), None);
    assert_eq!(dirty_guard(&texts(&[".gitignore"])), None);
    assert_eq!(
        dirty_guard(&texts(&["a", ".gitignore", "b"])).unwrap(),
        "worktree is dirty — commit or stash before `gaggle run` (dirty: a, b). "
    );
    assert_eq!(
        dirty_guard(&texts(&["target/x"])).unwrap(),
        "worktree is dirty — commit or stash before `gaggle run` (dirty: target/x). If these are build outputs, gitignore them (e.g. /target/) and commit the .gitignore first."
    );
    assert_eq!(
        dirty_guard(&texts(&["1", "2", "3", "4", "5", "6", "7"])).unwrap(),
        "worktree is dirty — commit or stash before `gaggle run` (dirty: 1, 2, 3, 4, 5 … and 2 more). If these are build outputs, gitignore them (e.g. /target/) and commit the .gitignore first."
    );
}

#[test]
fn reviews_go_by_tier_then_by_slug() {
    let list = vec![
        Component::new("z", "Z", "low"),
        Component::new("y", "Y", "odd"),
        Component::new("x", "X", "high"),
        Component::new("b", "B", "low"),
        Component::new("a", "A", "high"),
    ];
    let order: Vec<String> = review_order(&list).iter().map(|c| c.slug.clone()).collect();
    assert_eq!(order, vec!["a", "x", "b", "z", "y"]);
}

#[test]
fn findings_are_shown_in_short() {
    assert!(show_findings(&vec![]).is_empty());
    let long = "é".repeat(150);
    let out = show_findings(&vec![
        "one\nmore".to_string(),
        long,
        String::new(),
        "4".to_string(),
        "5".to_string(),
    ]);
    assert_eq!(out.len(), 4);
    assert_eq!(out[0], "    1. one");
    assert_eq!(out[1].matches('é').count(), 100);
    assert_eq!(out[2], "    3. ");
    assert_eq!(out[3], "    … and 2 more");
}

#[test]
fn a_review_only_pass_is_counted() {
    let r = run_review_only(&vec![Some(0), Some(3), None, Some(2)]);
    assert_eq!(
        r.timeline,
        "review-only pass complete: 5 finding(s), 1 clean, 1 error(s)"
    );
    assert_eq!(
        r.closing,
        "review-only pass complete: 4 component(s) — 5 finding(s), 1 clean, 1 error(s)"
    );
    assert_eq!(
        r.fault.unwrap(),
        "1 component review(s) failed — see output above"
    );
    assert!(run_review_only(&vec![Some(0)]).fault.is_none());
}

#[test]
fn parked_components_are_requeued() {
    let mut s = state(&["a", "b", "c"]);
    park(&mut s, "a", "  timeout \n");
    park(&mut s, "c", "x");
    assert_eq!(requeue(&mut s, &texts(&["a"]), false).unwrap(), vec!["a"]);
    let row = s.get("a").unwrap();
    assert_eq!(row.phase, Phase::Pending);
    assert_eq!(row.findings, 0);
    assert_eq!(row.detail, "requeued (previously: timeout)");
    assert_eq!(s.get("c").unwrap().phase, Phase::Failed);
    assert_eq!(requeue(&mut s, &texts(&[]), true).unwrap(), vec!["c"]);
    assert!(requeue(&mut s, &texts(&[]), true).unwrap().is_empty());
    assert_eq!(
        requeue_note(&texts(&["a", "c"])),
        "requeued 2 component(s): a, c"
    );
}

#[test]
fn only_parked_components_are_requeued() {
    let mut s = state(&["a", "b"]);
    park(&mut s, "a", "x");
    assert_eq!(
        requeue(&mut s, &texts(&["z"]), false).unwrap_err().message(),
        "unknown component z"
    );
    assert_eq!(
        requeue(&mut s, &texts(&["b"]), false).unwrap_err().message(),
        "b is pending, not failed — requeue applies only to quarantined components (uncheck a done component in checklist.md to redo it)"
    );
    assert!(requeue(&mut s, &texts(&["a", "a"]), false).is_err());
}

#[test]
fn a_package_with_go_or_rust_has_source() {
    assert!(plan_has_source(&["README.md", "main.go"]));
    assert!(plan_has_source(&["main.rs"]));
    assert!(!plan_has_source(&["README.md", "rs", "main.go.txt"]));
    // A name that is nothing but an extension has none.
    assert!(!plan_has_source(&[".rs", ".go"]));
    assert!(!plan_has_source(&[]));
}

fn plan_has_source(names: &[&str]) -> bool {
    gaggle::plan::has_source(&texts(names))
}
