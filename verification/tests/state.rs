use gaggle::checklist::Component;
use gaggle::state::{
    allowed, backup_extension, tmp_extension, tmp_owner, transition, Phase, State,
};

fn component(done: bool, paths: &[&str]) -> Component {
    Component {
        slug: "a".into(),
        name: "A".into(),
        tier: "high".into(),
        done,
        paths: paths.iter().map(|s| s.to_string()).collect(),
        verify: vec![],
    }
}

const ALL: [Phase; 7] = [
    Phase::Pending,
    Phase::Reviewing,
    Phase::Fixing,
    Phase::Verifying,
    Phase::Committing,
    Phase::Done,
    Phase::Failed,
];

#[test]
fn sync_honors_done_and_paths() {
    let comps = vec![component(true, &["src/a.rs"])];
    let mut s = State::default();
    s.sync(&comps);
    let row = s.get("a").unwrap();
    assert_eq!(row.phase, Phase::Done);
    assert_eq!(row.paths, vec!["src/a.rs"]);
}

#[test]
fn sync_uncheck_requeues_done() {
    let mut s = State::default();
    s.sync(&vec![component(true, &[])]);
    s.sync(&vec![component(false, &[])]);
    assert_eq!(s.get("a").unwrap().phase, Phase::Pending);
}

#[test]
fn sync_uncheck_requeues_failed() {
    let mut s = State::default();
    s.sync(&vec![component(false, &[])]);
    transition(&mut s, "a", Phase::Reviewing).unwrap();
    transition(&mut s, "a", Phase::Failed).unwrap();
    s.set_findings("a", 2).unwrap();
    s.set_detail("a", "goose timed out").unwrap();
    s.sync(&vec![component(false, &[])]);
    let row = s.get("a").unwrap();
    assert_eq!(row.phase, Phase::Pending);
    assert_eq!(row.findings, 0);
    assert!(row.detail.is_empty());
}

#[test]
fn restart_all_resets_done_and_failed() {
    let mut s = State::default();
    s.sync(&vec![
        Component::new("a", "A", "high"),
        Component::new("b", "B", "low"),
    ]);
    transition(&mut s, "a", Phase::Reviewing).unwrap();
    transition(&mut s, "a", Phase::Done).unwrap();
    s.set_findings("a", 3).unwrap();
    s.set_detail("a", "fixed").unwrap();
    s.components.get_mut("a").unwrap().commit = Some("abc".into());
    transition(&mut s, "b", Phase::Reviewing).unwrap();
    transition(&mut s, "b", Phase::Failed).unwrap();
    s.restart_all();
    for slug in ["a", "b"] {
        let row = s.get(slug).unwrap();
        assert_eq!(row.phase, Phase::Pending);
        assert_eq!(row.findings, 0);
        assert!(row.detail.is_empty());
        assert!(row.commit.is_none());
    }
}

#[test]
fn failed_to_pending_is_legal_requeue_path() {
    assert!(allowed(Phase::Failed, Phase::Pending));
    assert!(!allowed(Phase::Done, Phase::Pending));
    assert!(!allowed(Phase::Reviewing, Phase::Pending));
    assert!(!allowed(Phase::Failed, Phase::Reviewing));
    assert!(!allowed(Phase::Failed, Phase::Done));
}

#[test]
fn transition_moves_failed_to_pending() {
    let mut s = State::default();
    s.sync(&vec![Component::new("a", "A", "high")]);
    transition(&mut s, "a", Phase::Reviewing).unwrap();
    transition(&mut s, "a", Phase::Failed).unwrap();
    transition(&mut s, "a", Phase::Pending).unwrap();
    assert_eq!(s.get("a").unwrap().phase, Phase::Pending);
}

#[test]
fn there_are_twelve_legal_moves() {
    let mut n = 0;
    for from in ALL {
        for to in ALL {
            if allowed(from, to) {
                n += 1;
                assert_eq!(from == Phase::Failed, to == Phase::Pending);
                assert!(from != Phase::Done);
            }
        }
        assert_eq!(allowed(from, Phase::Failed), from.is_active());
    }
    assert_eq!(n, 12);
}

#[test]
fn phases_have_words() {
    let words: Vec<&str> = ALL.iter().map(|p| p.as_str()).collect();
    assert_eq!(
        words,
        vec![
            "pending",
            "reviewing",
            "fixing",
            "verifying",
            "committing",
            "done",
            "failed"
        ]
    );
}

#[test]
fn faults_of_the_state_are_named() {
    let mut s = State::default();
    s.sync(&vec![Component::new("a", "A", "high")]);
    assert_eq!(
        transition(&mut s, "x", Phase::Reviewing)
            .unwrap_err()
            .message(),
        "unknown component x"
    );
    assert_eq!(
        transition(&mut s, "a", Phase::Done).unwrap_err().message(),
        "illegal transition a: pending → done"
    );
    assert_eq!(s.get("a").unwrap().phase, Phase::Pending);
    assert!(s.set_detail("x", "d").is_err());
    assert!(s.set_findings("x", 1).is_err());
    assert!(s.set_commit("x", "h").is_err());
    s.set_commit("a", "h").unwrap();
    assert_eq!(s.get("a").unwrap().commit, Some("h".to_string()));
    assert!(s.get("x").is_none());
}

#[test]
fn sync_drops_what_is_not_listed_and_keeps_progress() {
    let mut s = State::default();
    s.sync(&vec![
        Component::new("a", "A", "high"),
        Component::new("b", "B", "low"),
    ]);
    transition(&mut s, "b", Phase::Reviewing).unwrap();
    s.set_findings("b", 4).unwrap();
    s.set_detail("b", "busy").unwrap();
    let mut b = Component::new("b", "Bee", "medium");
    b.paths = vec!["src/b.rs".to_string()];
    b.verify = vec!["go test ./b".to_string()];
    s.sync(&vec![b]);
    assert!(s.get("a").is_none());
    assert_eq!(s.components.len(), 1);
    assert_eq!(s.components.key(0), "b");
    let row = s.components.row(0);
    assert_eq!(row.name, "Bee");
    assert_eq!(row.tier, "medium");
    assert_eq!(row.paths, vec!["src/b.rs"]);
    assert_eq!(row.verify, vec!["go test ./b"]);
    assert_eq!(row.phase, Phase::Reviewing);
    assert_eq!(row.findings, 4);
    assert_eq!(row.detail, "busy");
}

#[test]
fn sync_marks_pending_components_that_are_ticked() {
    let mut s = State::default();
    s.sync(&vec![component(false, &["src/a.rs"])]);
    s.sync(&vec![component(true, &[])]);
    let row = s.get("a").unwrap();
    assert_eq!(row.phase, Phase::Done);
    assert_eq!(row.detail, "marked done in checklist");
    assert_eq!(row.paths, vec!["src/a.rs"]);
    let before = format!("{:?}", s);
    s.sync(&vec![component(true, &[])]);
    assert_eq!(format!("{:?}", s), before);
}

#[test]
fn interrupted_work_is_pending_again() {
    let mut s = State::default();
    s.sync(&vec![
        Component::new("a", "A", "high"),
        Component::new("b", "B", "low"),
    ]);
    transition(&mut s, "a", Phase::Reviewing).unwrap();
    transition(&mut s, "a", Phase::Fixing).unwrap();
    transition(&mut s, "b", Phase::Reviewing).unwrap();
    transition(&mut s, "b", Phase::Failed).unwrap();
    s.reset_active();
    assert_eq!(s.get("a").unwrap().phase, Phase::Pending);
    assert_eq!(s.get("b").unwrap().phase, Phase::Failed);
}

#[test]
fn next_goes_by_tier_then_by_slug() {
    let mut s = State::default();
    s.sync(&vec![
        Component::new("z", "Z", "high"),
        Component::new("m", "M", "high"),
        Component::new("a", "A", "low"),
        Component::new("q", "Q", "unknown"),
    ]);
    let mut order = Vec::new();
    while let Some(row) = s.next() {
        let slug = row.slug.clone();
        transition(&mut s, &slug, Phase::Reviewing).unwrap();
        transition(&mut s, &slug, Phase::Done).unwrap();
        order.push(slug);
    }
    assert_eq!(order, vec!["m", "z", "a", "q"]);
}

#[test]
fn rows_are_kept_in_the_order_of_their_keys() {
    let mut s = State::default();
    s.sync(&vec![
        Component::new("b", "B", "high"),
        Component::new("a-1", "A1", "high"),
        Component::new("a", "A", "high"),
        Component::new("ab", "AB", "high"),
    ]);
    let keys: Vec<&str> = (0..s.components.len()).map(|i| s.components.key(i)).collect();
    assert_eq!(keys, vec!["a", "a-1", "ab", "b"]);
    assert!(s.components.get_mut("zz").is_none());
}

#[test]
fn temporary_files_name_their_owner() {
    let ext = tmp_extension(4711, 3);
    assert_eq!(ext, "json.tmp.4711.3");
    let name = format!("state.{ext}");
    assert_eq!(tmp_owner("state.json", &name), Some(4711));
    assert_eq!(tmp_owner("state.json", "state.json"), None);
    assert_eq!(tmp_owner("state.json", "state.json.tmp.x.1"), None);
    assert_eq!(tmp_owner("state.json", "state.json.tmp.99999999999.1"), None);
}

#[test]
fn backups_do_not_overwrite_one_another() {
    assert_eq!(backup_extension(&vec![]), "json.bad");
    let mut taken = vec!["json.bad".to_string()];
    assert_eq!(backup_extension(&taken), "json.bad.1");
    taken.push("json.bad.1".to_string());
    taken.push("json.bad.3".to_string());
    assert_eq!(backup_extension(&taken), "json.bad.2");
}
