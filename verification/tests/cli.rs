use gaggle::cli::{
    ensure_no_recorded_progress, parse_components, parse_history, parse_requeue, parse_run,
    parse_status,
};

fn list(items: &[&str]) -> Vec<String> {
    items.iter().map(|s| s.to_string()).collect()
}

fn init_fault(items: &[&str]) -> String {
    parse_components(&list(items)).unwrap_err().message()
}

#[test]
fn run_takes_one_flag() {
    assert!(!parse_run(&list(&[])).unwrap());
    assert!(parse_run(&list(&["--review-only"])).unwrap());
    assert_eq!(
        parse_run(&list(&["a", "b"])).unwrap_err().message(),
        "`run` takes no arguments except --review-only (got: a b)"
    );
}

#[test]
fn status_takes_a_tail() {
    assert_eq!(parse_status(&list(&[])).unwrap(), 8);
    assert_eq!(parse_status(&list(&["--tail", "20"])).unwrap(), 20);
    let fault = |items: &[&str]| parse_status(&list(items)).unwrap_err().message();
    assert_eq!(
        fault(&["--tail", "1", "--tail", "2"]),
        "--tail was specified 2 times; provide it at most once"
    );
    assert_eq!(
        fault(&["--tail"]),
        "--tail expects a positive integer, but no value was provided"
    );
    assert_eq!(
        fault(&["--tail", "x"]),
        "--tail expects a positive integer, got `x`"
    );
    assert_eq!(
        fault(&["--tail", "0"]),
        "--tail must be at least 1 (0 would show no activity)"
    );
    assert_eq!(
        fault(&["--tail=20"]),
        "unrecognized status argument: \"--tail=20\" — usage: gaggle status [--tail N]"
    );
}

#[test]
fn history_takes_one_run() {
    assert_eq!(parse_history(&list(&[])).unwrap(), None);
    assert_eq!(
        parse_history(&list(&["r"])).unwrap(),
        Some("r".to_string())
    );
    assert_eq!(
        parse_history(&list(&["a", "b"])).unwrap_err().message(),
        "history takes at most one run-id — usage: gaggle history [run-id]"
    );
}

#[test]
fn requeue_takes_slugs_or_all() {
    assert_eq!(
        parse_requeue(&list(&["a", "b"])).unwrap(),
        (list(&["a", "b"]), false)
    );
    assert_eq!(parse_requeue(&list(&["--all"])).unwrap(), (list(&[]), true));
    let fault = |items: &[&str]| parse_requeue(&list(items)).unwrap_err().message();
    assert_eq!(
        fault(&["--al"]),
        "unrecognized requeue flag: --al — usage: gaggle requeue <slug>… | --all"
    );
    assert_eq!(
        fault(&["--all", "a"]),
        "--all cannot be combined with explicit slugs"
    );
    assert_eq!(
        fault(&[]),
        "requeue needs one or more slugs, or --all (see `gaggle list` for quarantined components)"
    );
}

#[test]
fn components_are_named() {
    let l = parse_components(&list(&[
        "--components",
        " core | The Core | HIGH , ui|UI",
        "--components",
        "db|Database|",
    ]))
    .unwrap();
    let shown: Vec<(&str, &str, &str)> = l
        .iter()
        .map(|e| (e.slug.as_str(), e.name.as_str(), e.tier.as_str()))
        .collect();
    assert_eq!(
        shown,
        vec![
            ("core", "The Core", "high"),
            ("ui", "UI", "medium"),
            ("db", "Database", "medium")
        ]
    );
    assert!(parse_components(&list(&[])).unwrap().is_empty());
}

#[test]
fn faults_of_named_components() {
    assert_eq!(init_fault(&["--components"]), "--components needs a value");
    assert_eq!(
        init_fault(&["--components", ""]),
        "--components value must not be empty"
    );
    assert_eq!(
        init_fault(&["--components", "--x"]),
        "--components needs a value, but got flag `--x`"
    );
    assert_eq!(
        init_fault(&["--components", "core"]),
        "--components needs a value like `slug|Name|tier`, but got `core` (missing `|` separator)"
    );
    assert_eq!(
        init_fault(&["--components", "a|A,,b|B"]),
        "--components contains an empty entry (check for stray commas)"
    );
    assert_eq!(
        init_fault(&["--components", "a|b|c|d"]),
        "bad component entry: a|b|c|d (want slug|Name|tier)"
    );
    assert_eq!(
        init_fault(&["--components", "|A"]),
        "component slug must not be empty (entry: `|A`)"
    );
    assert_eq!(
        init_fault(&["--components", "../x|A"]),
        "invalid slug \"../x\" in entry `../x|A` — lowercase a-z0-9 hyphen-joined segments (e.g. `loop-engine`)"
    );
    assert_eq!(
        init_fault(&["--components", "a| "]),
        "component name must not be empty (entry: `a|`)"
    );
    assert_eq!(
        init_fault(&["--components", "a|A|urgent"]),
        "unknown tier \"urgent\" in entry `a|A|urgent` — valid tiers: high/medium/low (case-insensitive)"
    );
    assert_eq!(
        init_fault(&["--components", "a|A,a|B"]),
        "duplicate component slug `a` — each --components entry must be unique"
    );
    assert_eq!(init_fault(&["--force"]), "unknown init flag: --force");
}

#[test]
fn recorded_progress_is_seen() {
    let pending = "{\"components\": {\"a\": {\"phase\": \"pending\"}, \"b\": {}}}";
    assert_eq!(ensure_no_recorded_progress(pending), Ok(false));
    let done = "{\"components\": {\"a\": {\"phase\": \"pending\"}, \"b\": {\"phase\": \"done\"}}}";
    assert_eq!(ensure_no_recorded_progress(done), Ok(true));
    assert_eq!(ensure_no_recorded_progress("{}"), Ok(false));
    assert_eq!(ensure_no_recorded_progress("{\"components\": []}"), Ok(false));
    assert!(ensure_no_recorded_progress("{").is_err());
}
