use gaggle::cli::has_progress;
use gaggle::commit::read_switch;
use gaggle::goose::pin_in_document;
use gaggle::verify::{
    list_in_document, misplaced_in_document, seconds_in_document, Seconds,
};

fn toml(text: &str) -> toml::Value {
    text.parse().unwrap()
}

fn json(text: &str) -> serde_json::Value {
    serde_json::from_str(text).unwrap()
}

#[test]
fn any_phase_but_pending_is_progress() {
    assert!(!has_progress(&json("{}")));
    assert!(!has_progress(&json("{\"components\": []}")));
    assert!(!has_progress(&json(
        "{\"components\": {\"a\": {\"phase\": \"pending\"}, \"b\": {\"phase\": 3}}}"
    )));
    assert!(has_progress(&json(
        "{\"components\": {\"a\": {\"phase\": \"pending\"}, \"b\": {\"phase\": \"done\"}}}"
    )));
}

#[test]
fn command_lists_are_trimmed_and_sound() {
    let doc = toml("verify = [\"  make test \", \"make lint\"]\nfinal_verify = []\nodd = [\"x\", 1]\n");
    assert_eq!(
        list_in_document(&doc, "verify", true).unwrap(),
        vec!["make test", "make lint"]
    );
    assert!(list_in_document(&doc, "final_verify", false).unwrap().is_empty());
    assert!(list_in_document(&doc, "absent", false).unwrap().is_empty());
    let words = |key: &str, required: bool| {
        list_in_document(&doc, key, required)
            .unwrap_err()
            .message("c.toml")
    };
    assert_eq!(
        words("odd", true),
        "`odd[1]` must be a string in c.toml, but found `integer` (see config.toml.example)"
    );
    assert!(words("absent", true).contains("key missing from c.toml"));
    assert!(words("final_verify", true).contains("is empty in c.toml"));
}

#[test]
fn a_key_below_a_section_is_misplaced() {
    let doc = toml("verify = [\"a\"]\n[commit]\nsign = true\nverify_stall_secs = 5\n");
    assert_eq!(misplaced_in_document(&doc, "verify_stall_secs"), vec!["commit"]);
    assert!(misplaced_in_document(&doc, "verify_timeout_secs").is_empty());
}

#[test]
fn seconds_are_integers_from_the_least_on() {
    let doc = toml("a = 5\nb = 0\nc = -1\nd = \"5\"\n");
    assert!(matches!(seconds_in_document(&doc, "a", 1), Seconds::Given(5)));
    assert!(matches!(seconds_in_document(&doc, "b", 0), Seconds::Given(0)));
    assert!(matches!(seconds_in_document(&doc, "b", 1), Seconds::TooSmall));
    assert!(matches!(seconds_in_document(&doc, "c", 0), Seconds::TooSmall));
    assert!(matches!(seconds_in_document(&doc, "e", 0), Seconds::Unset));
    match seconds_in_document(&doc, "d", 0) {
        Seconds::NotInteger { found } => assert_eq!(found, "string"),
        other => panic!("{other:?}"),
    }
}

#[test]
fn switches_are_off_unless_set() {
    let doc = toml("[commit]\nsign = true\n[branch]\ndedicated = \"yes\"\n");
    assert_eq!(read_switch(&doc, "commit", "sign"), Ok(true));
    assert_eq!(read_switch(&doc, "commit", "other"), Ok(false));
    assert_eq!(read_switch(&doc, "model", "sign"), Ok(false));
    assert_eq!(read_switch(&doc, "branch", "dedicated"), Err("string".to_string()));
}

#[test]
fn a_phase_takes_from_the_base_what_it_does_not_set() {
    let doc = toml("[model]\nprovider = \"p\"\nmodel = \"m\"\n[model.fix]\nmodel = \"f\"\n");
    let fix = pin_in_document(&doc, "fix").unwrap();
    assert_eq!(fix.provider.as_deref(), Some("p"));
    assert_eq!(fix.model.as_deref(), Some("f"));
    let review = pin_in_document(&doc, "review").unwrap();
    assert_eq!(review.model.as_deref(), Some("m"));
    let stray = toml("[model.fx]\nmodel = \"x\"\n[model.aa]\nmodel = \"y\"\n");
    assert!(pin_in_document(&stray, "fix")
        .unwrap_err()
        .message("c.toml")
        .starts_with("`[model.aa]` in c.toml is not a known phase"));
}
