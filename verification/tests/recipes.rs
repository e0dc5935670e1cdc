use gaggle::recipes::{
    apply_discovered_gates, default_config_for, ensure_gitignore, gitignore_has_review_rules,
    list_overrides, names, path, replace_array_key, Source, GITIGNORE_MARK,
};

fn list(items: &[&str]) -> Vec<String> {
    items.iter().map(|s| s.to_string()).collect()
}

#[test]
fn every_recipe_is_known() {
    assert_eq!(names().len(), 8);
    for name in names() {
        assert!(matches!(path(&name, false), Ok(Source::Embedded)), "{name}");
    }
}

#[test]
fn unknown_recipe_errors() {
    assert!(path("nope.yaml", false).is_err());
    assert_eq!(
        path("nope.yaml", false).unwrap_err(),
        "unknown embedded recipe: nope.yaml"
    );
}

#[test]
fn repo_override_wins() {
    assert!(matches!(path("review.yaml", true), Ok(Source::Override)));
    assert_eq!(list_overrides(&list(&["review.yaml"])), vec!["review.yaml"]);
}

#[test]
fn unknown_name_does_not_read_override() {
    assert!(path("nope.yaml", true).is_err());
    assert!(list_overrides(&list(&["nope.yaml"])).is_empty());
}

#[test]
fn overrides_come_in_the_order_of_the_recipes() {
    assert_eq!(
        list_overrides(&list(&["report.yaml", "x", "fix.yaml", "review.yaml"])),
        vec!["review.yaml", "fix.yaml", "report.yaml"]
    );
}

#[test]
fn apply_discovered_gates_writes_both_keys() {
    let cfg = apply_discovered_gates(
        "verify = [\"false\"]\n# final_verify = [\"./slow.sh\"]\n",
        &list(&["./scripts/ci.sh"]),
        &list(&[]),
    )
    .unwrap();
    assert!(
        cfg.lines()
            .any(|l| l == "verify = [\"./scripts/ci.sh\"]"),
        "{cfg}"
    );
    assert!(
        cfg.lines()
            .any(|l| l == "final_verify = [\"./scripts/ci.sh\"]"),
        "{cfg}"
    );
}

#[test]
fn gates_replace_the_first_line_and_keep_its_end() {
    let text = "# a\r\n  verify = [\"x\"]\r\nverify = [\"y\"]\r\n";
    let out = replace_array_key(text, "verify", &list(&["say \"hi\"", "a\\b"]));
    assert_eq!(
        out,
        "# a\r\nverify = [\"say \\\"hi\\\"\", \"a\\\\b\"]\r\nverify = [\"y\"]\r\n"
    );
    assert_eq!(
        replace_array_key("a = 1", "verify", &list(&["t"])),
        "a = 1\nverify = [\"t\"]\n"
    );
    assert_eq!(
        replace_array_key("", "verify", &list(&[])),
        "verify = []\n"
    );
    assert_eq!(
        replace_array_key("verify = [", "verify", &list(&["t"])),
        "verify = [\"t\"]"
    );
}

#[test]
fn a_list_written_twice_stands_once() {
    let cmds = list(&["say \"hi\"", "a\\b"]);
    for text in [
        "",
        "a = 1",
        "a = 1\n",
        "# verify = [\"x\"]\r\nverify = [\"y\"]\r\n",
        "verify = [",
    ] {
        let once = replace_array_key(text, "verify", &cmds);
        assert_ne!(once, text);
        assert_eq!(replace_array_key(&once, "verify", &cmds), once);
    }
}

#[test]
fn gates_written_twice_stand_once() {
    let first = list(&["make test"]);
    for full in [list(&[]), list(&["make e2e", "make lint"])] {
        for text in ["", "verify = [", "final_verify = [\"x\"]", "a = 1\r\n"] {
            let once = apply_discovered_gates(text, &first, &full).unwrap();
            assert_ne!(once, text);
            assert_eq!(apply_discovered_gates(&once, &first, &full).unwrap(), once);
        }
    }
}

#[test]
fn gates_that_were_not_named_change_nothing() {
    assert_eq!(
        apply_discovered_gates("x", &list(&[]), &list(&["slow"])),
        None
    );
    let out = apply_discovered_gates("", &list(&["a"]), &list(&["b"])).unwrap();
    assert_eq!(out, "verify = [\"a\"]\nfinal_verify = [\"b\"]\n");
}

#[test]
fn gitignore_appends_once() {
    let text = ensure_gitignore("/target\n").unwrap();
    assert!(ensure_gitignore(&text).is_none());
    assert_eq!(text.matches(GITIGNORE_MARK).count(), 1);
    assert!(text.contains(".review/"));
    assert!(!text.contains("!.review/checklist.md"));
    assert_eq!(
        text,
        "/target\n\n# gaggle: ignore the review directory\n.review/\n"
    );
    assert_eq!(
        ensure_gitignore("").unwrap(),
        "# gaggle: ignore the review directory\n.review/\n"
    );
    assert_eq!(
        ensure_gitignore("/target").unwrap(),
        "/target\n\n# gaggle: ignore the review directory\n.review/\n"
    );
}

#[test]
fn any_review_ignore_counts_as_covered() {
    assert!(gitignore_has_review_rules(".review/\n/target\n"));
    assert!(gitignore_has_review_rules(".review\n"));
    assert!(gitignore_has_review_rules(".review/*\n/target\n"));
    assert!(gitignore_has_review_rules(
        ".review/*\n!.review/config.toml\n"
    ));
    assert!(gitignore_has_review_rules(
        "# gaggle: ignore the review directory\n.review/\n"
    ));
    assert!(gitignore_has_review_rules(
        "# gaggle: keep durable config; ignore run state\n.review/*\n"
    ));
    assert!(!gitignore_has_review_rules("/target\n"));
}

#[test]
fn default_config_is_language_neutral() {
    let cfg = default_config_for();
    assert!(
        cfg.lines().any(|l| l == "verify = [\"false\"]"),
        "verify line wrong:\n{cfg}"
    );
    assert!(
        cfg.contains("# final_verify = [\"./scripts/e2e.sh\"]"),
        "final_verify example corrupted:\n{cfg}"
    );
    assert!(
        cfg.lines().any(|l| l == "# verify_stall_secs = 900"),
        "verify_stall_secs example missing:\n{cfg}"
    );
    assert!(
        cfg.lines().any(|l| l == "# verify_timeout_secs = 14400"),
        "verify_timeout_secs example missing:\n{cfg}"
    );
}
