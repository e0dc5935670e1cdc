use gaggle::checklist::{
    classify, load, orphans, parse, render, save, tier_rank, tiers, ChecklistError, Component, Line, Tier,
};

fn list(items: &[&str]) -> Vec<String> {
    items.iter().map(|s| s.to_string()).collect()
}

fn component(slug: &str, paths: &[&str], verify: &[&str]) -> Component {
    let mut c = Component::new(slug, "Name", "high");
    c.paths = list(paths);
    c.verify = list(verify);
    c
}

#[test]
fn parse_paths_and_done_roundtrip() {
    let md = "# Checklist\n\n## high\n- [x] foo — Foo\n  paths: src/foo.rs, src/foo/\n";
    let c = parse(md).unwrap();
    assert_eq!(c.len(), 1);
    assert_eq!(c[0].slug, "foo");
    assert!(c[0].done);
    assert_eq!(c[0].paths, vec!["src/foo.rs", "src/foo/"]);
    let out = render(&c).unwrap();
    let again = parse(&out).unwrap();
    assert_eq!(again[0].paths, c[0].paths);
    assert!(again[0].done);
    assert_eq!(again[0].name, "Foo");
}

#[test]
fn unchecked_has_no_paths() {
    let md = "# Checklist\n\n## medium\n- [ ] bar — Bar\n";
    let c = parse(md).unwrap();
    assert!(!c[0].done);
    assert!(c[0].paths.is_empty());
    assert!(c[0].verify.is_empty());
}

#[test]
fn parse_verify_lines_roundtrip() {
    let md = "# Checklist\n\n## high\n- [ ] db — Database\n  paths: crates/db\n  verify: go test ./db\n  verify: go vet ./db\n";
    let c = parse(md).unwrap();
    assert_eq!(c[0].verify, vec!["go test ./db", "go vet ./db"]);
    let out = render(&c).unwrap();
    let again = parse(&out).unwrap();
    assert_eq!(again[0].verify, c[0].verify);
}

#[test]
fn orphan_paths_line_is_ignored_after_heading() {
    let md = "# Checklist\n\n## high\n- [ ] foo — Foo\n\n## medium\npaths: src/evil.rs\n- [ ] bar — Bar\n";
    let items = parse(md).unwrap();
    assert_eq!(items.len(), 2);
    assert!(
        items[0].paths.is_empty(),
        "paths: must not bind across a heading"
    );
    assert_eq!(items[0].tier, "high");
    assert_eq!(items[1].tier, "medium");
}

#[test]
fn load_bails_on_content_with_zero_components() {
    assert!(load(Some("* [ ] task-syntax file\n")).is_err());
}

#[test]
fn render_rejects_slug_containing_separator() {
    let comps = vec![Component::new("a — b", "Name", "high")];
    assert!(render(&comps).is_err());
}

#[test]
fn render_rejects_newline_in_tier() {
    let mut c = Component::new("ok", "Name", "high");
    c.tier = "high\n## low".to_string();
    assert!(render(&vec![c]).is_err());
}

#[test]
fn skipped_checkbox_breaks_paths_binding() {
    let md = "# Checklist\n\n## high\n- [ ] foo — Foo\n- [n] bar — Bar\n  paths: src/bar.rs\n";
    let items = parse(md).unwrap();
    assert_eq!(items.len(), 1);
    assert!(items[0].paths.is_empty());
}

#[test]
fn prose_breaks_paths_binding() {
    let md = "# Checklist\n\n## high\n- [ ] foo — Foo\nSome prose line\n  paths: src/x.rs\n";
    let items = parse(md).unwrap();
    assert_eq!(items.len(), 1);
    assert!(items[0].paths.is_empty());
}

#[test]
fn blank_lines_preserve_paths_binding() {
    let md = "# Checklist\n\n## high\n- [ ] foo — Foo\n\n  paths: src/foo.rs\n";
    let items = parse(md).unwrap();
    assert_eq!(items.len(), 1);
    assert_eq!(items[0].paths, vec!["src/foo.rs"]);
}

#[test]
fn render_rejects_empty_tier() {
    let mut c = Component::new("ok", "Name", "high");
    c.tier = "   ".to_string();
    assert!(render(&vec![c]).is_err());
}

#[test]
fn parse_rejects_path_traversal_slug() {
    let md = "# Checklist\n\n## high\n- [ ] ../evil — Evil\n";
    let err = parse(md).unwrap_err().message(".review/checklist.md");
    assert!(err.contains("invalid checklist slug"), "{err}");
    let md = "# Checklist\n\n## high\n- [ ] foo/bar — Nested\n";
    assert!(parse(md).is_err());
}

#[test]
fn invalid_slug_is_quoted_in_the_message() {
    let err = parse("- [ ] ../ev\til — Evil\n")
        .unwrap_err()
        .message("x.md");
    assert_eq!(
        err,
        "invalid checklist slug \"../ev\\til\" — lowercase a-z0-9 hyphen-joined segments (e.g. `loop-engine`)"
    );
}

#[test]
fn component_takes_the_tier_in_lower_case() {
    let c = Component::new("a", "A", "HIGH");
    assert_eq!(c.tier, "high");
    let c = Component::new("a", "A", "ÄRGER");
    assert_eq!(c.tier, "ärger");
    assert!(!c.done);
}

#[test]
fn tiers_have_words_ranks_and_priorities() {
    assert_eq!(tiers(), list(&["high", "medium", "low"]));
    assert_eq!(Tier::parse("HIGH").as_str(), "high");
    assert_eq!(Tier::parse("  low ").as_str(), "low");
    assert_eq!(Tier::parse("whatever").as_str(), "medium");
    assert_eq!(Tier::High.rank(), 0);
    assert_eq!(Tier::Low.rank(), 2);
    assert!(Tier::High.is_stronger_than(Tier::Medium));
    assert!(!Tier::Medium.is_stronger_than(Tier::Medium));
    assert_eq!(Tier::High.default_priority(), 100);
    assert_eq!(Tier::Medium.default_priority(), 50);
    assert_eq!(Tier::Low.default_priority(), 10);
    assert_eq!(tier_rank("high"), 0);
    assert_eq!(tier_rank("medium"), 1);
    assert_eq!(tier_rank("low"), 2);
    assert_eq!(tier_rank("High"), 3);
}

#[test]
fn lines_are_classified() {
    assert!(matches!(classify("   "), Line::Blank));
    assert!(matches!(classify("prose"), Line::Other));
    match classify("## Low ") {
        Line::Heading { tier } => assert_eq!(tier, "low"),
        _ => panic!("no heading"),
    }
    match classify("- [X] foo - The Foo") {
        Line::Item { done, slug, name } => {
            assert!(done);
            assert_eq!(slug, "foo");
            assert_eq!(name, "The Foo");
        }
        _ => panic!("no item"),
    }
    match classify("  paths: a.rs, , b.rs") {
        Line::Paths { list } => assert_eq!(list, vec!["a.rs", "b.rs"]),
        _ => panic!("no paths"),
    }
    match classify("  verify: go test ./...") {
        Line::Verify { command } => assert_eq!(command, "go test ./..."),
        _ => panic!("no command"),
    }
}

#[test]
fn rendered_text_is_exact() {
    let mut a = component("a", &["src/a.rs", "src/a/"], &["go test ./a"]);
    a.done = true;
    let mut b = Component::new("b", "Bee", "low");
    b.tier = "experimental".to_string();
    let c = Component::new("c", "Sea", "medium");
    let d = Component::new("d", "Dee", "high");
    let text = render(&vec![a, b, c, d]).unwrap();
    assert_eq!(
        text,
        "# Checklist\n\n## high\n- [x] a — Name\n  paths: src/a.rs, src/a/\n  verify: go test ./a\n- [ ] d — Dee\n\n## medium\n- [ ] c — Sea\n\n## experimental\n- [ ] b — Bee\n"
    );
    let again = parse(&text).unwrap();
    assert_eq!(again.len(), 4);
    assert_eq!(again[3].tier, "experimental");
    assert_eq!(render(&again).unwrap(), text);
}

#[test]
fn every_fault_of_a_component_is_named() {
    let at = "x.md";
    assert_eq!(
        render(&vec![]).unwrap_err().message(at),
        "cannot render an empty checklist — would produce a header-only file"
    );
    assert_eq!(
        save(&vec![]).unwrap_err().message(at),
        "cannot save an empty checklist — refusing to persist a no-op file"
    );
    let mut c = Component::new("ok", "A\nB", "high");
    assert!(matches!(
        render(&vec![c]).unwrap_err(),
        ChecklistError::LineBreak { .. }
    ));
    c = Component::new("ok", "Name", "high");
    c.tier = " ".to_string();
    assert_eq!(
        render(&vec![c]).unwrap_err().message(at),
        "component `ok` has an empty tier — cannot round-trip through a `## ` heading"
    );
    assert_eq!(
        render(&vec![component("ok", &["a\nb"], &[])])
            .unwrap_err()
            .message(at),
        "component `ok` has a path with a newline: \"a\\nb\""
    );
    assert_eq!(
        render(&vec![component("ok", &["a,b"], &[])])
            .unwrap_err()
            .message(at),
        "component `ok` has a path containing a comma: \"a,b\" — paths are comma-separated in the checklist format and would not round-trip"
    );
    assert_eq!(
        render(&vec![component("ok", &[], &["a\nb"])])
            .unwrap_err()
            .message(at),
        "component `ok` has a verify command with a newline: \"a\\nb\""
    );
    let odd = component("a - b", &["p"], &["v"]);
    let err = render(&vec![odd]).unwrap_err().message(at);
    assert_eq!(
        err,
        "component slug Component { slug: \"a - b\", name: \"Name\", tier: \"high\", done: false, paths: [\"p\"], verify: [\"v\"] } contains the list separator (— or ' - ') — cannot round-trip"
    );
}

#[test]
fn debug_text_of_a_component_matches_the_derived_one() {
    let odd = component("a — b", &["p\"q", "ü"], &["x\\y"]);
    let shown = format!("{:?}", odd);
    let err = render(&vec![odd]).unwrap_err().message("x.md");
    assert!(err.contains(&shown), "{err}");
}

#[test]
fn loading_tells_missing_empty_and_unusable_apart() {
    assert_eq!(
        load(None).unwrap_err().message(".review/checklist.md"),
        "checklist not found at .review/checklist.md — run `gaggle init` first"
    );
    assert!(load(Some("")).unwrap().is_empty());
    assert!(load(Some("  \n")).unwrap().is_empty());
    let err = load(Some("prose\n")).unwrap_err().message("c.md");
    assert_eq!(
        err,
        "checklist at c.md has content but no parseable components — refusing to treat it as empty (that would wipe recorded component progress)"
    );
    assert_eq!(load(Some("- [ ] a — A\n")).unwrap().len(), 1);
}

#[test]
fn saving_gives_the_rendered_text() {
    let cs = vec![Component::new("a", "A", "low")];
    assert_eq!(save(&cs).unwrap(), render(&cs).unwrap());
}

#[test]
fn a_copy_has_the_same_contents() {
    let mut c = component("a", &["p"], &["v"]);
    c.done = true;
    let d = c.duplicate();
    assert_eq!(format!("{:?}", c), format!("{:?}", d));
}

#[test]
fn lines_without_an_item_are_named() {
    let md = "paths: a.rs\n## high\n  verify: make\n- [ ] a — A\n\n  paths: b.rs\n- [n] note\n  paths: c.rs\n";
    assert_eq!(
        orphans(md),
        vec![
            "orphan `paths:` line ignored: paths: a.rs",
            "orphan `verify:` line ignored: verify: make",
            "orphan `paths:` line ignored: paths: c.rs",
        ]
    );
    assert_eq!(parse(md).unwrap()[0].paths, vec!["b.rs"]);
    // Nothing is said of what stands behind an item that ends the reading.
    assert_eq!(
        orphans("paths: a\n- [ ] Bad\npaths: b\n"),
        vec!["orphan `paths:` line ignored: paths: a"]
    );
    assert!(orphans("## low\n- [ ] a\n  verify:\n").is_empty());
}
