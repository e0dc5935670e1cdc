use gaggle::discover::{
    collect_paths, commands_under, missing_message, normalize, normalize_path, normalize_slug,
    path_remarks, paths_of, proposal, remarks, valid_slug, Proposal, RawItem,
};
use serde_json::Value;

fn list(items: &[&str]) -> Vec<String> {
    items.iter().map(|s| s.to_string()).collect()
}

fn json(text: &str) -> Value {
    serde_json::from_str(text).unwrap()
}

fn item(slug: &str, tier: &str, paths: &[&str], priority: u32) -> RawItem {
    RawItem {
        slug: slug.to_string(),
        name: slug.to_uppercase(),
        description: String::new(),
        paths: list(paths),
        path: String::new(),
        tier: tier.to_string(),
        priority,
    }
}

#[test]
fn priority_unparseable_degrades_to_tier_default() {
    let out = normalize(&vec![item("a", "high", &["src/a.rs"], 0)]).unwrap();
    assert_eq!(out[0].priority, 100);
}

#[test]
fn duplicate_merge_raises_priority_floor_with_tier() {
    let items = vec![
        item("a", "low", &["src/a.rs"], 0),
        item("a", "high", &["src/b.rs"], 0),
    ];
    let out = normalize(&items).unwrap();
    assert_eq!(out.len(), 1);
    assert_eq!(out[0].tier, "high");
    assert_eq!(out[0].priority, 100);
    assert!(out[0].paths.contains(&"src/b.rs".to_string()));
}

#[test]
fn duplicate_merge_keeps_explicit_priority_when_tier_unchanged() {
    let items = vec![
        item("a", "low", &["src/a.rs"], 5),
        item("a", "low", &["src/b.rs"], 0),
    ];
    let out = normalize(&items).unwrap();
    assert_eq!(out[0].tier, "low");
    assert_eq!(out[0].priority, 5);
}

#[test]
fn paths_as_single_string_is_accepted() {
    let it = json(
        "{\"slug\": \"a\", \"name\": \"A\", \"tier\": \"high\", \"paths\": \"src/x.rs\"}",
    );
    let mut raw = item("a", "high", &[], 0);
    raw.paths = paths_of(it.get("paths").unwrap());
    let paths = collect_paths(&raw);
    assert_eq!(paths, vec!["src/x.rs"]);
}

#[test]
fn paths_dedupe_after_segment_collapse() {
    let it = item(
        "a",
        "high",
        &[
            "./src//a.rs",
            "src/./a.rs",
            "src/a.rs",
            "/abs/x.rs",
            "C:\\Users\\x",
            "./C:/evil",
            "src/../etc",
            "bad\u{0}name",
        ],
        0,
    );
    let paths = collect_paths(&it);
    assert_eq!(paths, vec!["src/a.rs"]);
}

#[test]
fn paths_of_other_shapes() {
    assert!(paths_of(&json("null")).is_empty());
    assert!(paths_of(&json("7")).is_empty());
    assert!(paths_of(&json("{\"a\": \"b\"}")).is_empty());
    assert_eq!(paths_of(&json("[\"a\", 1, null, \"b\"]")), vec!["a", "b"]);
}

#[test]
fn proposals_come_in_three_shapes() {
    assert!(matches!(
        proposal(&json("{\"components\": []}")),
        Proposal::Wrapped(_)
    ));
    assert!(matches!(proposal(&json("[]")), Proposal::Bare(_)));
    assert!(matches!(
        proposal(&json("{\"slug\": \"a\", \"paths\": []}")),
        Proposal::Single(_)
    ));
    let odd = json("{\"slug\": \"a\"}");
    assert!(matches!(proposal(&odd), Proposal::Missing));
    assert_eq!(
        missing_message(&odd),
        "discovery result missing \"components\" key: {\"slug\":\"a\"}"
    );
}

#[test]
fn slugs_are_checked() {
    assert!(valid_slug("loop-engine"));
    assert!(valid_slug("7z"));
    assert!(valid_slug(&"a".repeat(64)));
    assert!(!valid_slug(&"a".repeat(65)));
    for bad in ["", "-a", "a-", "a--b", "A", "a/b", "../evil", "a b", "ä"] {
        assert!(!valid_slug(bad), "{bad}");
    }
}

#[test]
fn slugs_are_derived() {
    assert_eq!(normalize_slug(" Loop_Engine ", "", &list(&[])), "loop-engine");
    assert_eq!(normalize_slug("a__b  c", "", &list(&[])), "a-b-c");
    assert_eq!(
        normalize_slug("!", "Name", &list(&["src/foo.bar_baz.rs"])),
        "foo-bar-baz"
    );
    assert_eq!(
        normalize_slug("", "The Main Thing", &list(&["src/main.rs"])),
        "the-main-thing"
    );
    assert_eq!(normalize_slug("", "", &list(&["src/main.rs"])), "");
    assert_eq!(normalize_slug("", "", &list(&["src/.hidden"])), "hidden");
    assert_eq!(normalize_slug("ÄB", "x", &list(&[])), "x");
}

#[test]
fn paths_are_collapsed() {
    assert_eq!(normalize_path(" ./src\\a//b/. "), "src/a/b");
    assert_eq!(normalize_path("/"), "");
    let mut it = item("a", "high", &["a,b"], 0);
    it.path = "src/z.rs".to_string();
    assert_eq!(collect_paths(&it), vec!["src/z.rs"]);
}

#[test]
fn components_are_ranked_and_capped() {
    let mut items = Vec::new();
    for i in 0..45 {
        items.push(item(&format!("c{i:02}"), "low", &["src/x.rs"], 0));
    }
    items.push(item("urgent", "medium", &["src/u.rs"], 200));
    items.push(item("zeta", "high", &["src/z.rs"], 0));
    items.push(item("alpha", "high", &["src/a.rs"], 0));
    let out = normalize(&items).unwrap();
    assert_eq!(out.len(), 40);
    let first: Vec<&str> = out.iter().take(4).map(|c| c.slug.as_str()).collect();
    assert_eq!(first, vec!["urgent", "alpha", "zeta", "c00"]);
    assert_eq!(out[0].priority, 200);
    assert_eq!(out[39].slug, "c36");
}

#[test]
fn unusable_items_are_dropped() {
    let mut odd = item("b", "HIGH ", &["src/b.rs"], 0);
    odd.name = "  two\nlines ".to_string();
    odd.description = " d ".to_string();
    let mut nameless = item("c", "?", &["src/c.rs"], 0);
    nameless.name = " ".to_string();
    let items = vec![
        item("!", "high", &[], 0),
        item("nopaths", "high", &["/abs"], 0),
        odd,
        nameless,
    ];
    let out = normalize(&items).unwrap();
    assert_eq!(out.len(), 2);
    assert_eq!(out[0].slug, "b");
    assert_eq!(out[0].name, "two lines");
    assert_eq!(out[0].description, "d");
    assert_eq!(out[0].tier, "high");
    assert_eq!(out[1].name, "c");
    assert_eq!(out[1].tier, "medium");
    assert_eq!(out[1].priority, 50);
}

#[test]
fn a_discovery_without_components_fails() {
    let err = normalize(&vec![item("!", "high", &[], 0)]).unwrap_err();
    assert_eq!(
        err.message(),
        "discovery produced 0 usable component(s); need at least 1"
    );
}

#[test]
fn rejected_and_merged_items_are_named() {
    let items = vec![
        item("!!", "low", &[], 0),
        item("a", "low", &["/abs"], 0),
        item("a", "low", &["src/a.rs"], 0),
        item("a", "low", &["src/b.rs", "src/c.rs"], 0),
        item("b", "low", &["src/d.rs"], 0),
    ];
    let told: Vec<String> = remarks(&items).iter().map(|x| x.message()).collect();
    assert_eq!(
        told,
        vec![
            "rejected item (bad slug \"!!\", name \"!!\")",
            "rejected item a (no usable paths)",
            "merged duplicate slug a (2 paths)",
        ]
    );
    assert_eq!(normalize(&items).unwrap().len(), 2);
}

#[test]
fn odd_paths_are_named() {
    assert_eq!(
        path_remarks(&json("[\"a\", 3, null]")),
        vec![
            "dropping non-string path entry 3",
            "dropping non-string path entry null",
        ]
    );
    assert_eq!(
        path_remarks(&json("{\"a\": 1}")),
        vec!["unparseable paths {\"a\":1} — treating as empty"]
    );
    assert!(path_remarks(&json("null")).is_empty());
    assert!(path_remarks(&json("\"src\"")).is_empty());
}

#[test]
fn commands_are_the_strings_of_a_list() {
    let v = json("{\"verify\": [\"make\", 1, \"make test\"], \"final_verify\": \"x\"}");
    assert_eq!(commands_under(&v, "verify"), vec!["make", "make test"]);
    assert!(commands_under(&v, "final_verify").is_empty());
    assert!(commands_under(&v, "absent").is_empty());
}
