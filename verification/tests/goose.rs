use gaggle::goose::{
    effective_model, extract_from_envelope, extract_last_envelope, failed, field,
    goose_run_timeout, match_brace, model_pin, model_pin_for, no_answer, overdue,
    phase_from_recipe, read_attempt, recipe_args, run_env, run_recipe, scan_trailing_json,
    unsafe_param, Attempt, ModelPin, Usage,
};

const CFG: &str = ".review/config.toml";

fn pair(k: &str, v: &str) -> (String, String) {
    (k.to_string(), v.to_string())
}

#[test]
fn model_pin_missing_file_is_empty() {
    let pin = model_pin(None).unwrap();
    assert_eq!(pin.provider, None);
    assert_eq!(pin.model, None);
    let base = ModelPin::default();
    assert_eq!((base.provider, base.model), (pin.provider, pin.model));
}

#[test]
fn model_pin_reads_keys_and_ignores_empty() {
    let pin = model_pin(Some(
        "verify = [\"cargo test\"]\nprovider = \"custom_z.ai\"\nmodel = \"glm-5.3\"\n",
    ))
    .unwrap();
    assert_eq!(pin.provider.as_deref(), Some("custom_z.ai"));
    assert_eq!(pin.model.as_deref(), Some("glm-5.3"));
    let pin = model_pin(Some("provider = \"  \"\nmodel = \"glm-5.3\"\n")).unwrap();
    assert_eq!(pin.provider, None);
    assert_eq!(pin.model.as_deref(), Some("glm-5.3"));
}

#[test]
fn model_pin_accepts_model_section_and_bottom_placement() {
    let pin = model_pin(Some(
        "verify = [\"cargo test\"]\n[commit]\nsign = false\n\n[model]\nprovider = \"openai\"\nmodel = \"gpt-5.6\"\n",
    ))
    .unwrap();
    assert_eq!(pin.provider.as_deref(), Some("openai"));
    assert_eq!(pin.model.as_deref(), Some("gpt-5.6"));
    let pin = model_pin(Some("model = \"glm-5.3\"\n[commit]\nsign = false\n")).unwrap();
    assert_eq!(pin.model.as_deref(), Some("glm-5.3"));
}

#[test]
fn model_pin_malformed_config_errors() {
    assert!(model_pin(Some("not toml [[[")).is_err());
}

#[test]
fn model_pin_wrong_typed_key_errors_not_silently_unsets() {
    let err = model_pin(Some("provider = 123\n")).unwrap_err().message(CFG);
    assert!(err.contains("must be a string"), "{err}");
    assert!(model_pin(Some("[model]\nmodel = 42\n")).is_err());
}

#[test]
fn match_brace_handles_escaped_strings() {
    let s = r#"{"a":"x\\y","b":"{z}","c":[1,2]}"#;
    assert_eq!(match_brace(s), Some(s.len() - 1));
}

#[test]
fn match_brace_consecutive_backslashes() {
    let s = r#"{"v":"a\\\""}"#;
    assert_eq!(match_brace(s), Some(s.len() - 1));
}

#[test]
fn match_brace_nested() {
    let s = r#"{"m":[{"t":"text","x":1}]}"#;
    assert_eq!(match_brace(s), Some(s.len() - 1));
}

#[test]
fn match_brace_finds_the_first_object_only() {
    assert_eq!(match_brace("{} {}"), Some(1));
    assert_eq!(match_brace("{\"é\":{}}x"), Some(8));
    assert_eq!(match_brace("{é}"), Some(3));
    assert_eq!(match_brace("{\"a\": 1"), None);
    assert_eq!(match_brace(""), None);
}

const ENVELOPE: &str = r#"{
  "messages": [
    {"role": "assistant", "content": [{"type": "text", "text": "done {\"outcome\":\"fixed\"}"}]}
  ],
  "metadata": {
    "total_tokens": 462451,
    "input_tokens": 426940,
    "output_tokens": 35511,
    "cache_read_input_tokens": 412672,
    "cache_write_input_tokens": 0,
    "cost_usd": 0.0130960816,
    "status": "completed"
  }
}"#;

#[test]
fn usage_parsed_from_envelope_metadata() {
    let env = extract_last_envelope(ENVELOPE).expect("envelope");
    let usage = Usage::from_metadata(env.get("metadata").unwrap());
    assert_eq!(usage.total_tokens, Some(462451));
    assert_eq!(usage.input_tokens, Some(426940));
    assert_eq!(usage.output_tokens, Some(35511));
    assert_eq!(usage.cache_read_input_tokens, Some(412672));
    assert_eq!(usage.cache_write_input_tokens, Some(0));
    assert!(!usage.is_empty());
}

#[test]
fn usage_absent_metadata_is_empty() {
    let no_meta = r#"{"messages": [{"role":"assistant","content":[{"type":"text","text":"{\"a\":1}"}]}]}"#;
    let env = extract_last_envelope(no_meta).expect("envelope");
    let usage = env
        .get("metadata")
        .map(Usage::from_metadata)
        .unwrap_or_default();
    assert!(usage.is_empty());
    assert_eq!(usage.summary(None), "(usage not reported)");
}

#[test]
fn usage_add_preserves_absent_fields() {
    let mut a = Usage::default();
    a.input_tokens = Some(10);
    let mut b = Usage::default();
    b.input_tokens = Some(5);
    b.output_tokens = Some(7);
    assert!(a.can_grow(&b));
    a.add(&b);
    assert_eq!(a.input_tokens, Some(15));
    assert_eq!(a.output_tokens, Some(7));
    assert_eq!(a.total_tokens, None);
    let mut c = Usage::default();
    c.input_tokens = Some(u64::MAX);
    assert!(!a.can_grow(&c));
}

#[test]
fn summary_formats_cost_and_tokens() {
    let mut u = Usage::default();
    u.input_tokens = Some(1000);
    u.output_tokens = Some(200);
    let s = u.summary(Some("$0.0131"));
    assert!(s.contains("$0.0131"), "{s}");
    assert!(s.contains("1000 in"), "{s}");
    assert!(s.contains("200 out"), "{s}");
    assert_eq!(s, "$0.0131 / 1000 in / 200 out");
    u.cache_read_input_tokens = Some(3);
    assert_eq!(u.summary(None), "1000 in / 200 out / 3 cache-read");
}

#[test]
fn last_envelope_wins_over_earlier_one() {
    let two =
        format!("{{\"messages\":[],\"metadata\":{{\"total_tokens\":1}}}}\nbanner\n{ENVELOPE}");
    let env = extract_last_envelope(&two).expect("envelope");
    assert_eq!(
        env.get("metadata")
            .and_then(|m| m.get("total_tokens"))
            .and_then(|t| t.as_u64()),
        Some(462451)
    );
}

#[test]
fn phase_override_wins_and_inherits_per_key() {
    let cfg = Some(
        "[model]\nprovider = \"custom_z.ai\"\nmodel = \"glm-5.3\"\n\n[model.fix]\nmodel = \"deepseek-v4-flash\"\n",
    );
    let base = model_pin(cfg).unwrap();
    assert_eq!(base.provider.as_deref(), Some("custom_z.ai"));
    assert_eq!(base.model.as_deref(), Some("glm-5.3"));
    let fix = model_pin_for(cfg, "fix").unwrap();
    assert_eq!(fix.provider.as_deref(), Some("custom_z.ai"));
    assert_eq!(fix.model.as_deref(), Some("deepseek-v4-flash"));
    let review = model_pin_for(cfg, "review").unwrap();
    assert_eq!(review.model.as_deref(), Some("glm-5.3"));
}

#[test]
fn unknown_phase_section_is_rejected() {
    let cfg = Some("[model]\nmodel = \"glm-5.3\"\n\n[model.fx]\nmodel = \"x\"\n");
    let err = model_pin_for(cfg, "fix").unwrap_err().message(CFG);
    assert!(err.contains("[model.fx]"), "{err}");
    assert!(err.contains("not a known phase"), "{err}");
}

#[test]
fn bare_top_level_key_with_phase_section_gets_targeted_error() {
    let cfg = Some("model = \"glm-5.3\"\n\n[model.fix]\nmodel = \"x\"\n");
    let err = model_pin_for(cfg, "fix").unwrap_err().message(CFG);
    assert!(err.contains("Move the base keys INSIDE"), "{err}");
}

#[test]
fn phase_from_recipe_maps_known_stems_only() {
    assert_eq!(phase_from_recipe("/tmp/x/review.yaml"), "review");
    assert_eq!(phase_from_recipe("/tmp/x/fix.yaml"), "fix");
    assert_eq!(phase_from_recipe("/tmp/x/custom-thing.yaml"), "");
    assert_eq!(phase_from_recipe("fix.yaml/"), "fix");
    assert_eq!(phase_from_recipe(".."), "");
    assert_eq!(phase_from_recipe(""), "");
}

#[test]
fn effective_model_lists_overrides() {
    let cfg = Some(
        "[model]\nprovider = \"custom_z.ai\"\nmodel = \"glm-5.3\"\n\n[model.fix]\nmodel = \"deepseek-v4-flash\"\n",
    );
    let s = effective_model(cfg, CFG);
    assert!(s.contains("custom_z.ai / glm-5.3"), "{s}");
    assert!(s.contains("fix: custom_z.ai / deepseek-v4-flash"), "{s}");
    assert_eq!(
        s,
        "custom_z.ai / glm-5.3 — from .review/config.toml [fix: custom_z.ai / deepseek-v4-flash]"
    );
    assert_eq!(
        effective_model(None, CFG),
        "(goose default) / (goose default)"
    );
    let s = effective_model(Some("provider = 1\n"), CFG);
    assert!(s.starts_with("unusable .review/config.toml: "), "{s}");
}

#[test]
fn fields_are_read() {
    let v: serde_json::Value = serde_json::from_str("{\"a\": \"b\", \"n\": 1}").unwrap();
    assert_eq!(field(&v, "a"), Some("b"));
    assert_eq!(field(&v, "n"), None);
    assert_eq!(field(&v, "x"), None);
}

const ANSWER: &str = r#"banner {
{"messages": [{"role": "assistant", "content": [{"type": "text", "text": "done\n{\"outcome\":\"fixed\"}\n"}]}],
 "metadata": {"output_tokens": 7}}
"#;

#[test]
fn answers_are_found() {
    let env = extract_last_envelope(ENVELOPE).unwrap();
    assert!(extract_from_envelope(&env).is_none());
    let env = extract_last_envelope(ANSWER).unwrap();
    let answer = extract_from_envelope(&env).unwrap();
    assert_eq!(field(&answer, "outcome"), Some("fixed"));
    let v = scan_trailing_json(" {\n \"a\": {\"b\": 1},\n \"c\": \"d\"\n} ").unwrap();
    assert_eq!(field(&v, "c"), Some("d"));
    let v = scan_trailing_json("noise\n{\"a\": 1}\n{\"b\": \"last\"}\n").unwrap();
    assert_eq!(field(&v, "b"), Some("last"));
    assert!(scan_trailing_json("nothing here").is_none());
    assert!(extract_last_envelope("{\"x\": 1}").is_none());
}

#[test]
fn the_last_message_of_the_agent_counts() {
    let text = r#"{"messages": [
        {"role": "assistant", "content": [{"type": "text", "text": "{\"a\":\"first\"}"}]},
        {"role": "user", "content": [{"type": "text", "text": "{\"a\":\"user\"}"}]},
        {"role": "assistant", "content": [{"type": "tool", "text": "{\"a\":\"tool\"}"}]}
    ]}"#;
    let env = extract_last_envelope(text).unwrap();
    let answer = extract_from_envelope(&env).unwrap();
    assert_eq!(field(&answer, "a"), Some("first"));
}

#[test]
fn attempts_are_read_and_repeated_once() {
    assert!(matches!(read_attempt(false, ENVELOPE), Attempt::Failed));
    let silent = read_attempt(true, "no answer");
    assert!(matches!(silent, Attempt::Silent));
    assert!(run_recipe(1, &silent));
    assert!(!run_recipe(2, &silent));
    let answered = read_attempt(true, ANSWER);
    assert!(!run_recipe(1, &answered));
    match answered {
        Attempt::Answered { result, usage } => {
            assert_eq!(field(&result, "outcome"), Some("fixed"));
            assert_eq!(usage.output_tokens, Some(7));
        }
        _ => panic!("no answer"),
    }
    match read_attempt(true, "x\n{\"a\": \"b\"}\n") {
        Attempt::Answered { result, usage } => {
            assert_eq!(field(&result, "a"), Some("b"));
            assert!(usage.is_empty());
        }
        _ => panic!("no answer"),
    }
}

#[test]
fn arguments_of_a_recipe() {
    let args = recipe_args(
        "/t/fix.yaml",
        &vec![pair("component", "core"), pair("paths", "a, b")],
        Some(120),
    )
    .unwrap();
    assert_eq!(
        args,
        vec![
            "run",
            "--recipe",
            "/t/fix.yaml",
            "--no-session",
            "--output-format",
            "json",
            "--params",
            "component=core",
            "--params",
            "paths=a, b",
            "--max-turns",
            "120"
        ]
    );
    assert_eq!(recipe_args("r", &vec![], None).unwrap().len(), 6);
    for bad in ["a=b", "a\nb", "a\rb"] {
        let params = vec![pair("ok", "x"), pair("key", bad)];
        assert_eq!(recipe_args("r", &params, None).unwrap_err(), "key");
    }
    let err = unsafe_param("key");
    assert!(err.contains("key"), "{err}");
}

#[test]
fn environment_of_a_recipe() {
    let pin = ModelPin {
        provider: Some("p".to_string()),
        model: Some("m".to_string()),
    };
    assert_eq!(
        run_env(&pin, false, false),
        vec![
            pair("GOOSE_PROVIDER", "p"),
            pair("GOOSE_MODEL", "m"),
            pair("GOOSE_THINKING_EFFORT", "medium"),
            pair("GOOSE_MAX_TOKENS", "65536"),
            pair("GOOSE_MODE", "auto"),
        ]
    );
    assert_eq!(
        run_env(&ModelPin::default(), true, true),
        vec![pair("GOOSE_MODE", "auto")]
    );
}

#[test]
fn limits_of_a_recipe() {
    assert_eq!(goose_run_timeout(None), 3600);
    assert_eq!(goose_run_timeout(Some("90")), 90);
    assert_eq!(goose_run_timeout(Some(" 0 ")), 1);
    assert_eq!(goose_run_timeout(Some("soon")), 3600);
}

#[test]
fn failures_of_a_recipe_are_told() {
    assert_eq!(
        failed("r.yaml", Some(1), "out", "err"),
        "goose recipe r.yaml failed (exit Some(1))\nstdout: out\nstderr: err"
    );
    let long = "é".repeat(3000);
    let text = failed("r.yaml", None, &long, "");
    assert_eq!(text.matches('é').count(), 2000);
    assert_eq!(
        overdue("r.yaml", 3600),
        "goose recipe r.yaml timed out after 3600s (killed)"
    );
    assert_eq!(
        no_answer("r.yaml"),
        "goose produced no parseable JSON in stdout for recipe r.yaml after 2 attempts (the model ended both runs without a text answer)"
    );
}
