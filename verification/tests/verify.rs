use gaggle::verify::{
    absorb, gate_candidates, gate_files, group_cpu, last_nonempty_line, load_commands,
    load_commands_key, load_final_commands, load_stall_from_config, load_timeout_from_config,
    misplaced, parse_ps_time, parse_seconds, read_seconds, resolve_verify_stall,
    resolve_verify_timeout, run, run_final, run_list, tail_bytes, Look, RunResult, Runner,
    Seconds, ShellOutcome, VerifyKill, Watch, SECOND, VERIFY_OUTPUT_CAP,
};

fn list(items: &[&str]) -> Vec<String> {
    items.iter().map(|s| s.to_string()).collect()
}

fn ended(success: bool, stdout: &str) -> ShellOutcome {
    ShellOutcome {
        success,
        kill: None,
        stdout: stdout.as_bytes().to_vec(),
        stderr: Vec::new(),
        ran_for: SECOND,
    }
}

fn killed(kill: VerifyKill, ran_for: u128) -> ShellOutcome {
    ShellOutcome {
        success: false,
        kill: Some(kill),
        stdout: Vec::new(),
        stderr: Vec::new(),
        ran_for,
    }
}

/// Plays a command that ends after `ends` seconds, with what it has written and
/// used at each second, and looks at it once a second.
fn watch(
    timeout: Option<u64>,
    stall: Option<u64>,
    ends: u64,
    io: fn(u64) -> u64,
    cpu: fn(u64) -> u64,
) -> ShellOutcome {
    let mut w = Watch::start(timeout, stall);
    for second in 0..ends {
        let now = second as u128 * SECOND;
        let mut kill = None;
        match w.look(now, io(second)) {
            Look::Kill(k) => kill = Some(k),
            Look::Sample => w.take_sample(now, Some(cpu(second))),
            Look::Settle => {}
        }
        if kill.is_none() {
            kill = w.settle(now);
        }
        if let Some(k) = kill {
            return killed(k, now);
        }
    }
    ended(true, "")
}

fn finish(mut runner: Runner, outcomes: Vec<ShellOutcome>) -> RunResult {
    for o in outcomes {
        assert!(runner.result().is_none());
        assert!(runner.command().is_some());
        runner.observe(&o);
    }
    assert!(runner.command().is_none());
    runner.into_result().unwrap()
}

#[test]
fn load_commands_rejects_empty() {
    assert!(load_commands(Some("verify = []\n")).is_err());
}

#[test]
fn load_commands_rejects_missing_file() {
    assert!(load_commands(None).is_err());
}

#[test]
fn run_fails_on_nonzero_exit() {
    let runner = run(Some("verify = [\"false\"]\n"), Some(900)).unwrap();
    assert_eq!(runner.command(), Some("false"));
    let result = finish(runner, vec![ended(false, "")]);
    assert!(!result.passed);
    assert!(result.failed_command.is_some());
}

#[test]
fn tail_bytes_does_not_split_utf8() {
    let s = "abcéxyz";
    let t = tail_bytes(s, 4);
    assert!(t.is_char_boundary(0));
    assert!(s.ends_with(t));
    assert_eq!(t, "xyz");
    assert_eq!(tail_bytes(s, 5), "éxyz");
    assert_eq!(tail_bytes(s, 100), s);
    assert_eq!(tail_bytes(s, 0), "");
}

#[test]
fn final_commands_fall_back_to_verify_when_unset() {
    assert_eq!(
        load_final_commands(Some("verify = [\"true\"]\n")).unwrap(),
        vec!["true"]
    );
}

#[test]
fn final_commands_override_when_set() {
    assert_eq!(
        load_final_commands(Some(
            "verify = [\"true\"]\nfinal_verify = [\"cargo test --workspace\"]\n"
        ))
        .unwrap(),
        vec!["cargo test --workspace"]
    );
}

#[test]
fn gate_files_extracts_existing_repo_paths_from_commands() {
    let cfg = Some(
        "verify = [\"cargo build\", \"./scripts/ci.sh\"]\nfinal_verify = [\"scripts/ci.sh && cargo test --workspace\"]\n",
    );
    let gates = gate_files(cfg, "/repo", &list(&["scripts/ci.sh"]));
    assert_eq!(
        gates,
        vec!["scripts/ci.sh"],
        "bare commands and flags excluded, real paths deduped"
    );
}

#[test]
fn gate_files_empty_when_commands_reference_no_files() {
    let cfg = Some("verify = [\"cargo test\", \"go test ./...\"]\n");
    assert!(gate_candidates(cfg, "/repo").is_empty());
    assert!(gate_files(cfg, "/repo", &list(&[])).is_empty());
}

#[test]
fn gate_candidates_are_cut_out_of_commands() {
    let cfg = Some(
        "verify = [\"sh 'a/b.sh'&&(c/d.sh); x|./e/f.sh>g/h\", \"make --file=m/n /abs/x ../up/y\"]\n",
    );
    let found = gate_candidates(cfg, "/repo");
    for p in ["a/b.sh", "c/d.sh", "e/f.sh", "g/h"] {
        assert!(found.contains(&p.to_string()), "{p} in {found:?}");
    }
    assert_eq!(
        gate_files(cfg, "/repo", &list(&["e/f.sh", "other"])),
        vec!["e/f.sh"]
    );
    assert!(gate_candidates(None, "/repo").is_empty());
}

#[test]
fn resolve_unset_means_no_timeout() {
    assert_eq!(resolve_verify_timeout(None, None), None);
    assert_eq!(resolve_verify_timeout(None, Some(120)), Some(120));
    assert_eq!(resolve_verify_timeout(Some("30"), Some(120)), Some(30));
    assert_eq!(resolve_verify_timeout(Some("nope"), Some(120)), Some(120));
    assert_eq!(resolve_verify_timeout(Some("nope"), None), None);
    assert_eq!(resolve_verify_timeout(Some("0"), Some(120)), None);
    assert_eq!(resolve_verify_timeout(Some("0"), None), None);
}

#[test]
fn load_timeout_from_config_reads_positive_integer() {
    assert_eq!(
        load_timeout_from_config(Some("verify = [\"true\"]\nverify_timeout_secs = 42\n")),
        Some(42)
    );
}

#[test]
fn load_timeout_from_config_ignores_nested_and_invalid() {
    let nested = Some("verify = [\"true\"]\n[commit]\nsign = false\nverify_timeout_secs = 12\n");
    assert_eq!(load_timeout_from_config(nested), None);
    assert_eq!(misplaced(nested, "verify_timeout_secs"), vec!["commit"]);
    assert_eq!(
        load_timeout_from_config(Some("verify = [\"true\"]\nverify_timeout_secs = 0\n")),
        None
    );
    assert_eq!(
        load_timeout_from_config(Some("verify = [\"true\"]\nverify_timeout_secs = \"900\"\n")),
        None
    );
}

#[test]
fn unset_timeout_waits_for_a_slow_command() {
    let cmds = load_commands(Some("verify = [\"sleep 1\"]\n")).unwrap();
    let o = watch(None, None, 100000, |_| 0, |_| 0);
    let result = finish(run_list(&cmds, None), vec![o]);
    assert!(
        result.passed,
        "unset timeout must wait, got: {}",
        result.output
    );
    assert!(
        !result.output.contains("timed out"),
        "must not kill when timeout is unset: {}",
        result.output
    );
}

#[test]
fn wall_clock_timeout_fails_without_retry() {
    let cmds = load_commands(Some("verify = [\"sleep 30\"]\n")).unwrap();
    let o = watch(Some(1), None, 30, |_| 0, |_| 0);
    assert_eq!(o.kill, Some(VerifyKill::Timeout { after: 1 }));
    let result = finish(run_list(&cmds, None), vec![o]);
    assert!(!result.passed);
    assert!(result.kill.is_some());
    assert!(
        result.output.contains("timed out"),
        "missing timeout note: {}",
        result.output
    );
    assert!(
        !result.output.contains("retrying once"),
        "wall-clock timeout must not retry: {}",
        result.output
    );
    assert_eq!(
        result.output,
        "[gaggle] verify command timed out after 1s and was killed: sleep 30\n"
    );
}

#[test]
fn resolve_stall_defaults_to_15m_zero_disables() {
    assert_eq!(resolve_verify_stall(None, None), Some(15 * 60));
    assert_eq!(resolve_verify_stall(Some("0"), Some(120)), None);
    assert_eq!(resolve_verify_stall(None, Some(0)), None);
    assert_eq!(resolve_verify_stall(None, Some(30)), Some(30));
    assert_eq!(resolve_verify_stall(Some("12"), Some(30)), Some(12));
}

#[test]
fn parse_ps_time_formats() {
    assert_eq!(parse_ps_time("0:00.12"), Some(120));
    assert_eq!(parse_ps_time("1:02.03"), Some(62_030));
    assert_eq!(parse_ps_time("1:02:03"), Some(3_723_000));
    assert_eq!(parse_ps_time("5"), Some(5_000));
}

#[test]
fn parse_ps_time_edges() {
    assert_eq!(parse_ps_time("1-00:00:01"), None);
    assert_eq!(parse_ps_time("0:00.5"), Some(500));
    assert_eq!(parse_ps_time("0:00.1239"), Some(123));
    assert_eq!(parse_ps_time(""), None);
    assert_eq!(parse_ps_time("a:b"), None);
    assert_eq!(parse_ps_time("1:2:3:4"), None);
}

#[test]
fn silent_command_is_killed_as_stall() {
    let cmds = load_commands(Some("verify = [\"sleep 30\"]\n")).unwrap();
    let first = watch(None, Some(1), 30, |_| 0, |_| 0);
    let second = watch(None, Some(1), 30, |_| 0, |_| 0);
    let result = finish(run_list(&cmds, Some(1)), vec![first, second]);
    assert!(
        !result.passed,
        "silent sleep must stall, got: {}",
        result.output
    );
    assert!(
        result.kill.as_ref().is_some_and(|k| k.is_stall()),
        "expected stall, got {:?}",
        result.kill
    );
    assert!(
        result.output.contains("stalled"),
        "missing stall note: {}",
        result.output
    );
}

#[test]
fn io_progress_prevents_stall() {
    let cmds = list(&["sh -c 'for i in 1 2 3 4 5; do echo tick; sleep 1; done'"]);
    let o = watch(None, Some(2), 5, |s| 5 * (s + 1), |_| 0);
    let result = finish(run_list(&cmds, Some(2)), vec![o]);
    assert!(
        result.passed,
        "periodic output must count as progress, got: {}",
        result.output
    );
}

#[test]
fn early_stall_retries_once() {
    let cmds = load_commands(Some("verify = [\"sh hang.sh\"]\n")).unwrap();
    let first = watch(None, Some(1), 30, |_| 0, |_| 0);
    let mut runner = run_list(&cmds, Some(1));
    runner.observe(&first);
    assert!(runner.retrying());
    assert_eq!(runner.command(), Some("sh hang.sh"));
    let result = finish(runner, vec![ended(true, "")]);
    assert!(
        result.passed,
        "early stall must retry, got: {}",
        result.output
    );
    assert!(
        result.output.contains("retrying once"),
        "missing retry note: {}",
        result.output
    );
}

#[test]
fn late_stall_does_not_retry() {
    let cmds = list(&["sh -c 'yes >/dev/null & y=$!; sleep 5; kill $y; sleep 30'"]);
    let o = watch(None, Some(2), 35, |_| 0, |s| s.min(5) * 1000);
    let result = finish(run_list(&cmds, Some(2)), vec![o]);
    assert!(!result.passed);
    assert!(result.kill.as_ref().is_some_and(|k| k.is_stall()));
    assert!(
        !result.output.contains("retrying once"),
        "late stall must not retry: {}",
        result.output
    );
}

#[test]
fn cpu_progress_prevents_stall() {
    let cmds = list(&["sh -c 'yes >/dev/null & y=$!; sleep 4; kill $y'"]);
    let o = watch(None, Some(2), 5, |_| 0, |s| s * 1000);
    let result = finish(run_list(&cmds, Some(2)), vec![o]);
    assert!(
        result.passed,
        "CPU-only work must count as progress, got: {}",
        result.output
    );
}

#[test]
fn the_gate_stops_at_the_first_failure() {
    let cmds = list(&["one", "two", "three"]);
    let mut runner = run_list(&cmds, None);
    runner.observe(&ended(true, "fine"));
    assert_eq!(runner.command(), Some("two"));
    let mut bad = ended(false, "out\n");
    bad.stderr = b"err\xff".to_vec();
    runner.observe(&bad);
    let r = runner.into_result().unwrap();
    assert_eq!(r.failed_command.as_deref(), Some("two"));
    assert_eq!(r.output, "fine\nout\nerr\u{fffd}\n");
    assert!(r.kill.is_none());
    let all = finish(
        run_list(&list(&["a", "b"]), None),
        vec![ended(true, "1"), ended(true, "2")],
    );
    assert!(all.passed);
    assert_eq!(all.output, "1\n2\n");
    assert!(run_list(&vec![], None).result().unwrap().passed);
}

#[test]
fn notes_hold_the_last_output() {
    let mut o = killed(VerifyKill::Stall { idle: 900 }, 9000 * SECOND);
    o.stdout = b"compiling\n  linking \n\n".to_vec();
    let r = finish(run_list(&list(&["make"]), Some(900)), vec![o]);
    assert_eq!(
        r.output,
        "compiling\n  linking \n\n[gaggle] verify stalled after 900s with no output and no CPU (killed); last output: linking: make\n"
    );
    assert_eq!(
        last_nonempty_line("a\n[gaggle] note\n \n"),
        Some("a".to_string())
    );
    assert_eq!(last_nonempty_line("[gaggle] x\n"), None);
}

#[test]
fn faults_of_command_lists_are_named() {
    let cfg = "c.toml";
    let fault = |text: &str| load_commands(Some(text)).unwrap_err().message(cfg);
    assert_eq!(
        load_commands(None).unwrap_err().message(cfg),
        "config not found: c.toml — expected a `verify` array (see config.toml.example)"
    );
    assert_eq!(
        fault("x = 1\n"),
        "`verify` key missing from c.toml — expected a non-empty command array (see config.toml.example)"
    );
    assert_eq!(
        fault("verify = \"x\"\n"),
        "`verify` must be an array of command strings in c.toml (see config.toml.example)"
    );
    assert_eq!(
        fault("verify = [\"x\", 1.5]\n"),
        "`verify[1]` must be a string in c.toml, but found `float` (see config.toml.example)"
    );
    assert_eq!(
        fault("verify = [\" \"]\n"),
        "`verify[0]` is empty/whitespace-only in c.toml — entries must be non-empty command strings (see config.toml.example)"
    );
    assert_eq!(
        fault("verify = []\n"),
        "`verify` is empty in c.toml — an empty array is rejected (it would silently pass with zero commands run)"
    );
    assert!(fault("verify = [").starts_with("failed to parse `c.toml`: "));
    assert_eq!(
        load_commands_key(Some("verify = [\"a\"]\n"), "final_verify", false).unwrap(),
        Vec::<String>::new()
    );
    assert!(run(None, None).is_err());
    assert_eq!(
        run_final(
            Some("verify = [\"a\"]\nfinal_verify = [\"b\"]\n"),
            None
        )
        .unwrap()
        .command(),
        Some("b")
    );
}

#[test]
fn seconds_are_read() {
    assert!(matches!(read_seconds(None, "k", 0), Seconds::Unset));
    assert!(matches!(read_seconds(Some("k = 5\n"), "k", 1), Seconds::Given(5)));
    assert!(matches!(read_seconds(Some("k = 0\n"), "k", 1), Seconds::TooSmall));
    assert!(matches!(read_seconds(Some("k = -1\n"), "k", 0), Seconds::TooSmall));
    match read_seconds(Some("k = 1979-05-27\n"), "k", 0) {
        Seconds::NotInteger { found } => assert_eq!(found, "datetime"),
        _ => panic!("no fault"),
    }
    assert_eq!(load_stall_from_config(Some("verify_stall_secs = 0\n")), Some(0));
    assert_eq!(load_stall_from_config(Some("verify_stall_secs = 7\n")), Some(7));
    assert_eq!(load_stall_from_config(None), None);
    assert_eq!(parse_seconds(" 12 "), Some(12));
    assert_eq!(parse_seconds("+7"), Some(7));
    assert_eq!(parse_seconds("-1"), None);
}

#[test]
fn kept_output_is_bounded() {
    let mut kept = Vec::new();
    absorb(&mut kept, b"abc");
    absorb(&mut kept, b"def");
    assert_eq!(kept, b"abcdef");
    let chunk = vec![b'x'; VERIFY_OUTPUT_CAP];
    absorb(&mut kept, &chunk);
    let n = kept.len();
    absorb(&mut kept, b"more");
    assert!(kept.len() <= VERIFY_OUTPUT_CAP + chunk.len());
    assert!(kept.len() <= n + 4);
}

#[test]
fn processor_time_of_a_group_is_summed() {
    let listing = "  PGID TIME\n  42 0:01.00\n 43 9:00.00\n 42 0:00:02\nbad line here\n";
    assert_eq!(group_cpu(listing, 42), Some(3000));
    assert_eq!(group_cpu(listing, 7), None);
}

#[test]
fn gate_files_lie_in_the_repository() {
    let cfg = Some(
        "verify = [\"/bin/sh ./a/run.sh\", \".//etc/x ../up/y a/../../z a/../b.sh d/..\"]\nfinal_verify = [\"true\"]\n",
    );
    assert_eq!(
        gate_candidates(cfg, "/repo"),
        vec!["a/run.sh", "a/../b.sh", "d/.."]
    );
    // What exists on the host counts no more than what does not.
    assert_eq!(
        gate_files(
            cfg,
            "/repo",
            &list(&["/bin/sh", "/etc/x", "../up/y", "a/run.sh"])
        ),
        vec!["a/run.sh"]
    );
}

#[test]
fn gate_files_may_be_named_by_other_ways_into_the_repository() {
    let cfg = Some(
        "verify = [\"sh /home/me/repo/a.sh\", \"../repo/b.sh /home/me/repo2/c.sh /home/me/other/../repo/d.sh ../../../x/home\"]\nfinal_verify = [\"true\"]\n",
    );
    let ways = vec![
        "/home/me/repo/a.sh",
        "../repo/b.sh",
        "/home/me/other/../repo/d.sh",
    ];
    assert_eq!(gate_candidates(cfg, "/home/me/repo"), ways);
    assert_eq!(gate_candidates(cfg, "/home/me/./repo/"), ways);
    assert_eq!(
        gate_files(
            cfg,
            "/home/me/repo",
            &list(&["../repo/b.sh", "/home/me/repo/a.sh", "/home/me/repo2/c.sh"])
        ),
        vec!["/home/me/repo/a.sh", "../repo/b.sh"]
    );
    // At the root of the file system every path is inside.
    assert_eq!(gate_candidates(cfg, "/").len(), 5);
    // Where the root is not known no way around it is taken.
    assert!(gate_candidates(cfg, "repo").is_empty());
    assert_eq!(
        gate_candidates(Some("verify = [\"a/b.sh\"]\nfinal_verify = [\"true\"]\n"), "repo"),
        vec!["a/b.sh"]
    );
}
