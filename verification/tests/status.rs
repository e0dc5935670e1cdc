use gaggle::status::{tail_lines_from_buf, Phase, Status, Tail};

#[test]
fn tail_lines_exact_n_plus_fragment_drops_leading_fragment() {
    let buf = b"ment\nline1\nline2\nline3\n";
    let out = tail_lines_from_buf(buf, true, 2);
    assert_eq!(out, vec!["line2", "line3"]);
    let buf = b"ment\nline1\nline2\n";
    let out = tail_lines_from_buf(buf, true, 2);
    assert_eq!(out, vec!["line1", "line2"]);
}

#[test]
fn tail_lines_untruncated_keeps_all() {
    let buf = b"line1\nline2\nline3\n";
    let out = tail_lines_from_buf(buf, false, 2);
    assert_eq!(out, vec!["line2", "line3"]);
    let out = tail_lines_from_buf(buf, false, 10);
    assert_eq!(out, vec!["line1", "line2", "line3"]);
}

#[test]
fn bytes_that_are_no_text_are_replaced() {
    let out = tail_lines_from_buf(b"a\xffb\r\nlast", false, 5);
    assert_eq!(out, vec!["a\u{fffd}b", "last"]);
    assert!(tail_lines_from_buf(b"", true, 5).is_empty());
    assert!(tail_lines_from_buf(b"a\nb\n", false, 0).is_empty());
}

#[test]
fn entries_are_flat_and_short() {
    let long = "x".repeat(400);
    let s = Status::at(Phase::Fixing, "a\tb", &format!("one\ntwo\u{7f}{long}"), "T");
    assert_eq!(s.phase, "fixing");
    assert_eq!(s.component, "a b");
    assert_eq!(s.detail.chars().count(), 300);
    assert!(s.detail.starts_with("one two xxx"));
    assert_eq!(s.ts, "T");
    assert!(!s.line().contains('\n'));
}

#[test]
fn the_line_of_an_entry_is_exact() {
    let s = Status::at(Phase::Done, "core", "no findings", "2026-01-01T00:00:00+00:00");
    assert_eq!(
        s.line(),
        "2026-01-01T00:00:00+00:00  [      done]  core                    no findings"
    );
    assert_eq!(
        s.line(),
        format!(
            "{}  [{:>10}]  {:<22}  {}",
            s.ts, s.phase, s.component, s.detail
        )
    );
}

#[test]
fn timeline_phases_have_words() {
    let all = [
        (Phase::Picking, "picking"),
        (Phase::Reviewing, "reviewing"),
        (Phase::Fixing, "fixing"),
        (Phase::Verifying, "verifying"),
        (Phase::Committing, "committing"),
        (Phase::Done, "done"),
        (Phase::Failed, "failed"),
        (Phase::Idle, "idle"),
    ];
    for (p, w) in all {
        assert_eq!(p.as_str(), w);
    }
}

fn read_tail(file: &[u8], n: usize) -> Option<Vec<String>> {
    let mut tail = Tail::start(file.len() as u64, n)?;
    while let Some((at, len)) = tail.wants() {
        let at = at as usize;
        tail.take(file[at..at + len].to_vec());
    }
    Some(tail.lines())
}

#[test]
fn the_tail_of_a_long_file_is_read_from_its_end() {
    let mut file = String::new();
    for i in 0..5000 {
        file.push_str(&format!("entry {i} ü\n"));
    }
    let all: Vec<&str> = file.lines().collect();
    for n in [1, 2, 7, 400, 4999, 5000, 6000] {
        let expected: Vec<&str> = all[all.len().saturating_sub(n)..].to_vec();
        assert_eq!(read_tail(file.as_bytes(), n).unwrap(), expected, "{n}");
    }
    assert!(read_tail(b"", 3).is_none());
    assert!(read_tail(b"a\n", 0).unwrap().is_empty());
}

#[test]
fn only_as_much_is_read_as_is_needed() {
    let file = vec![b'\n'; 10000];
    let mut tail = Tail::start(file.len() as u64, 3).unwrap();
    let mut reads = 0;
    while let Some((at, len)) = tail.wants() {
        assert_eq!(len, 4096);
        assert_eq!(at, 10000 - 4096);
        reads += 1;
        tail.take(file[at as usize..at as usize + len].to_vec());
    }
    assert_eq!(reads, 1);
    assert_eq!(tail.lines(), vec!["", "", ""]);
}

#[test]
fn an_entry_made_now_is_one_line() {
    let s = Status::new(Phase::Idle, "-", "first\nsecond");
    assert_eq!((s.phase.as_str(), s.component.as_str()), ("idle", "-"));
    assert_eq!(s.detail, "first second");
    assert!(s.ts.starts_with(|c: char| c.is_ascii_digit()) && s.ts.ends_with("+00:00"));
    assert_eq!(&s.ts[4..5], "-");
    assert_eq!(s.line().lines().count(), 1);
    assert!(s.line().starts_with(&s.ts));
}
