use history_stats::ZshHistory;

fn lines(xs: &[&[u8]]) -> Vec<Vec<u8>> {
    xs.iter().map(|x| x.to_vec()).collect()
}

fn drain(mut h: ZshHistory) -> Vec<Vec<u8>> {
    let mut out = Vec::new();
    while let Some(c) = h.next() {
        out.push(c);
    }
    out
}

#[test]
fn continuation_appended_without_separator() {
    let h = ZshHistory::new(lines(&[b":1700000000:0;echo \"a", b"b\""]));
    let records = drain(h);
    assert_eq!(records, vec![b"echo \"ab\"".to_vec()]);
}

#[test]
fn malformed_metadata_line_emits_nothing() {
    let h = ZshHistory::new(lines(&[b":1700000000:0"]));
    let records = drain(h);
    assert!(records.is_empty());
}

#[test]
fn metadata_line_is_never_command_text() {
    // a metadata-looking line with no `;` body must not itself be emitted
    let h = ZshHistory::new(lines(&[b":123", b":1;ls"]));
    let records = drain(h);
    assert_eq!(records, vec![b"ls".to_vec()]);
}

#[test]
fn orphan_continuation_lines_dropped() {
    let h = ZshHistory::new(lines(&[b"stray", b"lines", b":1;pwd"]));
    let records = drain(h);
    assert_eq!(records, vec![b"pwd".to_vec()]);
}

#[test]
fn payload_is_everything_after_first_semicolon() {
    let h = ZshHistory::new(lines(&[b":1;echo a;b"]));
    let records = drain(h);
    assert_eq!(records, vec![b"echo a;b".to_vec()]);
}

#[test]
fn several_records_with_continuations() {
    let h = ZshHistory::new(lines(&[b":1;echo a", b"more", b":2;ls", b"tail"]));
    let records = drain(h);
    assert_eq!(records, vec![b"echo amore".to_vec(), b"lstail".to_vec()]);
}

#[test]
fn empty_input_yields_no_records() {
    let h = ZshHistory::new(Vec::new());
    let records = drain(h);
    assert!(records.is_empty());
}

#[test]
fn empty_payload_is_a_record() {
    let h = ZshHistory::new(lines(&[b":1;"]));
    let records = drain(h);
    assert_eq!(records, vec![Vec::<u8>::new()]);
}
