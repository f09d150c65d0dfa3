use history_stats::resolve_command;
use history_stats::split_tokens;

#[test]
fn consecutive_spaces_keep_empty_tokens() {
    let toks = split_tokens(&b"a  b".to_vec());
    assert_eq!(toks, vec![b"a".to_vec(), b"".to_vec(), b"b".to_vec()]);
}

#[test]
fn splitting_empty_input_yields_one_empty_token() {
    let toks = split_tokens(&b"".to_vec());
    assert_eq!(toks, vec![b"".to_vec()]);
}

#[test]
fn resolve_skips_leading_assignments() {
    let parts = resolve_command(&b"A=1 B=2 ls -l x y".to_vec());
    assert_eq!(parts.0, Some(b"ls".to_vec()));
    assert_eq!(parts.1, Some(b"-l".to_vec()));
    assert_eq!(parts.2, Some(b"x".to_vec()));
}

#[test]
fn resolve_with_only_assignments_finds_nothing() {
    let parts = resolve_command(&b"A=1 B=2".to_vec());
    assert_eq!(parts.0, None);
    assert_eq!(parts.1, None);
    assert_eq!(parts.2, None);
}

#[test]
fn empty_entry_resolves_to_the_empty_token() {
    let parts = resolve_command(&b"".to_vec());
    assert_eq!(parts.0, Some(b"".to_vec()));
    assert_eq!(parts.1, None);
    assert_eq!(parts.2, None);
}
