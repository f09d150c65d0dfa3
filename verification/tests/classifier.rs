use history_stats::State;
use history_stats::ZshHistory;
use history_stats::process_command_history;

fn record(cmd: &[u8]) -> Vec<u8> {
    let mut line = b":1700000000:0;".to_vec();
    line.extend_from_slice(cmd);
    line
}

fn run(cmds: &[&[u8]]) -> State {
    let lines: Vec<Vec<u8>> = cmds.iter().map(|c| record(c)).collect();
    let mut state = State::new();
    let mut h = ZshHistory::new(lines);
    process_command_history(&mut state, &mut h);
    state
}

#[test]
fn man_with_section_counts_the_page() {
    let state = run(&[b"man 3 printf"]);
    assert_eq!(state.man_pages.count(&b"printf".to_vec()), 1);
    assert_eq!(state.man_pages.count(&b"3".to_vec()), 0);
    assert_eq!(state.man_pages.total_count(), 1);
}

#[test]
fn man_with_section_but_no_page_counts_nothing() {
    let state = run(&[b"man 3"]);
    assert_eq!(state.man_pages.count(&b"3".to_vec()), 0);
    assert_eq!(state.man_pages.total_count(), 0);
    assert_eq!(state.man_pages.len(), 0);
    // the command itself still counts
    assert_eq!(state.commands.count(&b"man".to_vec()), 1);
}

#[test]
fn man_without_section_counts_first_argument() {
    let state = run(&[b"man printf"]);
    assert_eq!(state.man_pages.count(&b"printf".to_vec()), 1);
}

#[test]
fn env_assignment_prefix_is_skipped() {
    let state = run(&[b"FOO=bar git status"]);
    assert_eq!(state.commands.count(&b"git".to_vec()), 1);
    assert_eq!(state.commands.count(&b"FOO=bar".to_vec()), 0);
    assert_eq!(state.git_subcommands.count(&b"status".to_vec()), 1);
}

#[test]
fn all_tokens_assignments_counts_nothing() {
    let state = run(&[b"A=1 B=2"]);
    assert_eq!(state.commands.total_count(), 0);
    assert_eq!(state.git_subcommands.total_count(), 0);
    assert_eq!(state.man_pages.total_count(), 0);
}

#[test]
fn commit_alias_counts_one_commit_regardless_of_arguments() {
    let state = run(&[b"gca -m \"msg\""]);
    assert_eq!(state.git_subcommands.count(&b"commit".to_vec()), 1);
    assert_eq!(state.git_subcommands.total_count(), 1);
}

#[test]
fn alias_forms_map_to_their_subcommands() {
    let state = run(&[b"gc", b"gca now", b"ga file", b"gau", b"g push", b"git pull"]);
    assert_eq!(state.git_subcommands.count(&b"commit".to_vec()), 2);
    assert_eq!(state.git_subcommands.count(&b"add".to_vec()), 2);
    assert_eq!(state.git_subcommands.count(&b"push".to_vec()), 1);
    assert_eq!(state.git_subcommands.count(&b"pull".to_vec()), 1);
}

#[test]
fn git_without_subcommand_counts_nothing() {
    let state = run(&[b"git"]);
    assert_eq!(state.git_subcommands.total_count(), 0);
    assert_eq!(state.commands.count(&b"git".to_vec()), 1);
}

#[test]
fn command_total_counts_each_decoded_record_once() {
    let state = run(&[b"ls -l", b"ls", b"man 3 printf", b"\xff\xfe broken"]);
    // three records resolve to UTF-8 command tokens; the fourth does not
    assert_eq!(state.commands.total_count(), 3);
    assert_eq!(state.commands.count(&b"ls".to_vec()), 2);
    assert_eq!(state.commands.count(&b"man".to_vec()), 1);
}

#[test]
fn invalid_utf8_skips_only_that_classification() {
    // the subcommand token is not UTF-8, the command token is
    let state = run(&[b"git \xff\xfe"]);
    assert_eq!(state.commands.count(&b"git".to_vec()), 1);
    assert_eq!(state.git_subcommands.total_count(), 0);
}

#[test]
fn empty_token_counts_as_digits_only_section() {
    // consecutive spaces give an empty first argument, vacuously all digits,
    // so the page is the second argument
    let state = run(&[b"man  x"]);
    assert_eq!(state.man_pages.count(&b"x".to_vec()), 1);
    assert_eq!(state.man_pages.count(&b"".to_vec()), 0);
}

#[test]
fn absent_history_yields_empty_tables() {
    let mut state = State::new();
    let mut h = ZshHistory::new(Vec::new());
    process_command_history(&mut state, &mut h);
    assert_eq!(state.commands.total_count(), 0);
    assert_eq!(state.man_pages.total_count(), 0);
    assert_eq!(state.git_subcommands.total_count(), 0);
    assert_eq!(state.commands.len(), 0);
}

#[test]
fn multiline_record_classified_as_one_command() {
    let lines = vec![b":1;echo \"a".to_vec(), b"b\"".to_vec()];
    let mut state = State::new();
    let mut h = ZshHistory::new(lines);
    process_command_history(&mut state, &mut h);
    assert_eq!(state.commands.count(&b"echo".to_vec()), 1);
    assert_eq!(state.commands.total_count(), 1);
}
