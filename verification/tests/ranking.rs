use history_stats::State;
use history_stats::ZshHistory;
use history_stats::process_command_history;
use history_stats::ranked;

fn run(cmds: &[&[u8]]) -> State {
    let lines: Vec<Vec<u8>> = cmds
        .iter()
        .map(|c| {
            let mut line = b":0;".to_vec();
            line.extend_from_slice(c);
            line
        })
        .collect();
    let mut state = State::new();
    let mut h = ZshHistory::new(lines);
    process_command_history(&mut state, &mut h);
    state
}

#[test]
fn equal_counts_rank_by_descending_key() {
    let state = run(&[b"a", b"b", b"a", b"b", b"a", b"b"]);
    let r = ranked(&state.commands);
    assert_eq!(r, vec![(3, b"b".to_vec()), (3, b"a".to_vec())]);
}

#[test]
fn higher_counts_rank_first() {
    let state = run(&[b"ls", b"cat", b"ls", b"ls", b"cat", b"pwd"]);
    let r = ranked(&state.commands);
    assert_eq!(
        r,
        vec![(3, b"ls".to_vec()), (2, b"cat".to_vec()), (1, b"pwd".to_vec())]
    );
}

#[test]
fn ranking_mixes_count_and_key_ties() {
    let state = run(&[b"b", b"a", b"a", b"c", b"d", b"d"]);
    let r = ranked(&state.commands);
    assert_eq!(
        r,
        vec![
            (2, b"d".to_vec()),
            (2, b"a".to_vec()),
            (1, b"c".to_vec()),
            (1, b"b".to_vec()),
        ]
    );
}

#[test]
fn empty_table_ranks_empty() {
    let state = State::new();
    let r = ranked(&state.commands);
    assert!(r.is_empty());
}

#[test]
fn prefix_key_ranks_below_its_extension() {
    let state = run(&[b"ab", b"abc"]);
    let r = ranked(&state.commands);
    assert_eq!(r, vec![(1, b"abc".to_vec()), (1, b"ab".to_vec())]);
}
