use std::collections::HashMap;
use std::collections::VecDeque;

use othello_mcts::agent::implementations::{
    BfsExpansion, BfsSelectionFast, RandomAgent, UctDecision,
};
use othello_mcts::data::{
    mcst_node_report, str_to_turns, turns_to_game, turns_to_str, BfsAllGamestates,
};
use othello_mcts::gameplay::{str_to_loc, Gamestate};
use othello_mcts::mcst::McstAgent;
use othello_mcts::mechanics::Board;

#[test]
fn test_bfsallgamestates() {
    let mut q = VecDeque::<Gamestate>::new();
    q.push_back(Gamestate::new());

    let mut it = BfsAllGamestates::new();
    let mut count = 0;
    while count < 10000 {
        let g = match it.next_state() {
            Some(g) => g,
            None => break,
        };
        let expected = q.pop_front().unwrap();
        for t in expected.get_moves().iter() {
            let mut child = expected.clone();
            child.make_move_fast(*t);
            q.push_back(child);
        }
        assert_eq!(g.board(), expected.board());
        count += 1;
    }
    assert_eq!(count, 10000);
}

#[test]
fn test_turns_to_str() {
    assert_eq!(turns_to_str(&[Some((1, 2)), Some((3, 4)), None]), "1,2;3,4;");
}

#[test]
fn test_str_to_turns() {
    assert_eq!(str_to_turns("1,2;3,4;"), Some(vec![Some((1, 2)), Some((3, 4)), None]));
}

#[test]
fn test_turns_to_game() {
    let mut g = Gamestate::new();
    let mut v = vec![g.clone()];
    g.make_move_fast(Some((4, 5)));
    v.push(g.clone());
    g.make_move_fast(Some((3, 5)));
    v.push(g.clone());
    assert_eq!(turns_to_game(&[Some((4_u8, 5_u8)), Some((3_u8, 5_u8))]), Some(v));
}

#[test]
fn history_codec_round_trip() {
    let text = "4,5;5,3;;3,2;2,3";
    let turns = str_to_turns(text);
    assert_eq!(
        turns,
        Some(vec![Some((4, 5)), Some((5, 3)), None, Some((3, 2)), Some((2, 3))])
    );
    assert_eq!(turns_to_str(&turns.unwrap()), text);
}

#[test]
fn history_parser_rejects_bad_tokens() {
    assert_eq!(str_to_loc("4,5"), Some((4, 5)));
    assert_eq!(str_to_loc(" 4 , 5 "), Some((4, 5)));
    assert_eq!(str_to_loc("007,0"), Some((7, 0)));
    assert_eq!(str_to_loc("8,0"), None);
    assert_eq!(str_to_loc("0,8"), None);
    assert_eq!(str_to_loc("1,2,3"), None);
    assert_eq!(str_to_loc("12"), None);
    assert_eq!(str_to_loc(""), None);
    assert_eq!(str_to_loc("a,b"), None);
    assert_eq!(str_to_turns("4,5;x"), None);
    assert_eq!(str_to_turns("9,9"), None);
    // the empty history is one empty token: a single pass
    assert_eq!(str_to_turns(""), Some(vec![None]));
}

#[test]
fn turns_to_game_rejects_illegal_sequences() {
    // (0, 0) is not a legal opening move
    assert_eq!(turns_to_game(&[Some((0, 0))]), None);
    // a pass is not legal while coordinate moves exist
    assert_eq!(turns_to_game(&[None]), None);
    let games = turns_to_game(&[Some((4, 5)), Some((5, 3))]).unwrap();
    assert_eq!(games.len(), 3);
}

#[test]
fn compact_codec_round_trip() {
    // the canonical value of the initial position
    let g = Gamestate::new();
    let c = g.board().to_compact();
    assert_eq!(c, 350258943680422884);
    let back = Board::from_compact(c);
    assert_eq!(&back, g.board());

    // a mid-game board survives the round trip too
    let mut g = Gamestate::new();
    assert!(g.make_move_fast(Some((4, 5))));
    assert!(g.make_move_fast(Some((5, 3))));
    let c = g.board().to_compact();
    assert_eq!(&Board::from_compact(c), g.board());

    // an empty board encodes to zero
    assert_eq!(Board::new().to_compact(), 0);
    assert_eq!(&Board::from_compact(0), &Board::new());
}

#[test]
fn rotation_and_color_flip_are_involutions() {
    let mut g = Gamestate::new();
    assert!(g.make_move_fast(Some((4, 5))));
    let start = g.board().clone();

    let mut b = start.clone();
    b.flip_colors();
    assert_ne!(&b, &start);
    b.flip_colors();
    assert_eq!(&b, &start);

    let mut r = start.clone();
    r.rotate_90();
    r.rotate_90();
    r.rotate_90();
    r.rotate_90();
    assert_eq!(&r, &start);
}

#[test]
fn node_report_counts_heavy_nodes() {
    let mut agent = McstAgent::new(
        BfsSelectionFast::new(),
        BfsExpansion {},
        UctDecision {},
        RandomAgent::new(),
        RandomAgent::new(),
        Gamestate::new(),
    );
    for _ in 0..64 {
        assert!(agent.cycle().unwrap());
    }
    let mut data = HashMap::<u128, (u64, u64)>::new();
    mcst_node_report(agent.tree().root(), &mut data);
    // only the root has 64 rollouts so far
    assert_eq!(data.len(), 1);
    let entry = data[&Gamestate::new().board().to_compact()];
    assert_eq!(entry.1, 64);
    assert!(entry.0 <= 64);
}

#[test]
fn bfs_enumerator_yields_levels_in_order() {
    let mut it = BfsAllGamestates::new();
    // depth 0: the initial position
    let first = it.next_state().unwrap();
    assert_eq!(first, Gamestate::new());
    // depth 1: the four Black openings
    let mut depth1 = Vec::new();
    for _ in 0..4 {
        depth1.push(it.next_state().unwrap());
    }
    for g in &depth1 {
        assert_eq!(g.score(), 3);
    }
    // depth 2: each opening has three White replies
    for _ in 0..12 {
        let g = it.next_state().unwrap();
        assert_eq!(g.score(), 0);
    }
}
