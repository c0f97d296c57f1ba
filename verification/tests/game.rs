use othello_mcts::gameplay::{Gamestate, Turn};
use othello_mcts::mechanics::{Board, Players, States};

/// A position in which Black (to move) has nothing to play but White
/// has: White at (0,0), Black at (1,0).
fn forced_pass_state() -> Gamestate {
    let mut b = Board::new();
    b.change(0, 0, States::Taken(Players::White));
    b.change(1, 0, States::Taken(Players::Black));
    Gamestate::new_from(b, 0)
}

#[test]
fn initial_legal_moves_for_black() {
    let g = Gamestate::new();
    let moves = g.get_moves();
    assert_eq!(moves.len(), 4);
    for m in [(3, 2), (2, 3), (5, 4), (4, 5)] {
        assert!(moves.contains(&Some(m)));
    }
    assert!(!moves.contains(&None));
}

#[test]
fn canonical_opening_flips() {
    let mut g = Gamestate::new();
    let flips = g.make_move(Some((4, 5))).unwrap();
    assert_eq!(flips, vec![(4, 4)]);
    let b = g.board();
    for (x, y) in [(3, 4), (4, 3), (4, 4), (4, 5)] {
        assert_eq!(b.at(x, y), Some(States::Taken(Players::Black)));
    }
    assert_eq!(b.at(3, 3), Some(States::Taken(Players::White)));
    assert_eq!(g.score(), 3);
}

#[test]
fn move_legality_matches_apply() {
    let g = Gamestate::new();
    for x in 0..8u8 {
        for y in 0..8u8 {
            let m: Turn = Some((x, y));
            let legal = g.valid_move(m);
            let mut copy = g.clone();
            assert_eq!(copy.make_move_fast(m), legal);
            if !legal {
                assert_eq!(&copy, &g);
            }
        }
    }
    let mut copy = g.clone();
    assert!(!copy.make_move_fast(None));
    assert_eq!(&copy, &g);
}

#[test]
fn forced_pass_sequence() {
    let mut g = forced_pass_state();
    assert_eq!(g.whose_turn(), States::Taken(Players::Black));
    let moves = g.get_moves();
    assert_eq!(moves, vec![None]);
    let before = g.board().clone();
    let flips = g.make_move(None).unwrap();
    assert!(flips.is_empty());
    assert_eq!(g.board(), &before);
    // the counter advanced by one: it is White's turn now
    assert_eq!(g.whose_turn(), States::Taken(Players::White));
    assert_eq!(g.get_moves(), vec![Some((2, 0))]);
}

#[test]
fn terminal_state_accepts_no_move() {
    let mut b = Board::new();
    b.change(0, 0, States::Taken(Players::White));
    let mut g = Gamestate::new_from(b, 0);
    assert!(g.is_terminal());
    assert_eq!(g.whose_turn(), States::Empty);
    assert_eq!(g.get_moves(), Vec::<Turn>::new());
    for x in 0..8u8 {
        for y in 0..8u8 {
            assert!(!g.valid_move(Some((x, y))));
        }
    }
    assert_eq!(g.make_move(None), None);
    assert_eq!(g.make_move(Some((3, 3))), None);
}

#[test]
fn score_stays_within_stone_count() {
    let mut g = Gamestate::new();
    let mut stones = 4i32;
    assert_eq!(g.score(), 0);
    // play a few known moves and watch the bound |score| <= stones <= 64
    for m in [Some((4, 5)), Some((5, 3)), Some((3, 2))] {
        assert!(g.make_move_fast(m));
        stones += 1;
        let s = g.score() as i32;
        assert!(s.abs() <= stones);
        assert!(stones <= 64);
    }
}

#[test]
fn make_moves_fast_short_circuits() {
    let mut g = Gamestate::new();
    // the second move is illegal: the first stays applied
    assert!(!g.make_moves_fast(&[Some((4, 5)), Some((0, 0))]));
    let mut h = Gamestate::new();
    assert!(h.make_move_fast(Some((4, 5))));
    assert_eq!(&g, &h);

    let mut g2 = Gamestate::new();
    assert!(g2.make_moves_fast(&[Some((4, 5)), Some((5, 3))]));
}

#[test]
fn fast_and_listing_moves_agree_on_the_board() {
    let moves = [Some((4, 5)), Some((5, 3)), Some((3, 2)), Some((2, 3))];
    let mut a = Gamestate::new();
    let mut b = Gamestate::new();
    for m in moves {
        assert!(a.make_move(m).is_some());
        assert!(b.make_move_fast(m));
        assert_eq!(&a, &b);
    }
}

#[test]
fn flip_determinism_on_clones() {
    let g = Gamestate::new();
    let mut c1 = g.clone();
    let mut c2 = g.clone();
    assert!(c1.make_move_fast(Some((4, 5))));
    assert!(c2.make_move_fast(Some((4, 5))));
    assert_eq!(&c1, &c2);
    assert_eq!(c1.board().to_compact(), c2.board().to_compact());
}

#[test]
fn new_from_keeps_board_and_counter() {
    let mut b = Board::new();
    b.change(3, 3, States::Taken(Players::Black));
    let g = Gamestate::new_from(b.clone(), 5);
    assert_eq!(g.board(), &b);
    // odd counter: White to move; the lone black stone gives it no move
    assert_eq!(g.whose_turn(), States::Empty);
}
