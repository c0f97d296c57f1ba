//! Game states: a board plus a half-move counter, with turn logic,
//! legal-move enumeration (Pass included) and move application.
//!
//! A state is modelled by `GameView`: the board cells and the counter.
//! `view_apply` is the mathematical transition function; every mutating
//! method is specified against it, so applying a move is a function of the
//! state and the move alone.

use vstd::prelude::*;
use vstd::string::StringSliceAdditionalSpecFns;

pub use crate::mechanics::{Players, States};

use crate::mechanics::{
    board_after_flips, board_len_ok, can_place, cell_at, coord_moves, count_match, has_any_move,
    idx_of, lemma_coord_moves_contains, lemma_count_le_len, lemma_count_pointwise,
    lemma_count_update, lemma_flipped_was_opponent, on_board, opponent, score_spec, Board,
};

verus! {

/// A player's move: a board position `(x, y)`, or `None` for a pass.
pub type Turn = Option<(u8, u8)>;

/// The mathematical content of a game state: the board cells and the
/// half-move counter.
#[verifier::ext_equal]
pub ghost struct GameView {
    pub board: Seq<States>,
    pub turn: nat,
}

/// The side to move at half-move counter `t` (ignoring terminality):
/// Black on even counts, White on odd ones.
pub open spec fn turn_player(t: nat) -> Players {
    if t % 2 == 0 {
        Players::Black
    } else {
        Players::White
    }
}

/// The game is over: neither side has a coordinate move.
pub open spec fn view_terminal(v: GameView) -> bool {
    !has_any_move(v.board, Players::Black) && !has_any_move(v.board, Players::White)
}

/// A pass is pending: the side to move has no coordinate move but the
/// opponent has one.
pub open spec fn pass_pending(v: GameView) -> bool {
    !has_any_move(v.board, turn_player(v.turn)) && has_any_move(
        v.board,
        opponent(turn_player(v.turn)),
    )
}

/// The move `m` is legal in state `v`.
pub open spec fn move_legal(v: GameView, m: Turn) -> bool {
    match m {
        Some((x, y)) => can_place(v.board, x as int, y as int, turn_player(v.turn)),
        None => pass_pending(v),
    }
}

/// The canonical legal-move list of a state: the coordinate moves of the
/// side to move in scan order; `[Pass]` when only the opponent can move;
/// empty when the game is over.
pub open spec fn legal_seq(v: GameView) -> Seq<Turn> {
    let p = turn_player(v.turn);
    if has_any_move(v.board, p) {
        coord_moves(v.board, p, 0).map_values(|c: (u8, u8)| Some(c))
    } else if has_any_move(v.board, opponent(p)) {
        seq![None]
    } else {
        Seq::empty()
    }
}

/// The state after applying move `m`: a pass only advances the counter; a
/// coordinate move places the mover's stone and flips every captured run.
pub open spec fn view_apply(v: GameView, m: Turn) -> GameView {
    match m {
        None => GameView { board: v.board, turn: v.turn + 1 },
        Some((x, y)) => GameView {
            board: board_after_flips(
                v.board.update(idx_of(x as int, y as int), States::Taken(turn_player(v.turn))),
                x as int,
                y as int,
                turn_player(v.turn),
            ),
            turn: v.turn + 1,
        },
    }
}

/// A measure that strictly shrinks with every legal move: twice the empty
/// cells, plus one while a pass is pending.
pub open spec fn game_measure(v: GameView) -> nat {
    2 * count_match(v.board, States::Empty) + (if pass_pending(v) {
        1nat
    } else {
        0nat
    })
}

/// A well-formed state: 64 cells, and the counter so bounded that it can
/// never outgrow its machine word (the measure shrinks as the counter
/// grows).
pub open spec fn view_wf(v: GameView) -> bool {
    board_len_ok(v.board) && v.turn + game_measure(v) <= 384
}

/// The standard initial position: White at (3,3) and (4,4), Black at
/// (4,3) and (3,4), Black to move.
pub open spec fn init_view() -> GameView {
    GameView {
        board: Seq::new(
            64,
            |i: int|
                if i == idx_of(3, 3) || i == idx_of(4, 4) {
                    States::Taken(Players::White)
                } else if i == idx_of(4, 3) || i == idx_of(3, 4) {
                    States::Taken(Players::Black)
                } else {
                    States::Empty
                },
        ),
        turn: 0,
    }
}

/// The state after replaying a move list, or `None` as soon as one move
/// is illegal.
pub open spec fn replay(v: GameView, ms: Seq<Turn>) -> Option<GameView>
    decreases ms.len(),
{
    if ms.len() == 0 {
        Some(v)
    } else if move_legal(v, ms[0]) {
        replay(view_apply(v, ms[0]), ms.skip(1))
    } else {
        None
    }
}

/// The state after replaying a move list up to (not including) the first
/// illegal move.
pub open spec fn replay_stop(v: GameView, ms: Seq<Turn>) -> GameView
    decreases ms.len(),
{
    if ms.len() == 0 {
        v
    } else if move_legal(v, ms[0]) {
        replay_stop(view_apply(v, ms[0]), ms.skip(1))
    } else {
        v
    }
}

/// An ASCII decimal digit.
pub open spec fn is_digit_b(c: u8) -> bool {
    48 <= c <= 57
}

/// The value of an ASCII decimal digit.
pub open spec fn digit_val_b(c: u8) -> int {
    c - 48
}

/// The bytes with every space removed.
pub open spec fn strip_spaces(s: Seq<u8>) -> Seq<u8> {
    s.filter(|c: u8| c != 32)
}

/// Every byte is a digit.
pub open spec fn digits_only(s: Seq<u8>) -> bool {
    forall|i: int| 0 <= i < s.len() ==> is_digit_b(#[trigger] s[i])
}

/// A non-empty run of digits.
pub open spec fn all_digits(s: Seq<u8>) -> bool {
    s.len() >= 1 && digits_only(s)
}

/// The decimal value of a digit run.
pub open spec fn digits_val(s: Seq<u8>) -> int
    decreases s.len(),
{
    if s.len() == 0 {
        0
    } else {
        digits_val(s.drop_last()) * 10 + digit_val_b(s.last())
    }
}

/// The index of the first occurrence of `c` at or after `i`, or the
/// length when there is none.
pub open spec fn find_byte(s: Seq<u8>, c: u8, i: int) -> int
    decreases s.len() - i,
{
    if i < 0 || i >= s.len() {
        s.len() as int
    } else if s[i] == c {
        i
    } else {
        find_byte(s, c, i + 1)
    }
}

/// What `find_byte` returns: the first match, or the length.
pub proof fn lemma_find_byte_bounds(s: Seq<u8>, c: u8, i: int)
    requires
        0 <= i <= s.len(),
    ensures
        i <= find_byte(s, c, i) <= s.len(),
        find_byte(s, c, i) < s.len() ==> s[find_byte(s, c, i)] == c,
        forall|j: int| i <= j < find_byte(s, c, i) ==> s[j] != c,
    decreases s.len() - i,
{
    if i < s.len() && s[i] != c {
        lemma_find_byte_bounds(s, c, i + 1);
    }
}

/// Parses a coordinate pair: after removing spaces the bytes must be a
/// digit run, a comma, and a digit run, both runs with values below 8.
pub open spec fn loc_parse(s: Seq<u8>) -> Option<(u8, u8)> {
    let t = strip_spaces(s);
    let i = find_byte(t, 44, 0);
    if i == t.len() {
        None
    } else {
        let xs = t.subrange(0, i);
        let ys = t.subrange(i + 1, t.len() as int);
        if all_digits(xs) && all_digits(ys) && digits_val(xs) < 8 && digits_val(ys) < 8 {
            Some((digits_val(xs) as u8, digits_val(ys) as u8))
        } else {
            None
        }
    }
}

/// A digit run's value is never negative.
pub proof fn lemma_digits_val_nonneg(s: Seq<u8>)
    requires
        digits_only(s),
    ensures
        digits_val(s) >= 0,
    decreases s.len(),
{
    if s.len() > 0 {
        assert(digits_only(s.drop_last()));
        lemma_digits_val_nonneg(s.drop_last());
    }
}

/// Parses the digit run `t[from..to]` when its value is below 8.
fn parse_digits_lt8(t: &Vec<u8>, from: usize, to: usize) -> (r: Option<u8>)
    requires
        from <= to <= t@.len(),
    ensures
        ({
            let part = t@.subrange(from as int, to as int);
            &&& (r matches Some(v) ==> all_digits(part) && digits_val(part) == v as int && v < 8)
            &&& (r is None ==> !(all_digits(part) && digits_val(part) < 8))
        }),
{
    let ghost part = t@.subrange(from as int, to as int);
    if from == to {
        return None;
    }
    let mut v: u8 = 0;
    let mut i: usize = from;
    while i < to
        invariant
            from <= i <= to <= t@.len(),
            part == t@.subrange(from as int, to as int),
            digits_only(t@.subrange(from as int, i as int)),
            v <= 8,
            (v < 8 && v as int == digits_val(t@.subrange(from as int, i as int))) || (v == 8
                && digits_val(t@.subrange(from as int, i as int)) >= 8),
        decreases to - i,
    {
        let c = t[i];
        if !(48 <= c && c <= 57) {
            proof {
                assert(part[i - from] == c);
                assert(!all_digits(part));
            }
            return None;
        }
        let d = c - 48;
        proof {
            let pre = t@.subrange(from as int, i as int);
            let ext = t@.subrange(from as int, i + 1);
            assert(ext.drop_last() =~= pre);
            assert(ext.last() == c);
            assert(digits_val(ext) == digits_val(pre) * 10 + d);
            lemma_digits_val_nonneg(pre);
        }
        if v < 8 {
            let next = v * 10 + d;
            if next >= 8 {
                v = 8;
            } else {
                v = next;
            }
        }
        i = i + 1;
    }
    proof {
        assert(t@.subrange(from as int, i as int) =~= part);
    }
    if v < 8 {
        Some(v)
    } else {
        None
    }
}

/// Finds the first occurrence of `c` in `t` at or after `from`.
fn find_byte_in(t: &Vec<u8>, c: u8, from: usize) -> (r: usize)
    requires
        from <= t@.len(),
    ensures
        r as int == find_byte(t@, c, from as int),
        from <= r <= t@.len(),
{
    let mut j = from;
    while j < t.len()
        invariant
            from <= j <= t@.len(),
            find_byte(t@, c, from as int) == find_byte(t@, c, j as int),
        decreases t@.len() - j,
    {
        if t[j] == c {
            return j;
        }
        j = j + 1;
    }
    j
}

/// Parses the bytes `b[from..to]` as a coordinate pair.
pub fn loc_from_bytes(b: &[u8], from: usize, to: usize) -> (r: Option<(u8, u8)>)
    requires
        from <= to <= b@.len(),
    ensures
        r == loc_parse(b@.subrange(from as int, to as int)),
{
    let ghost seg = b@.subrange(from as int, to as int);
    // remove the spaces
    let mut t: Vec<u8> = Vec::new();
    let mut i: usize = from;
    while i < to
        invariant
            from <= i <= to <= b@.len(),
            seg == b@.subrange(from as int, to as int),
            t@ == strip_spaces(b@.subrange(from as int, i as int)),
        decreases to - i,
    {
        let c = b[i];
        proof {
            let pre = b@.subrange(from as int, i as int);
            let ext = b@.subrange(from as int, i + 1);
            let pred = |q: u8| q != 32;
            assert(ext =~= pre.push(c));
            assert(pre.push(c) =~= pre + seq![c]);
            Seq::<u8>::filter_distributes_over_add(pre, seq![c], pred);
            reveal_with_fuel(Seq::<_>::filter, 3);
            assert(seq![c].drop_last() =~= Seq::<u8>::empty());
            if c != 32 {
                assert(seq![c].filter(pred) =~= seq![c]);
                assert(strip_spaces(ext) =~= t@.push(c));
            } else {
                assert(seq![c].filter(pred) =~= Seq::<u8>::empty());
                assert(strip_spaces(ext) =~= t@);
            }
        }
        if c != 32 {
            t.push(c);
        }
        i = i + 1;
    }
    proof {
        assert(b@.subrange(from as int, to as int) =~= seg);
        assert(t@ == strip_spaces(seg));
        lemma_find_byte_bounds(t@, 44, 0);
    }
    let comma = find_byte_in(&t, 44, 0);
    if comma == t.len() {
        return None;
    }
    let x = parse_digits_lt8(&t, 0, comma);
    let y = parse_digits_lt8(&t, comma + 1, t.len());
    match (x, y) {
        (Some(a), Some(bb)) => Some((a, bb)),
        _ => None,
    }
}

/// Converts a string of the shape `x,y` (spaces allowed) into a pair of
/// coordinates below 8, or `None` when it has any other shape.
pub fn str_to_loc(s: &str) -> (r: Option<(u8, u8)>)
    ensures
        r == loc_parse(s.spec_bytes()),
{
    let b = s.as_bytes();
    let r = loc_from_bytes(b, 0, b.len());
    proof {
        assert(b@.subrange(0, b@.len() as int) =~= b@);
    }
    r
}

/// Replaying one more move applies it to the replay's end state.
pub proof fn lemma_replay_push(v: GameView, ms: Seq<Turn>, m: Turn)
    ensures
        replay(v, ms.push(m)) == (match replay(v, ms) {
            Some(e) => if move_legal(e, m) {
                Some(view_apply(e, m))
            } else {
                None
            },
            None => None,
        }),
    decreases ms.len(),
{
    let ext = ms.push(m);
    if ms.len() == 0 {
        assert(ext[0] == m);
        assert(ext.skip(1) =~= Seq::<Turn>::empty());
        assert(replay(v, ms) == Some(v));
        if move_legal(v, m) {
            assert(replay(view_apply(v, ext[0]), ext.skip(1)) == Some(view_apply(v, m)));
            assert(replay(v, ext) == Some(view_apply(v, m)));
        } else {
            assert(replay(v, ext) is None);
        }
    } else {
        assert(ext[0] == ms[0]);
        assert(ext.skip(1) =~= ms.skip(1).push(m));
        if move_legal(v, ms[0]) {
            lemma_replay_push(view_apply(v, ms[0]), ms.skip(1), m);
            assert(replay(v, ext) == replay(view_apply(v, ms[0]), ext.skip(1)));
            assert(replay(v, ms) == replay(view_apply(v, ms[0]), ms.skip(1)));
        } else {
            assert(replay(v, ext) is None);
            assert(replay(v, ms) is None);
        }
    }
}

/// The number of game states reachable from `v` by legal play, `v`
/// itself included.  Finite: every legal move strictly shrinks the game
/// measure.
pub open spec fn game_tree_size(v: GameView) -> nat
    decreases game_measure(v), 1int, 0int,
        when view_wf(v)
{
    1 + moves_tree_size(v, legal_seq(v))
}

/// The combined number of states reachable through each of the moves
/// `ms` from `v`.
pub open spec fn moves_tree_size(v: GameView, ms: Seq<Turn>) -> nat
    decreases game_measure(v), 0int, ms.len(),
        when view_wf(v) && (forall|i: int| 0 <= i < ms.len() ==> move_legal(v, #[trigger] ms[i]))
        via moves_tree_size_decreases
{
    if ms.len() == 0 {
        0
    } else {
        game_tree_size(view_apply(v, ms[0])) + moves_tree_size(v, ms.skip(1))
    }
}

#[via_fn]
proof fn moves_tree_size_decreases(v: GameView, ms: Seq<Turn>) {
    if view_wf(v) && (forall|i: int| 0 <= i < ms.len() ==> move_legal(v, #[trigger] ms[i]))
        && ms.len() > 0 {
        lemma_apply_wf(v, ms[0]);
    }
}

/// The legal-move list never repeats a move.
pub proof fn lemma_legal_seq_no_dup(v: GameView)
    ensures
        legal_seq(v).no_duplicates(),
{
    let p = turn_player(v.turn);
    if has_any_move(v.board, p) {
        crate::mechanics::lemma_coord_moves_no_dup(v.board, p, 0);
        let s = coord_moves(v.board, p, 0);
        let ms = s.map_values(|c: (u8, u8)| Some(c));
        assert forall|i: int, j: int|
            0 <= i < ms.len() && 0 <= j < ms.len() && i != j implies ms[i] != ms[j] by {
            assert(ms[i] == Some(s[i]) && ms[j] == Some(s[j]));
            assert(s[i] != s[j]);
        }
    }
}

/// Every move of the canonical legal list is legal.
pub proof fn lemma_legal_seq_all_legal(v: GameView)
    ensures
        forall|i: int| 0 <= i < legal_seq(v).len() ==> move_legal(v, #[trigger] legal_seq(v)[i]),
{
    lemma_legal_seq_contains(v);
    assert forall|i: int|
        0 <= i < legal_seq(v).len() implies move_legal(v, #[trigger] legal_seq(v)[i]) by {
        assert(legal_seq(v).contains(legal_seq(v)[i]));
    }
}

/// Appending a move to a sum of subtree sizes adds that move's subtree.
pub proof fn lemma_moves_tree_size_push(v: GameView, ms: Seq<Turn>, m: Turn)
    requires
        view_wf(v),
        forall|i: int| 0 <= i < ms.len() ==> move_legal(v, #[trigger] ms[i]),
        move_legal(v, m),
    ensures
        moves_tree_size(v, ms.push(m)) == moves_tree_size(v, ms) + game_tree_size(view_apply(v, m)),
    decreases ms.len(),
{
    let ext = ms.push(m);
    assert(forall|i: int| 0 <= i < ext.len() ==> move_legal(v, #[trigger] ext[i]));
    if ms.len() == 0 {
        assert(ext[0] == m);
        assert(ext.skip(1) =~= Seq::<Turn>::empty());
        lemma_apply_wf(v, ext[0]);
        assert(moves_tree_size(v, ext) == game_tree_size(view_apply(v, ext[0])) + moves_tree_size(
            v,
            ext.skip(1),
        ));
    } else {
        assert(ext[0] == ms[0]);
        assert(ext.skip(1) =~= ms.skip(1).push(m));
        lemma_apply_wf(v, ext[0]);
        lemma_moves_tree_size_push(v, ms.skip(1), m);
        assert(moves_tree_size(v, ext) == game_tree_size(view_apply(v, ext[0]))
            + moves_tree_size(v, ext.skip(1)));
        assert(moves_tree_size(v, ms) == game_tree_size(view_apply(v, ms[0])) + moves_tree_size(
            v,
            ms.skip(1),
        ));
    }
}

/// The number of stones move `m` flips in state `v` (0 for a pass).
pub open spec fn move_flips(v: GameView, m: Turn) -> nat {
    match m {
        None => 0,
        Some((x, y)) => crate::mechanics::flips_list(
            v.board.update(idx_of(x as int, y as int), States::Taken(turn_player(v.turn))),
            x as int,
            y as int,
            turn_player(v.turn),
            0,
        ).len(),
    }
}

/// Replaying a concatenation replays the two parts in order.
pub proof fn lemma_replay_append(v: GameView, a: Seq<Turn>, b: Seq<Turn>)
    ensures
        replay(v, a + b) == (match replay(v, a) {
            Some(e) => replay(e, b),
            None => None::<GameView>,
        }),
    decreases a.len(),
{
    let both = a + b;
    if a.len() == 0 {
        assert(both =~= b);
    } else {
        assert(both[0] == a[0]);
        assert(both.len() > 0);
        assert(both.skip(1) =~= a.skip(1) + b);
        if move_legal(v, a[0]) {
            lemma_replay_append(view_apply(v, a[0]), a.skip(1), b);
            assert(replay(v, both) == replay(view_apply(v, a[0]), both.skip(1)));
            assert(replay(v, a) == replay(view_apply(v, a[0]), a.skip(1)));
        } else {
            assert(replay(v, both) is None);
            assert(replay(v, a) is None);
        }
    }
}

/// The legal-move list holds exactly the legal moves.
pub proof fn lemma_legal_seq_contains(v: GameView)
    ensures
        forall|m: Turn| #[trigger] legal_seq(v).contains(m) <==> move_legal(v, m),
{
    let p = turn_player(v.turn);
    assert forall|m: Turn| #[trigger] legal_seq(v).contains(m) <==> move_legal(v, m) by {
        if has_any_move(v.board, p) {
            let s = coord_moves(v.board, p, 0);
            let ms = s.map_values(|c: (u8, u8)| Some(c));
            assert(ms.len() == s.len());
            match m {
                Some((x, y)) => {
                    lemma_coord_moves_contains(v.board, p, 0, x, y);
                    if s.contains((x, y)) {
                        let n = choose|n: int| 0 <= n < s.len() && s[n] == (x, y);
                        assert(ms[n] == m);
                        assert(ms.contains(m));
                    }
                    if ms.contains(m) {
                        let n = choose|n: int| 0 <= n < ms.len() && ms[n] == m;
                        assert(s[n] == (x, y));
                        assert(s.contains((x, y)));
                    }
                    if can_place(v.board, x as int, y as int, p) {
                        assert(x < 8 && y < 8);
                    }
                },
                None => {
                    if ms.contains(m) {
                        let n = choose|n: int| 0 <= n < ms.len() && ms[n] == m;
                        assert(ms[n] == Some(s[n]));
                    }
                },
            }
        } else if has_any_move(v.board, opponent(p)) {
            assert(legal_seq(v) == seq![None::<(u8, u8)>]);
            assert(legal_seq(v)[0] == None::<(u8, u8)>);
            match m {
                Some((x, y)) => {
                    if can_place(v.board, x as int, y as int, p) {
                        assert(has_any_move(v.board, p));
                    }
                    if legal_seq(v).contains(m) {
                        let n = choose|n: int| 0 <= n < 1 && legal_seq(v)[n] == m;
                        assert(false);
                    }
                },
                None => {
                    assert(legal_seq(v).contains(m));
                },
            }
        } else {
            match m {
                Some((x, y)) => {
                    if can_place(v.board, x as int, y as int, p) {
                        assert(has_any_move(v.board, p));
                    }
                },
                None => {},
            }
        }
    }
}

/// A side has a coordinate move exactly when its placement list is
/// non-empty.
pub proof fn lemma_has_any_iff_moves(b: Seq<States>, p: Players)
    ensures
        has_any_move(b, p) <==> coord_moves(b, p, 0).len() > 0,
{
    let s = coord_moves(b, p, 0);
    if s.len() > 0 {
        let c = s[0];
        assert(s.contains(c));
        lemma_coord_moves_contains(b, p, 0, c.0, c.1);
        assert(has_any_move(b, p));
    }
    if has_any_move(b, p) {
        let (x, y) = choose|x: int, y: int| can_place(b, x, y, p);
        assert(on_board(x, y));
        lemma_coord_moves_contains(b, p, 0, x as u8, y as u8);
        assert(s.contains((x as u8, y as u8)));
    }
}

/// The legal-move list is empty exactly in a terminal state.
pub proof fn lemma_terminal_iff_no_moves(v: GameView)
    ensures
        view_terminal(v) <==> legal_seq(v).len() == 0,
{
    let p = turn_player(v.turn);
    lemma_has_any_iff_moves(v.board, p);
    assert(opponent(p) == Players::Black || opponent(p) == Players::White);
    assert(p == Players::Black || p == Players::White);
}

/// Applying a legal move keeps the state well-formed and strictly shrinks
/// the measure.
pub proof fn lemma_apply_wf(v: GameView, m: Turn)
    requires
        view_wf(v),
        move_legal(v, m),
    ensures
        view_wf(view_apply(v, m)),
        game_measure(view_apply(v, m)) < game_measure(v),
{
    let p = turn_player(v.turn);
    let v2 = view_apply(v, m);
    match m {
        None => {
            // the opponent of a passer can move, so no second pass is
            // pending and the measure drops by one
            assert(turn_player(v.turn + 1) == opponent(p)) by {
                assert((v.turn + 1) % 2 != v.turn % 2);
            }
            assert(!pass_pending(v2));
        },
        Some((x, y)) => {
            let idx = idx_of(x as int, y as int);
            let b1 = v.board.update(idx, States::Taken(p));
            let b2 = board_after_flips(b1, x as int, y as int, p);
            assert(cell_at(v.board, x as int, y as int) == States::Empty);
            lemma_count_update(v.board, idx, States::Taken(p), States::Empty);
            assert(count_match(b1, States::Empty) + 1 == count_match(v.board, States::Empty));
            assert(b2.len() == 64);
            assert forall|i: int|
                0 <= i < 64 implies ((b2[i] == States::Empty) <==> (b1[i] == States::Empty)) by {
                if b2[i] != b1[i] {
                    lemma_flipped_was_opponent(b1, x as int, y as int, p, i % 8, i / 8);
                    assert(i == (i / 8) * 8 + i % 8);
                    assert(b1[i] == States::Taken(opponent(p)));
                }
            }
            lemma_count_pointwise(b2, b1, States::Empty);
        },
    }
}

/// Flip determinism: the transition is a function of the state and move
/// alone, so applying one move to two equal states yields byte-identical
/// boards.
pub proof fn lemma_flip_determinism(v1: GameView, v2: GameView, m: Turn)
    requires
        v1 == v2,
    ensures
        view_apply(v1, m) == view_apply(v2, m),
{
}

/// Pass exclusivity: when Pass is among the legal moves it is the only
/// one, and the opponent of the side to move has a coordinate move.
pub proof fn lemma_pass_exclusive(v: GameView)
    requires
        legal_seq(v).contains(None),
    ensures
        legal_seq(v) =~= seq![None::<(u8, u8)>],
        !has_any_move(v.board, turn_player(v.turn)),
        has_any_move(v.board, opponent(turn_player(v.turn))),
{
    lemma_legal_seq_contains(v);
    assert(move_legal(v, None));
}

/// Terminal closure: the legal-move list is empty exactly in a terminal
/// state, and in a terminal state every move is illegal.
pub proof fn lemma_terminal_closure(v: GameView)
    ensures
        view_terminal(v) <==> legal_seq(v).len() == 0,
        view_terminal(v) ==> forall|m: Turn| !move_legal(v, m),
{
    lemma_terminal_iff_no_moves(v);
    if view_terminal(v) {
        assert forall|m: Turn| !move_legal(v, m) by {
            let p = turn_player(v.turn);
            assert(p == Players::Black || p == Players::White);
            match m {
                Some((x, y)) => {
                    if can_place(v.board, x as int, y as int, p) {
                        assert(has_any_move(v.board, p));
                    }
                },
                None => {
                    assert(!has_any_move(v.board, opponent(p)));
                },
            }
        }
    }
}

/// Score bounds: the score is at most the number of stones on the board,
/// which is at most 64.
pub proof fn lemma_score_bounds(b: Seq<States>)
    requires
        board_len_ok(b),
    ensures
        score_spec(b) <= count_match(b, States::Taken(Players::Black)) + count_match(
            b,
            States::Taken(Players::White),
        ),
        -(count_match(b, States::Taken(Players::Black)) + count_match(
            b,
            States::Taken(Players::White),
        ) as int) <= score_spec(b),
        count_match(b, States::Taken(Players::Black)) + count_match(
            b,
            States::Taken(Players::White),
        ) <= 64,
{
    crate::mechanics::lemma_count_pair_le_len(
        b,
        States::Taken(Players::Black),
        States::Taken(Players::White),
    );
}

/// A representation of the game state: the board plus the half-move
/// counter.
#[derive(Debug)]
pub struct Gamestate {
    board: Board,
    turn: u64,
}

impl View for Gamestate {
    type V = GameView;

    closed spec fn view(&self) -> GameView {
        GameView { board: self.board@, turn: self.turn as nat }
    }
}

impl Clone for Gamestate {
    /// Clones the state; the copy shows the same board and counter.
    fn clone(&self) -> (res: Self)
        ensures
            res@ == self@,
    {
        Gamestate { board: self.board.clone(), turn: self.turn }
    }
}

impl PartialEq for Gamestate {
    /// Two states are equal when their boards and counters agree.
    fn eq(&self, other: &Self) -> (r: bool) {
        self.board == other.board && self.turn == other.turn
    }
}

impl vstd::std_specs::cmp::PartialEqSpecImpl for Gamestate {
    open spec fn obeys_eq_spec() -> bool {
        true
    }

    open spec fn eq_spec(&self, other: &Self) -> bool {
        self@ == other@
    }
}

/// Equality test on moves.
pub fn turn_eq(a: Turn, b: Turn) -> (r: bool)
    ensures
        r == (a == b),
{
    match (a, b) {
        (None, None) => true,
        (Some((ax, ay)), Some((bx, by))) => ax == bx && ay == by,
        _ => false,
    }
}

/// Whether a move list holds the given move.
pub fn turns_contain(v: &Vec<Turn>, t: Turn) -> (r: bool)
    ensures
        r == v@.contains(t),
{
    let mut i: usize = 0;
    while i < v.len()
        invariant
            i <= v.len(),
            forall|j: int| 0 <= j < i ==> v@[j] != t,
        decreases v.len() - i,
    {
        if turn_eq(v[i], t) {
            return true;
        }
        i = i + 1;
    }
    false
}

impl Gamestate {
    /// The state is well-formed.
    pub open spec fn wf(&self) -> bool {
        view_wf(self@)
    }

    /// Constructs a new game state with the standard initial position.
    pub fn new() -> (g: Self)
        ensures
            g.wf(),
            g@ == init_view(),
    {
        let mut board = Board::new();
        board.change(3, 3, States::Taken(Players::White));
        board.change(4, 4, States::Taken(Players::White));
        board.change(4, 3, States::Taken(Players::Black));
        board.change(3, 4, States::Taken(Players::Black));
        let g = Gamestate { board, turn: 0 };
        proof {
            assert(g@.board =~= init_view().board);
            lemma_count_le_len(g@.board, States::Empty);
        }
        g
    }

    /// Constructs a game state with a given board and counter, for
    /// testing or simulation.
    pub fn new_from(board: Board, turn: u8) -> (g: Self)
        requires
            board.wf(),
        ensures
            g.wf(),
            g@.board == board@,
            g@.turn == turn as nat,
    {
        let g = Gamestate { board, turn: turn as u64 };
        proof {
            lemma_count_le_len(g@.board, States::Empty);
        }
        g
    }

    /// Generates the legal-move list of the current state.
    fn gen_moves(&self) -> (v: Vec<Turn>)
        requires
            self.wf(),
        ensures
            v@ == legal_seq(self@),
    {
        let ghost gv = self@;
        let p = if self.turn % 2 == 0 {
            Players::Black
        } else {
            Players::White
        };
        proof {
            assert(p == turn_player(gv.turn));
        }
        let coords = self.board.get_moves(p);
        proof {
            lemma_has_any_iff_moves(gv.board, p);
        }
        if coords.len() > 0 {
            let mut v: Vec<Turn> = Vec::new();
            let mut i: usize = 0;
            while i < coords.len()
                invariant
                    i <= coords.len(),
                    v@.len() == i,
                    forall|j: int| 0 <= j < i ==> v@[j] == Some(coords@[j]),
                decreases coords.len() - i,
            {
                v.push(Some(coords[i]));
                i = i + 1;
            }
            proof {
                assert(v@ =~= coords@.map_values(|c: (u8, u8)| Some(c)));
            }
            v
        } else {
            let q = match p {
                Players::Black => Players::White,
                Players::White => Players::Black,
            };
            proof {
                assert(q == opponent(p));
                lemma_has_any_iff_moves(gv.board, q);
            }
            let opp_coords = self.board.get_moves(q);
            if opp_coords.len() > 0 {
                let mut v: Vec<Turn> = Vec::new();
                v.push(None);
                proof {
                    assert(v@ =~= seq![None::<(u8, u8)>]);
                }
                v
            } else {
                Vec::new()
            }
        }
    }

    /// Returns the legal-move list (Pass included) of the current state.
    pub fn get_moves(&self) -> (v: Vec<Turn>)
        requires
            self.wf(),
        ensures
            v@ == legal_seq(self@),
    {
        self.gen_moves()
    }

    /// Returns whose turn it is, or `Empty` when the game is over.
    pub fn whose_turn(&self) -> (r: States)
        requires
            self.wf(),
        ensures
            r == (if view_terminal(self@) {
                States::Empty
            } else {
                States::Taken(turn_player(self@.turn))
            }),
    {
        proof {
            lemma_terminal_iff_no_moves(self@);
        }
        let moves = self.get_moves();
        if moves.len() == 0 {
            States::Empty
        } else {
            if self.turn % 2 == 0 {
                States::Taken(Players::Black)
            } else {
                States::Taken(Players::White)
            }
        }
    }

    /// Returns `true` exactly when the game is over: neither side has a
    /// coordinate move.
    pub fn is_terminal(&self) -> (r: bool)
        requires
            self.wf(),
        ensures
            r == view_terminal(self@),
    {
        proof {
            lemma_terminal_iff_no_moves(self@);
        }
        let moves = self.get_moves();
        moves.len() == 0
    }

    /// Returns the score of the current board: Black minus White stones.
    pub fn score(&self) -> (s: i8)
        requires
            self.wf(),
        ensures
            s == score_spec(self@.board),
            -64 <= s <= 64,
    {
        self.board.score()
    }

    /// Returns `true` exactly when the move is legal for the current
    /// player.
    pub fn valid_move(&self, m: Turn) -> (r: bool)
        requires
            self.wf(),
        ensures
            r == move_legal(self@, m),
    {
        proof {
            lemma_legal_seq_contains(self@);
        }
        let moves = self.get_moves();
        turns_contain(&moves, m)
    }

    /// Provides a shared reference to the underlying board.
    pub fn board(&self) -> (b: &Board)
        ensures
            b@ == self@.board,
    {
        &self.board
    }

    /// Applies the given move.  Returns the list of flipped cells when
    /// the move is legal (empty for a pass) and `None`, changing nothing,
    /// otherwise.
    pub fn make_move(&mut self, turn: Turn) -> (r: Option<Vec<(u8, u8)>>)
        requires
            old(self).wf(),
        ensures
            final(self).wf(),
            r.is_some() <==> move_legal(old(self)@, turn),
            r.is_some() ==> final(self)@ == view_apply(old(self)@, turn),
            r.is_none() ==> final(self)@ == old(self)@,
            r matches Some(f) ==> match turn {
                None => f@ == Seq::<(u8, u8)>::empty(),
                Some((x, y)) => f@ == crate::mechanics::flips_list(
                    old(self)@.board.update(
                        idx_of(x as int, y as int),
                        States::Taken(turn_player(old(self)@.turn)),
                    ),
                    x as int,
                    y as int,
                    turn_player(old(self)@.turn),
                    0,
                ),
            },
    {
        let ghost v0 = self@;
        if !self.valid_move(turn) {
            return None;
        }
        proof {
            lemma_apply_wf(v0, turn);
        }
        let p = if self.turn % 2 == 0 {
            Players::Black
        } else {
            Players::White
        };
        self.turn = self.turn + 1;
        match turn {
            Some((x, y)) => {
                self.board.change(x, y, States::Taken(p));
                let f = self.board.flip_all(x, y);
                proof {
                    assert(cell_at(
                        v0.board.update(idx_of(x as int, y as int), States::Taken(p)),
                        x as int,
                        y as int,
                    ) == States::Taken(p));
                    assert(self@.board =~= view_apply(v0, turn).board);
                    assert(self@ =~= view_apply(v0, turn));
                }
                Some(f)
            },
            None => {
                proof {
                    assert(self@ =~= view_apply(v0, turn));
                }
                Some(Vec::new())
            },
        }
    }

    /// Applies the given move without returning the flipped cells.
    /// Returns `true` exactly when the move was legal and applied.
    pub fn make_move_fast(&mut self, turn: Turn) -> (r: bool)
        requires
            old(self).wf(),
        ensures
            final(self).wf(),
            r == move_legal(old(self)@, turn),
            r ==> final(self)@ == view_apply(old(self)@, turn),
            !r ==> final(self)@ == old(self)@,
    {
        let ghost v0 = self@;
        if !self.valid_move(turn) {
            return false;
        }
        proof {
            lemma_apply_wf(v0, turn);
        }
        let p = if self.turn % 2 == 0 {
            Players::Black
        } else {
            Players::White
        };
        self.turn = self.turn + 1;
        match turn {
            Some((x, y)) => {
                self.board.change(x, y, States::Taken(p));
                self.board.flip_all_fast(x, y);
                proof {
                    assert(cell_at(
                        v0.board.update(idx_of(x as int, y as int), States::Taken(p)),
                        x as int,
                        y as int,
                    ) == States::Taken(p));
                    assert(self@.board =~= view_apply(v0, turn).board);
                    assert(self@ =~= view_apply(v0, turn));
                }
            },
            None => {
                proof {
                    assert(self@ =~= view_apply(v0, turn));
                }
            },
        }
        true
    }

    /// Applies a sequence of moves, stopping at the first illegal one.
    /// Returns `true` exactly when every move was legal; already-applied
    /// moves are not rolled back.
    pub fn make_moves_fast(&mut self, turns: &[Turn]) -> (r: bool)
        requires
            old(self).wf(),
        ensures
            final(self).wf(),
            r == replay(old(self)@, turns@).is_some(),
            final(self)@ == replay_stop(old(self)@, turns@),
            r ==> Some(final(self)@) == replay(old(self)@, turns@),
    {
        let ghost v0 = self@;
        proof {
            assert(turns@.skip(0) =~= turns@);
        }
        let mut i: usize = 0;
        while i < turns.len()
            invariant
                self.wf(),
                v0 == old(self)@,
                i <= turns@.len(),
                replay(v0, turns@) == replay(self@, turns@.skip(i as int)),
                replay_stop(v0, turns@) == replay_stop(self@, turns@.skip(i as int)),
            decreases turns.len() - i,
        {
            let ghost before = self@;
            let ghost rest = turns@.skip(i as int);
            proof {
                assert(rest[0] == turns@[i as int]);
                assert(rest.skip(1) =~= turns@.skip(i as int + 1));
            }
            if !self.make_move_fast(turns[i]) {
                proof {
                    assert(replay(before, rest) is None);
                    assert(replay_stop(before, rest) == before);
                }
                return false;
            }
            proof {
                assert(replay(before, rest) == replay(self@, rest.skip(1)));
                assert(replay_stop(before, rest) == replay_stop(self@, rest.skip(1)));
            }
            i = i + 1;
        }
        proof {
            assert(turns@.skip(turns@.len() as int) =~= Seq::<Turn>::empty());
        }
        true
    }
}

} // verus!
