//! Data utilities around the core: the textual move-history codec, the
//! replay of a move list into the sequence of states it visits, a
//! breadth-first enumerator of all reachable game states, and the
//! extraction of visit statistics from a search tree.

use std::collections::HashMap;
use std::collections::VecDeque;

use vstd::prelude::*;
use vstd::string::StringExecFns;
use vstd::string::StringSliceAdditionalSpecFns;

use crate::gameplay::{
    find_byte, init_view, legal_seq, lemma_apply_wf, lemma_legal_seq_contains, lemma_replay_push,
    loc_from_bytes, loc_parse, replay, view_apply, GameView, Gamestate, Turn,
};
use crate::mechanics::board_compact;
use crate::mcst::{node_model, node_wf, McstNode, NodeModel};

verus! {

broadcast use vstd::std_specs::hash::group_hash_axioms;

/// Parses the bytes `s[from..to]` as one history token: the empty token
/// is a pass, any other token must be a coordinate pair.
pub open spec fn token_parse(s: Seq<u8>, from: int, to: int) -> Option<Turn> {
    if from == to {
        Some(None)
    } else {
        match loc_parse(s.subrange(from, to)) {
            Some(l) => Some(Some(l)),
            None => None,
        }
    }
}

/// Parses the bytes from `start` on as a `;`-separated move history.
pub open spec fn turns_parse_from(s: Seq<u8>, start: int) -> Option<Seq<Turn>>
    decreases s.len() - start,
        via turns_parse_from_decreases
{
    if !(0 <= start <= s.len()) {
        None
    } else {
        let i = find_byte(s, 59, start);
        if i >= s.len() {
            match token_parse(s, start, s.len() as int) {
                Some(t) => Some(seq![t]),
                None => None,
            }
        } else {
            match (token_parse(s, start, i), turns_parse_from(s, i + 1)) {
                (Some(t), Some(rest)) => Some(seq![t] + rest),
                _ => None,
            }
        }
    }
}

#[via_fn]
proof fn turns_parse_from_decreases(s: Seq<u8>, start: int) {
    if 0 <= start <= s.len() {
        crate::gameplay::lemma_find_byte_bounds(s, 59, start);
    }
}

/// The textual form of a move history.
pub open spec fn turns_parse(s: Seq<u8>) -> Option<Seq<Turn>> {
    turns_parse_from(s, 0)
}

/// The character of a single board coordinate.
pub open spec fn digit_char(d: u8) -> char {
    if d == 0 {
        '0'
    } else if d == 1 {
        '1'
    } else if d == 2 {
        '2'
    } else if d == 3 {
        '3'
    } else if d == 4 {
        '4'
    } else if d == 5 {
        '5'
    } else if d == 6 {
        '6'
    } else {
        '7'
    }
}

/// The textual form of one move: `x,y` for a coordinate move, the empty
/// string for a pass.
pub open spec fn turn_chars(t: Turn) -> Seq<char> {
    match t {
        None => Seq::empty(),
        Some((x, y)) => seq![digit_char(x), ',', digit_char(y)],
    }
}

/// The textual form of a move history: the moves' forms joined by `;`.
pub open spec fn turns_string(ts: Seq<Turn>) -> Seq<char>
    decreases ts.len(),
{
    if ts.len() == 0 {
        Seq::empty()
    } else if ts.len() == 1 {
        turn_chars(ts[0])
    } else {
        turn_chars(ts[0]) + seq![';'] + turns_string(ts.skip(1))
    }
}

/// Appending a move appends a separator and the move's form.
pub proof fn lemma_turns_string_push(ts: Seq<Turn>, t: Turn)
    requires
        ts.len() >= 1,
    ensures
        turns_string(ts.push(t)) == turns_string(ts) + seq![';'] + turn_chars(t),
    decreases ts.len(),
{
    let ext = ts.push(t);
    assert(ext[0] == ts[0]);
    if ts.len() == 1 {
        assert(ext.skip(1) =~= seq![t]);
        assert(seq![t][0] == t);
        assert(turns_string(seq![t]) == turn_chars(t));
        assert(turns_string(ext) == turn_chars(ts[0]) + seq![';'] + turn_chars(t));
        assert(turns_string(ts) == turn_chars(ts[0]));
    } else {
        assert(ext.skip(1) =~= ts.skip(1).push(t));
        lemma_turns_string_push(ts.skip(1), t);
        assert(turns_string(ext) == turn_chars(ts[0]) + seq![';'] + (turns_string(ts.skip(1))
            + seq![';'] + turn_chars(t)));
        assert(turn_chars(ts[0]) + seq![';'] + (turns_string(ts.skip(1)) + seq![';'] + turn_chars(
            t,
        )) =~= (turn_chars(ts[0]) + seq![';'] + turns_string(ts.skip(1))) + seq![';'] + turn_chars(
            t,
        ));
    }
}

/// The one-character string of a single board coordinate.
fn digit_str(d: u8) -> (r: &'static str)
    requires
        d < 8,
    ensures
        r@ == seq![digit_char(d)],
{
    proof {
        reveal_strlit("0");
        reveal_strlit("1");
        reveal_strlit("2");
        reveal_strlit("3");
        reveal_strlit("4");
        reveal_strlit("5");
        reveal_strlit("6");
        reveal_strlit("7");
    }
    if d == 0 {
        "0"
    } else if d == 1 {
        "1"
    } else if d == 2 {
        "2"
    } else if d == 3 {
        "3"
    } else if d == 4 {
        "4"
    } else if d == 5 {
        "5"
    } else if d == 6 {
        "6"
    } else {
        "7"
    }
}

/// Renders a move history: coordinate moves as `x,y`, passes as empty
/// tokens, separated by `;`.
pub fn turns_to_str(turns: &[Turn]) -> (r: String)
    requires
        forall|i: int|
            0 <= i < turns@.len() ==> (#[trigger] turns@[i] matches Some(xy) ==> xy.0 < 8 && xy.1
                < 8),
    ensures
        r@ == turns_string(turns@),
{
    let mut s = String::new();
    let mut i: usize = 0;
    while i < turns.len()
        invariant
            i <= turns@.len(),
            forall|j: int|
                0 <= j < turns@.len() ==> (#[trigger] turns@[j] matches Some(xy) ==> xy.0 < 8
                    && xy.1 < 8),
            s@ == turns_string(turns@.subrange(0, i as int)),
        decreases turns@.len() - i,
    {
        let ghost pre = turns@.subrange(0, i as int);
        let ghost s_before = s@;
        if i > 0 {
            proof {
                reveal_strlit(";");
            }
            s.append(";");
        }
        match turns[i] {
            Some((x, y)) => {
                proof {
                    reveal_strlit(",");
                }
                s.append(digit_str(x));
                s.append(",");
                s.append(digit_str(y));
            },
            None => {},
        }
        proof {
            let t = turns@[i as int];
            let ext = turns@.subrange(0, i + 1);
            assert(ext =~= pre.push(t));
            if i == 0 {
                assert(pre =~= Seq::<Turn>::empty());
                assert(ext =~= seq![t]);
                assert(turns_string(ext) == turn_chars(t));
                match t {
                    Some((x, y)) => {
                        assert(s@ =~= seq![digit_char(x), ',', digit_char(y)]);
                    },
                    None => {
                        assert(s@ =~= Seq::<char>::empty());
                    },
                }
            } else {
                lemma_turns_string_push(pre, t);
                match t {
                    Some((x, y)) => {
                        assert(s@ =~= s_before + seq![';'] + seq![
                            digit_char(x),
                            ',',
                            digit_char(y),
                        ]);
                    },
                    None => {
                        assert(s@ =~= s_before + seq![';'] + Seq::<char>::empty());
                    },
                }
            }
            assert(s@ =~= turns_string(ext));
        }
        i = i + 1;
    }
    proof {
        assert(turns@.subrange(0, turns@.len() as int) =~= turns@);
    }
    s
}

/// Parses one history token.
fn parse_token(b: &[u8], from: usize, to: usize) -> (r: Option<Turn>)
    requires
        from <= to <= b@.len(),
    ensures
        r == token_parse(b@, from as int, to as int),
{
    if from == to {
        return Some(None);
    }
    match loc_from_bytes(b, from, to) {
        Some(l) => Some(Some(l)),
        None => None,
    }
}

/// Finds the first occurrence of `c` in `b` at or after `from`.
fn find_byte_in_slice(b: &[u8], c: u8, from: usize) -> (r: usize)
    requires
        from <= b@.len(),
    ensures
        r as int == find_byte(b@, c, from as int),
        from <= r <= b@.len(),
{
    let mut j = from;
    while j < b.len()
        invariant
            from <= j <= b@.len(),
            find_byte(b@, c, from as int) == find_byte(b@, c, j as int),
        decreases b@.len() - j,
    {
        if b[j] == c {
            return j;
        }
        j = j + 1;
    }
    j
}

/// Parses a `;`-separated move history; rejects any token that is
/// neither empty nor a coordinate pair.
pub fn str_to_turns(string: &str) -> (r: Option<Vec<Turn>>)
    ensures
        r is Some <==> turns_parse(string.spec_bytes()) is Some,
        r matches Some(v) ==> Some(v@) == turns_parse(string.spec_bytes()),
{
    let b = string.as_bytes();
    let mut acc: Vec<Turn> = Vec::new();
    let mut start: usize = 0;
    loop
        invariant
            start <= b@.len(),
            b@ == string.spec_bytes(),
            turns_parse(b@) == (match turns_parse_from(b@, start as int) {
                Some(rest) => Some(acc@ + rest),
                None => None::<Seq<Turn>>,
            }),
        decreases b@.len() - start,
    {
        proof {
            crate::gameplay::lemma_find_byte_bounds(b@, 59, start as int);
        }
        let semi = find_byte_in_slice(b, 59, start);
        if semi == b.len() {
            let tk = parse_token(b, start, b.len());
            match tk {
                Some(t) => {
                    proof {
                        assert(turns_parse_from(b@, start as int) == Some(seq![t]));
                        assert(acc@.push(t) =~= acc@ + seq![t]);
                    }
                    acc.push(t);
                    return Some(acc);
                },
                None => {
                    proof {
                        assert(turns_parse_from(b@, start as int) is None);
                    }
                    return None;
                },
            }
        } else {
            let tk = parse_token(b, start, semi);
            match tk {
                Some(t) => {
                    let ghost rest_opt = turns_parse_from(b@, semi + 1);
                    proof {
                        match rest_opt {
                            Some(r0) => {
                                assert(turns_parse_from(b@, start as int) == Some(seq![t] + r0));
                                assert(acc@ + (seq![t] + r0) =~= (acc@.push(t)) + r0);
                            },
                            None => {
                                assert(turns_parse_from(b@, start as int) is None);
                            },
                        }
                    }
                    acc.push(t);
                    start = semi + 1;
                },
                None => {
                    proof {
                        assert(turns_parse_from(b@, start as int) is None);
                    }
                    return None;
                },
            }
        }
    }
}

/// Replays a move list from the given state and collects every state it
/// visits, the starting state included.  Returns `None` exactly when
/// some move of the list is illegal where it occurs.
pub fn turns_to_game_seeded(turns: &[Turn], g: Gamestate) -> (r: Option<Vec<Gamestate>>)
    requires
        g.wf(),
    ensures
        r is Some <==> replay(g@, turns@) is Some,
        r matches Some(v) ==> v@.len() == turns@.len() + 1 && forall|i: int|
            0 <= i <= turns@.len() ==> replay(g@, turns@.subrange(0, i)) == Some(
                (#[trigger] v@[i])@,
            ),
{
    let mut cur = g.clone();
    let mut v: Vec<Gamestate> = Vec::new();
    v.push(cur.clone());
    proof {
        assert(turns@.subrange(0, 0) =~= Seq::<Turn>::empty());
    }
    let mut i: usize = 0;
    while i < turns.len()
        invariant
            cur.wf(),
            i <= turns@.len(),
            v@.len() == i + 1,
            replay(g@, turns@.subrange(0, i as int)) == Some(cur@),
            forall|j: int|
                0 <= j <= i ==> replay(g@, turns@.subrange(0, j)) == Some((#[trigger] v@[j])@),
        decreases turns@.len() - i,
    {
        let ghost before = cur@;
        let ghost pre = turns@.subrange(0, i as int);
        if !cur.make_move_fast(turns[i]) {
            proof {
                lemma_replay_push(g@, pre, turns@[i as int]);
                assert(pre.push(turns@[i as int]) =~= turns@.subrange(0, i + 1));
                crate::gameplay::lemma_replay_append(
                    g@,
                    turns@.subrange(0, i + 1),
                    turns@.skip(i + 1),
                );
                assert(turns@.subrange(0, i + 1) + turns@.skip(i + 1) =~= turns@);
            }
            return None;
        }
        proof {
            lemma_replay_push(g@, pre, turns@[i as int]);
            assert(pre.push(turns@[i as int]) =~= turns@.subrange(0, i + 1));
        }
        v.push(cur.clone());
        i = i + 1;
    }
    proof {
        assert(turns@.subrange(0, turns@.len() as int) =~= turns@);
    }
    Some(v)
}

/// Adds with a ceiling at the 64-bit maximum.
pub open spec fn sat_add64(a: u64, b: u64) -> u64 {
    if a + b > u64::MAX {
        u64::MAX
    } else {
        (a + b) as u64
    }
}

/// The (saturating) win and visit counters a report reads off a node.
pub open spec fn node_stats(m: NodeModel) -> (u64, u64) {
    (
        crate::agent::implementations::sat32(m.wins) as u64,
        crate::agent::implementations::sat32(m.total) as u64,
    )
}

/// Accumulates one node's counters into the table, keyed by the node's
/// compact board.
pub open spec fn stats_into(data: Map<u128, (u64, u64)>, m: NodeModel) -> Map<u128, (u64, u64)> {
    let k = board_compact(m.game.board) as u128;
    let e = if data.contains_key(k) {
        data[k]
    } else {
        (0u64, 0u64)
    };
    data.insert(k, (sat_add64(e.0, node_stats(m).0), sat_add64(e.1, node_stats(m).1)))
}

/// What reporting a node does to the table: a node visited at least 64
/// times contributes its counters and hands its children to the skipping
/// pass; any other node contributes nothing.
pub open spec fn report_model(m: NodeModel, data: Map<u128, (u64, u64)>) -> Map<u128, (u64, u64)>
    decreases m, 0int, 1int,
{
    if node_stats(m).1 >= 64 {
        skip_kids_model(m.kids, 0, stats_into(data, m))
    } else {
        data
    }
}

/// What skipping a node does to the table: a node visited at least 64
/// times hands its children to the reporting pass, so that the two
/// passes alternate level by level.
pub open spec fn skip_model(m: NodeModel, data: Map<u128, (u64, u64)>) -> Map<u128, (u64, u64)>
    decreases m, 0int, 1int,
{
    if node_stats(m).1 >= 64 {
        report_kids_model(m.kids, 0, data)
    } else {
        data
    }
}

/// Skips the children from index `i` on, left to right.
pub open spec fn skip_kids_model(
    kids: Seq<(Turn, NodeModel)>,
    i: int,
    data: Map<u128, (u64, u64)>,
) -> Map<u128, (u64, u64)>
    decreases kids, kids.len() - i, 0int,
{
    if i < 0 || i >= kids.len() {
        data
    } else {
        skip_kids_model(kids, i + 1, skip_model(kids[i].1, data))
    }
}

/// Reports the children from index `i` on, left to right.
pub open spec fn report_kids_model(
    kids: Seq<(Turn, NodeModel)>,
    i: int,
    data: Map<u128, (u64, u64)>,
) -> Map<u128, (u64, u64)>
    decreases kids, kids.len() - i, 0int,
{
    if i < 0 || i >= kids.len() {
        data
    } else {
        report_kids_model(kids, i + 1, report_model(kids[i].1, data))
    }
}

/// Adds with a ceiling at the 64-bit maximum.
fn sat_add64_exec(a: u64, b: u64) -> (r: u64)
    ensures
        r == sat_add64(a, b),
{
    if b > u64::MAX - a {
        u64::MAX
    } else {
        a + b
    }
}

/// Accumulates the win and visit counters of every node that collected
/// at least 64 rollouts, keyed by compact board, skipping alternate tree
/// levels so each position is counted for one side only.
pub fn mcst_node_report(node: &McstNode, data: &mut HashMap<u128, (u64, u64)>)
    requires
        node_wf(*node),
    ensures
        final(data)@ == report_model(node_model(*node), old(data)@),
    decreases *node, 0int,
{
    let ghost m = node_model(*node);
    let total = *node.total();
    if total >= 64 {
        let wins = *node.wins();
        let key = node.game().board().to_compact();
        let entry = match data.get(&key) {
            Some(e) => *e,
            None => (0u64, 0u64),
        };
        proof {
            assert(key as int == board_compact(m.game.board));
        }
        data.insert(
            key,
            (sat_add64_exec(entry.0, wins as u64), sat_add64_exec(entry.1, total as u64)),
        );
        let ghost d0 = data@;
        proof {
            assert(d0 == stats_into(old(data)@, m));
        }
        let kids = node.children();
        let mut i: usize = 0;
        while i < kids.len()
            invariant
                node_wf(*node),
                m == node_model(*node),
                kids@.len() == m.kids.len(),
                forall|a: int|
                    0 <= a < kids@.len() ==> node_model((#[trigger] kids@[a]).1) == m.kids[a].1
                        && node_wf(kids@[a].1) && decreases_to!(*node => kids@[a].1),
                i <= kids@.len(),
                skip_kids_model(m.kids, 0, d0) == skip_kids_model(m.kids, i as int, data@),
            decreases kids@.len() - i,
        {
            mcst_node_skip(&kids[i].1, data);
            i = i + 1;
        }
    }
}

/// Hands every heavily-visited child to the reporting pass without
/// counting this node itself.
pub fn mcst_node_skip(node: &McstNode, data: &mut HashMap<u128, (u64, u64)>)
    requires
        node_wf(*node),
    ensures
        final(data)@ == skip_model(node_model(*node), old(data)@),
    decreases *node, 1int,
{
    let ghost m = node_model(*node);
    let total = *node.total();
    if total >= 64 {
        let kids = node.children();
        let mut i: usize = 0;
        while i < kids.len()
            invariant
                node_wf(*node),
                m == node_model(*node),
                kids@.len() == m.kids.len(),
                forall|a: int|
                    0 <= a < kids@.len() ==> node_model((#[trigger] kids@[a]).1) == m.kids[a].1
                        && node_wf(kids@[a].1) && decreases_to!(*node => kids@[a].1),
                i <= kids@.len(),
                report_kids_model(m.kids, 0, old(data)@) == report_kids_model(
                    m.kids,
                    i as int,
                    data@,
                ),
            decreases kids@.len() - i,
        {
            mcst_node_report(&kids[i].1, data);
            i = i + 1;
        }
    }
}

/// The states reached by each legal move of a state, in move order.
pub open spec fn child_states(v: GameView) -> Seq<GameView> {
    legal_seq(v).map_values(|m: Turn| view_apply(v, m))
}

/// Enumerates every game state reachable from the standard initial
/// position, in breadth-first order: the initial state, then every state
/// one move in, and so on, siblings in move order.
pub struct BfsAllGamestates {
    queue: VecDeque<Gamestate>,
}

impl BfsAllGamestates {
    /// Every queued state is well-formed.
    pub closed spec fn wf(&self) -> bool {
        forall|i: int| 0 <= i < self.queue@.len() ==> (#[trigger] self.queue@[i]).wf()
    }

    /// The states waiting to be yielded, oldest first.
    pub closed spec fn frontier(&self) -> Seq<GameView> {
        self.queue@.map_values(|g: Gamestate| g@)
    }

    /// Creates an enumerator whose frontier holds the initial position.
    pub fn new() -> (s: Self)
        ensures
            s.wf(),
            s.frontier() =~= seq![init_view()],
    {
        let mut queue: VecDeque<Gamestate> = VecDeque::new();
        queue.push_back(Gamestate::new());
        let s = BfsAllGamestates { queue };
        proof {
            assert(s.frontier() =~= seq![init_view()]);
        }
        s
    }

    /// Yields the next state in breadth-first order: the front of the
    /// frontier leaves and its successors join at the back.  Returns
    /// `None` once the frontier is drained.
    pub fn next_state(&mut self) -> (r: Option<Gamestate>)
        requires
            old(self).wf(),
        ensures
            final(self).wf(),
            old(self).frontier().len() == 0 ==> r is None && final(self).frontier()
                == old(self).frontier(),
            old(self).frontier().len() > 0 ==> (r matches Some(g) && g@ == old(self).frontier()[0]
                && final(self).frontier() == old(self).frontier().skip(1) + child_states(
                old(self).frontier()[0],
            )),
    {
        let ghost q0 = self.queue@;
        let g = match self.queue.pop_front() {
            Some(g) => g,
            None => {
                proof {
                    assert(self.frontier() =~= old(self).frontier());
                }
                return None;
            },
        };
        proof {
            assert(g == q0[0]);
            assert(self.queue@ =~= q0.skip(1));
        }
        let ghost v = g@;
        let ghost base = self.queue@;
        let moves = g.get_moves();
        let mut i: usize = 0;
        while i < moves.len()
            invariant
                g.wf(),
                v == g@,
                q0 == old(self).queue@,
                q0.len() > 0,
                v == q0[0]@,
                base == q0.skip(1),
                moves@ == legal_seq(v),
                i <= moves@.len(),
                self.queue@.len() == base.len() + i,
                forall|j: int| 0 <= j < base.len() ==> self.queue@[j] == base[j],
                forall|j: int|
                    0 <= j < i ==> (#[trigger] self.queue@[base.len() + j])@ == view_apply(
                        v,
                        legal_seq(v)[j],
                    ) && self.queue@[base.len() + j].wf(),
                forall|j: int| 0 <= j < base.len() ==> (#[trigger] base[j]).wf(),
            decreases moves@.len() - i,
        {
            let mut child = g.clone();
            proof {
                lemma_legal_seq_contains(v);
                assert(legal_seq(v)[i as int] == moves@[i as int]);
                assert(legal_seq(v).contains(moves@[i as int]));
            }
            let ok = child.make_move_fast(moves[i]);
            proof {
                assert(ok);
                lemma_apply_wf(v, moves@[i as int]);
            }
            self.queue.push_back(child);
            i = i + 1;
        }
        proof {
            assert forall|j: int| 0 <= j < self.queue@.len() implies (
            #[trigger] self.queue@[j]).wf() by {
                if j < base.len() {
                    assert(self.queue@[j] == base[j]);
                } else {
                    let jj = j - base.len();
                    assert(self.queue@[base.len() + jj].wf());
                }
            }
            assert forall|j: int|
                0 <= j < self.queue@.len() implies (#[trigger] self.frontier()[j]) == (
            old(self).frontier().skip(1) + child_states(v))[j] by {
                if j < base.len() {
                    assert(self.queue@[j] == base[j]);
                    assert(old(self).frontier().skip(1)[j] == q0[j + 1]@);
                } else {
                    let jj = j - base.len();
                    assert(self.queue@[base.len() + jj]@ == view_apply(v, legal_seq(v)[jj]));
                    assert(child_states(v)[jj] == view_apply(v, legal_seq(v)[jj]));
                }
            }
            assert(self.frontier() =~= old(self).frontier().skip(1) + child_states(v));
        }
        Some(g)
    }
}

/// Replays a move list from the standard initial position and collects
/// every state it visits.
pub fn turns_to_game(turns: &[Turn]) -> (r: Option<Vec<Gamestate>>)
    ensures
        r is Some <==> replay(init_view(), turns@) is Some,
        r matches Some(v) ==> v@.len() == turns@.len() + 1 && forall|i: int|
            0 <= i <= turns@.len() ==> replay(init_view(), turns@.subrange(0, i)) == Some(
                (#[trigger] v@[i])@,
            ),
{
    turns_to_game_seeded(turns, Gamestate::new())
}

} // verus!
