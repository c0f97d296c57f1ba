//! The agent interfaces: a stateless `Agent` picks a move for a given
//! state; a `MemoryAgent` carries information between turns.  The driver
//! that plays two memory agents against each other lives here too.

pub mod implementations;

use vstd::prelude::*;

use crate::gameplay::{
    game_measure, lemma_replay_push, move_legal, replay, view_apply, view_terminal, GameView,
    Gamestate, Turn,
};
use crate::mechanics::{score_spec, Players, States};

verus! {

/// The bare minimum needed to play: look at a state and produce a move.
/// Implementations are untrusted; callers validate the returned move.
pub trait Agent {
    /// Chooses a move for the given state.
    fn make_move(&self, state: &Gamestate) -> Turn
        requires
            state.wf(),
    ;
}

/// An agent that carries information from previous turns: it is told the
/// initial state and every opponent move, and produces its own moves.
/// Implementations are untrusted; callers validate the returned moves.
pub trait MemoryAgent {
    /// The agent's internal consistency condition.
    spec fn inv(&self) -> bool;

    /// Hands the agent the state the game starts from.
    fn initialize_game(&mut self, state: Gamestate)
        requires
            state.wf(),
        ensures
            final(self).inv(),
    ;

    /// Reports the opponent's latest move.
    fn opponent_move(&mut self, op: &Turn)
        requires
            old(self).inv(),
        ensures
            final(self).inv(),
    ;

    /// Asks the agent for its move.
    fn make_move(&mut self) -> (t: Turn)
        requires
            old(self).inv(),
        ensures
            final(self).inv(),
    ;
}

/// Wraps a stateless agent as a memory agent by tracking its own game
/// state.
pub struct MemorifiedAgent<A: Agent> {
    memory: Gamestate,
    agent: A,
}

impl<A: Agent> MemorifiedAgent<A> {
    /// The game state the agent tracks.
    pub closed spec fn game(&self) -> GameView {
        self.memory@
    }

    /// Wraps the given agent, starting from the standard initial state.
    pub fn new(agent: A) -> (r: Self)
        ensures
            r.inv(),
            r.game() == crate::gameplay::init_view(),
    {
        MemorifiedAgent { memory: Gamestate::new(), agent }
    }
}

impl<A: Agent> MemoryAgent for MemorifiedAgent<A> {
    /// The tracked game state is well-formed.
    closed spec fn inv(&self) -> bool {
        self.memory.wf()
    }

    /// Starts tracking from the given state.
    fn initialize_game(&mut self, state: Gamestate)
        ensures
            final(self).game() == state@,
    {
        self.memory = state;
    }

    /// Applies the opponent's move to the tracked state; an illegal one
    /// leaves the state unchanged (the driver has already rejected it).
    fn opponent_move(&mut self, op: &Turn)
        ensures
            final(self).game() == if move_legal(old(self).game(), *op) {
                view_apply(old(self).game(), *op)
            } else {
                old(self).game()
            },
    {
        self.memory.make_move_fast(*op);
    }

    /// Asks the wrapped agent for a move and applies it to the tracked
    /// state; an illegal one is returned unapplied for the driver to
    /// reject.
    fn make_move(&mut self) -> (t: Turn)
        ensures
            final(self).game() == if move_legal(old(self).game(), t) {
                view_apply(old(self).game(), t)
            } else {
                old(self).game()
            },
    {
        let t = self.agent.make_move(&self.memory);
        self.memory.make_move_fast(t);
        t
    }
}

/// The move list `hist`, replayed from `start`, reaches a finished game
/// with the given score.
pub open spec fn played_out(start: GameView, hist: Seq<Turn>, score: int) -> bool {
    match replay(start, hist) {
        Some(end) => view_terminal(end) && score == score_spec(end.board),
        None => false,
    }
}

/// Plays two memory agents against each other from the given state until
/// the game is over; whoever's turn it is at that state moves first.
/// Returns the final score and the move history, or `None` as soon as an
/// agent produces an illegal move.
pub fn play_memory_agents_from<A1: MemoryAgent, A2: MemoryAgent>(
    agent_black: &mut A1,
    agent_white: &mut A2,
    game: Gamestate,
) -> (r: Option<(i8, Vec<Turn>)>)
    requires
        game.wf(),
    ensures
        r matches Some(sh) ==> played_out(game@, sh.1@, sh.0 as int),
        view_terminal(game@) ==> (match r {
            Some(sh) => sh.1@ == Seq::<Turn>::empty() && sh.0 as int == score_spec(game@.board),
            None => false,
        }),
{
    let mut state = game;
    let mut history: Vec<Turn> = Vec::new();
    let black_first = match state.whose_turn() {
        States::Empty => {
            return Some((state.score(), Vec::new()));
        },
        States::Taken(Players::Black) => true,
        States::Taken(Players::White) => false,
    };
    if black_first {
        agent_black.initialize_game(state.clone());
        let first_move = agent_black.make_move();
        history.push(first_move);
        if !state.make_move_fast(first_move) {
            return None;
        }
        proof {
            lemma_replay_push(game@, Seq::empty(), first_move);
            assert(Seq::<Turn>::empty().push(first_move) =~= history@);
        }
        agent_white.initialize_game(state.clone());
    } else {
        agent_white.initialize_game(state.clone());
        let first_move = agent_white.make_move();
        history.push(first_move);
        if !state.make_move_fast(first_move) {
            return None;
        }
        proof {
            lemma_replay_push(game@, Seq::empty(), first_move);
            assert(Seq::<Turn>::empty().push(first_move) =~= history@);
        }
        agent_black.initialize_game(state.clone());
    }
    loop
        invariant
            state.wf(),
            agent_black.inv(),
            agent_white.inv(),
            replay(game@, history@) == Some(state@),
        decreases game_measure(state@),
    {
        if state.is_terminal() {
            return Some((state.score(), history));
        }
        let player_move = match state.whose_turn() {
            States::Taken(Players::Black) => agent_black.make_move(),
            States::Taken(Players::White) => agent_white.make_move(),
            States::Empty => {
                proof {
                    assert(false);
                }
                None
            },
        };
        let ghost before = state@;
        if !state.make_move_fast(player_move) {
            return None;
        }
        proof {
            lemma_replay_push(game@, history@, player_move);
            crate::gameplay::lemma_apply_wf(before, player_move);
        }
        history.push(player_move);
        match state.whose_turn() {
            States::Taken(Players::Black) => agent_black.opponent_move(&player_move),
            States::Taken(Players::White) => agent_white.opponent_move(&player_move),
            States::Empty => (),
        }
    }
}

/// Plays two memory agents against each other from the standard initial
/// position.  Returns the final score and the move history, or `None` as
/// soon as an agent produces an illegal move.
pub fn play_memory_agents<A1: MemoryAgent, A2: MemoryAgent>(
    agent1: &mut A1,
    agent2: &mut A2,
) -> (r: Option<(i8, Vec<Turn>)>)
    ensures
        r matches Some(sh) ==> played_out(crate::gameplay::init_view(), sh.1@, sh.0 as int),
        view_terminal(crate::gameplay::init_view()) ==> (match r {
            Some(sh) => sh.1@ == Seq::<Turn>::empty() && sh.0 as int == score_spec(
                crate::gameplay::init_view().board,
            ),
            None => false,
        }),
{
    play_memory_agents_from(agent1, agent2, Gamestate::new())
}

} // verus!
