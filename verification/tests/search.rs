use othello_mcts::agent::implementations::{
    BfsExpansion, BfsSelectionFast, GreedyAgent, McstMemoryAgent, RandomAgent, UctDecision,
    WinAverageDecision,
};
use othello_mcts::agent::Agent;
use othello_mcts::agent::{play_memory_agents, play_memory_agents_from, MemorifiedAgent};
use othello_mcts::gameplay::{Gamestate, Turn};
use othello_mcts::mcst::{
    CycleError, ExpansionError, McstAgent, McstTree, RolloutError, SelectionError,
    SelectionPolicy, ExpansionPolicy, DecisionPolicy,
};
use othello_mcts::mechanics::{Board, Players, States};

fn bfs_agent(game: Gamestate) -> McstAgent<BfsSelectionFast, BfsExpansion, UctDecision, RandomAgent>
{
    McstAgent::new(
        BfsSelectionFast::new(),
        BfsExpansion {},
        UctDecision {},
        RandomAgent::new(),
        RandomAgent::new(),
        game,
    )
}

#[test]
fn tree_accounting_after_k_cycles() {
    let mut agent = bfs_agent(Gamestate::new());
    for k in 1..=20u32 {
        assert_eq!(agent.cycle().unwrap(), true);
        assert_eq!(*agent.tree().root().total(), k);
    }
    // every node's count is at least the sum of its children's
    let root = agent.tree().root();
    let mut kids_total = 0u32;
    for (_, child) in root.children().iter() {
        kids_total += *child.total();
    }
    assert!(kids_total <= *root.total());
    assert!(*root.wins() <= *root.total());
}

#[test]
fn bfs_enumeration_at_depth_two() {
    let mut agent = bfs_agent(Gamestate::new());
    // four openings, then three replies under each
    for _ in 0..16 {
        assert_eq!(agent.cycle().unwrap(), true);
    }
    let root = agent.tree().root();
    assert_eq!(root.children().len(), 4);
    let mut grandchildren = 0;
    for (_, child) in root.children().iter() {
        grandchildren += child.children().len();
    }
    assert_eq!(grandchildren, 12);
    assert_eq!(root.node_count(), 17);
}

/// A position whose whole game tree has three states: Black must pass,
/// White plays (2,0), and the game is over.
fn tiny_game() -> Gamestate {
    let mut b = Board::new();
    b.change(0, 0, States::Taken(Players::White));
    b.change(1, 0, States::Taken(Players::Black));
    Gamestate::new_from(b, 0)
}

#[test]
fn bfs_selection_exhausts_small_game() {
    let mut agent = bfs_agent(tiny_game());
    let mut cycles = 0;
    loop {
        match agent.cycle() {
            Ok(true) => cycles += 1,
            Ok(false) => break,
            Err(e) => panic!("cycle failed: {:?}", e),
        }
        assert!(cycles < 100);
    }
    // all three reachable states were enumerated
    assert_eq!(agent.tree().root().node_count(), 3);
    assert_eq!(cycles, 2);
}

#[test]
fn backprop_touches_the_whole_path() {
    let mut agent = bfs_agent(tiny_game());
    // the first cycle expands the pass child: a path of length one, so
    // exactly two nodes count the rollout
    assert!(agent.cycle().unwrap());
    let root = agent.tree().root();
    assert_eq!(*root.total(), 1);
    assert_eq!(*root.search(&[None]).unwrap().total(), 1);
    // the second cycle expands below it: three nodes on the path now
    assert!(agent.cycle().unwrap());
    let root = agent.tree().root();
    assert_eq!(*root.total(), 2);
    assert_eq!(*root.search(&[None]).unwrap().total(), 2);
    assert_eq!(*root.search(&[None, Some((2, 0))]).unwrap().total(), 1);
}

#[test]
fn bfs_selection_repeats_until_expanded() {
    let mut sel = BfsSelectionFast::new();
    let tree = McstTree::new(Gamestate::new());
    // the unexpanded root is selected again and again until it gains a
    // child
    let p1 = sel.select(&tree).unwrap();
    let p2 = sel.select(&tree).unwrap();
    assert!(p1.is_empty());
    assert_eq!(p1, p2);
}

#[test]
fn search_follows_paths() {
    let mut agent = bfs_agent(tiny_game());
    assert!(agent.cycle().unwrap());
    let root = agent.tree().root();
    assert!(root.search(&[]).is_some());
    let below = root.search(&[None]).unwrap();
    assert_eq!(below.game().whose_turn(), States::Taken(Players::White));
    assert!(root.search(&[Some((0, 0))]).is_none());
    assert!(root.search(&[None, Some((5, 5))]).is_none());
}

#[test]
fn add_child_attaches_the_played_state() {
    let mut tree = McstTree::new(Gamestate::new());
    tree.add_child(&[], Some((4, 5)));
    let child = tree.root().search(&[Some((4, 5))]).unwrap();
    let mut expected = Gamestate::new();
    assert!(expected.make_move_fast(Some((4, 5))));
    assert_eq!(child.game(), &expected);
    assert_eq!(*child.total(), 0);
}

#[test]
fn decide_yields_a_legal_move() {
    let mut agent = bfs_agent(Gamestate::new());
    for _ in 0..30 {
        agent.cycle().unwrap();
    }
    let m = agent.decide().unwrap();
    assert!(Gamestate::new().valid_move(m));
}

#[test]
fn win_average_decision_prefers_visited_children() {
    let mut agent = McstAgent::new(
        BfsSelectionFast::new(),
        BfsExpansion {},
        WinAverageDecision {},
        RandomAgent::new(),
        RandomAgent::new(),
        Gamestate::new(),
    );
    for _ in 0..30 {
        agent.cycle().unwrap();
    }
    let m = agent.decide().unwrap();
    assert!(Gamestate::new().valid_move(m));
}

#[test]
fn rebasing_keeps_the_subtree() {
    let mut agent = bfs_agent(Gamestate::new());
    for _ in 0..40 {
        agent.cycle().unwrap();
    }
    // remember the statistics of one grandchild, then re-root to it
    let m1: Turn = Some((4, 5));
    let m2: Turn = {
        let c1 = agent.tree().root().search(&[m1]).unwrap();
        c1.children()[0].0
    };
    let kept = {
        let g = agent.tree().root().search(&[m1, m2]).unwrap();
        (*g.wins(), *g.total(), g.node_count(), g.game().clone())
    };
    assert!(agent.next_two_moves(m1, m2));
    let root = agent.tree().root();
    assert_eq!(*root.wins(), kept.0);
    assert_eq!(*root.total(), kept.1);
    assert_eq!(root.node_count(), kept.2);
    assert_eq!(root.game(), &kept.3);

    // the new root's game equals the old root's game with both moves applied
    let mut expected = Gamestate::new();
    assert!(expected.make_move_fast(m1));
    assert!(expected.make_move_fast(m2));
    assert_eq!(root.game(), &expected);
}

#[test]
fn rebasing_rejects_illegal_pairs() {
    let mut agent = bfs_agent(Gamestate::new());
    agent.cycle().unwrap();
    let before = *agent.tree().root().total();
    assert!(!agent.next_two_moves(Some((0, 0)), Some((1, 1))));
    assert_eq!(*agent.tree().root().total(), before);
}

struct LostSelector;

impl SelectionPolicy for LostSelector {
    fn select(&mut self, _tree: &McstTree) -> Option<Vec<Turn>> {
        Some(vec![Some((7, 7))])
    }
}

#[test]
fn invalid_selection_path_is_reported() {
    let mut agent = McstAgent::new(
        LostSelector,
        BfsExpansion {},
        UctDecision {},
        RandomAgent::new(),
        RandomAgent::new(),
        Gamestate::new(),
    );
    match agent.cycle() {
        Err(CycleError::Selection(SelectionError::NotANode(p))) => {
            assert_eq!(p, vec![Some((7, 7))]);
        },
        other => panic!("expected a selection error, got {:?}", other),
    }
}

struct ConstExpander(Turn);

impl ExpansionPolicy for ConstExpander {
    fn expand(&mut self, _tree: &McstTree, _path: &Vec<Turn>) -> Turn {
        self.0
    }
}

#[test]
fn illegal_expansion_is_reported() {
    let mut agent = McstAgent::new(
        BfsSelectionFast::new(),
        ConstExpander(Some((7, 7))),
        UctDecision {},
        RandomAgent::new(),
        RandomAgent::new(),
        Gamestate::new(),
    );
    match agent.cycle() {
        Err(CycleError::Expansion(ExpansionError::IllegalMove(m))) => {
            assert_eq!(m, Some((7, 7)));
        },
        other => panic!("expected an expansion error, got {:?}", other),
    }
}

#[test]
fn duplicate_expansion_is_reported() {
    let mut agent = McstAgent::new(
        BfsSelectionFast::new(),
        ConstExpander(Some((4, 5))),
        UctDecision {},
        RandomAgent::new(),
        RandomAgent::new(),
        Gamestate::new(),
    );
    assert_eq!(agent.cycle().unwrap(), true);
    match agent.cycle() {
        Err(CycleError::Expansion(ExpansionError::AlreadyExpanded(m))) => {
            assert_eq!(m, Some((4, 5)));
        },
        other => panic!("expected an expansion error, got {:?}", other),
    }
}

struct CornerAgent;

impl Agent for CornerAgent {
    fn make_move(&self, _state: &Gamestate) -> Turn {
        Some((0, 0))
    }
}

#[test]
fn illegal_rollout_move_is_reported() {
    let mut agent = McstAgent::new(
        BfsSelectionFast::new(),
        BfsExpansion {},
        UctDecision {},
        CornerAgent,
        CornerAgent,
        Gamestate::new(),
    );
    match agent.cycle() {
        Err(CycleError::Rollout(RolloutError::IllegalMove(history))) => {
            assert_eq!(history, vec![Some((0, 0))]);
        },
        other => panic!("expected a rollout error, got {:?}", other),
    }
    // the failed cycle left the tree untouched
    assert_eq!(*agent.tree().root().total(), 0);
    assert_eq!(agent.tree().root().children().len(), 0);
}

struct StuckDecider;

impl DecisionPolicy for StuckDecider {
    fn decide(&mut self, _tree: &McstTree) -> Turn {
        Some((0, 0))
    }
}

#[test]
fn illegal_decision_yields_none() {
    let mut agent = McstAgent::new(
        BfsSelectionFast::new(),
        BfsExpansion {},
        StuckDecider,
        RandomAgent::new(),
        RandomAgent::new(),
        Gamestate::new(),
    );
    agent.cycle().unwrap();
    assert_eq!(agent.decide(), None);
}

#[test]
fn greedy_agent_maximizes_flips() {
    let mut g = Gamestate::new();
    assert!(g.make_moves_fast(&[Some((4, 5)), Some((5, 3))]));
    let choice = GreedyAgent {}.make_move(&g);
    let flips_of = |m| {
        let mut c = g.clone();
        c.make_move(m).expect("legal move").len()
    };
    let chosen_flips = flips_of(choice);
    for m in g.get_moves().iter() {
        assert!(flips_of(*m) <= chosen_flips);
    }

    // from the initial position all four openings flip one stone; the
    // greedy tie-break takes the last one in scan order
    assert_eq!(GreedyAgent {}.make_move(&Gamestate::new()), Some((5, 4)));
}

#[test]
fn greedy_beats_the_board_to_the_end() {
    let mut a = MemorifiedAgent::new(GreedyAgent {});
    let mut b = MemorifiedAgent::new(RandomAgent::new());
    let (score, history) = play_memory_agents(&mut a, &mut b).expect("agents played legal moves");
    let mut replayed = Gamestate::new();
    assert!(replayed.make_moves_fast(&history));
    assert!(replayed.is_terminal());
    assert_eq!(replayed.score(), score);
}

#[test]
fn random_game_plays_to_the_end() {
    let mut a = MemorifiedAgent::new(RandomAgent::new());
    let mut b = MemorifiedAgent::new(RandomAgent::new());
    let (score, history) = play_memory_agents(&mut a, &mut b).expect("agents played legal moves");
    assert!(score >= -64 && score <= 64);
    assert!(history.len() >= 9);
    // the recorded history replays to a finished game with that score
    let mut replayed = Gamestate::new();
    assert!(replayed.make_moves_fast(&history));
    assert!(replayed.is_terminal());
    assert_eq!(replayed.score(), score);
}

#[test]
fn searching_memory_agents_play_a_game() {
    let mcst_a = McstMemoryAgent::new(bfs_agent(Gamestate::new()), 0);
    let mut a = mcst_a;
    let mut b = MemorifiedAgent::new(RandomAgent::new());
    let start = Gamestate::new();
    let (score, history) =
        play_memory_agents_from(&mut a, &mut b, start.clone()).expect("legal game");
    let mut replayed = start;
    assert!(replayed.make_moves_fast(&history));
    assert!(replayed.is_terminal());
    assert_eq!(replayed.score(), score);
}
