//! The Monte Carlo search tree: nodes with visit statistics keyed by
//! moves, the tree with its root, the policy interfaces, and the agent
//! that runs the select / expand / roll out / back-propagate cycle.
//!
//! A node is modelled by `NodeModel`: its game view, exact (unbounded)
//! visit counts, the number of rollouts that stopped at the node, and the
//! models of its children.  The executable `u32` counters saturate; the
//! model counters never do, and the well-formedness invariant ties the
//! two together.

use vstd::prelude::*;

use crate::agent::Agent;
use crate::gameplay::{
    game_measure, game_tree_size, legal_seq, lemma_apply_wf, lemma_legal_seq_all_legal,
    lemma_legal_seq_contains, lemma_legal_seq_no_dup, lemma_moves_tree_size_push,
    lemma_replay_push, lemma_terminal_closure, lemma_terminal_iff_no_moves, move_legal,
    moves_tree_size, replay, turn_eq, view_apply, view_terminal, view_wf, GameView, Gamestate,
    Turn,
};
use crate::mechanics::{score_spec, Players, States};

verus! {

/// The mathematical content of a search-tree node.
#[verifier::ext_equal]
pub ghost struct NodeModel {
    /// The game state reached at this node.
    pub game: GameView,
    /// Rollouts through or at this node won by the root mover (exact).
    pub wins: nat,
    /// Rollouts through or at this node (exact).
    pub total: nat,
    /// Rollouts whose back-propagation ended at this node (exact).
    pub stops: nat,
    /// The explored children, keyed by the move that reaches them.
    pub kids: Seq<(Turn, NodeModel)>,
}

/// Sum of the exact visit counts of a child list.
pub open spec fn kids_total(kids: Seq<(Turn, NodeModel)>) -> nat
    decreases kids.len(),
{
    if kids.len() == 0 {
        0
    } else {
        kids_total(kids.drop_last()) + kids.last().1.total
    }
}

/// A child list holds the given move.
pub open spec fn kids_have(kids: Seq<(Turn, NodeModel)>, t: Turn) -> bool {
    exists|i: int| 0 <= i < kids.len() && kids[i].0 == t
}

/// The index of the given move in a child list.
pub open spec fn kid_index(kids: Seq<(Turn, NodeModel)>, t: Turn) -> int {
    choose|i: int| 0 <= i < kids.len() && kids[i].0 == t
}

/// The node reached from `m` by following `path` through child links.
pub open spec fn model_at(m: NodeModel, path: Seq<Turn>) -> Option<NodeModel>
    decreases path.len(),
{
    if path.len() == 0 {
        Some(m)
    } else if kids_have(m.kids, path[0]) {
        model_at(m.kids[kid_index(m.kids, path[0])].1, path.skip(1))
    } else {
        None
    }
}

/// Well-formedness of a node model: a well-formed game; no move keys two
/// children; every child is reached by a move legal in this node's game
/// and carries the state that move produces; and the visit count equals
/// the rollouts that stopped here plus those of all children.
pub open spec fn model_wf(m: NodeModel) -> bool
    decreases m,
{
    &&& view_wf(m.game)
    &&& m.wins <= m.total
    &&& m.total == m.stops + kids_total(m.kids)
    &&& forall|i: int, j: int|
        0 <= i < j < m.kids.len() ==> (#[trigger] m.kids[i]).0 != (#[trigger] m.kids[j]).0
    &&& forall|i: int|
        0 <= i < m.kids.len() ==> move_legal(m.game, (#[trigger] m.kids[i]).0) && m.kids[i].1.game
            == view_apply(m.game, m.kids[i].0)
    &&& forall|i: int| 0 <= i < m.kids.len() ==> model_wf((#[trigger] m.kids[i]).1)
}

/// The number of nodes of a model (the node itself and all descendants).
pub open spec fn model_size(m: NodeModel) -> nat
    decreases m,
{
    1 + kids_size(m.kids)
}

/// The number of nodes in all trees of a child list.
pub open spec fn kids_size(kids: Seq<(Turn, NodeModel)>) -> nat
    decreases kids,
{
    if kids.len() == 0 {
        0
    } else {
        kids_size(kids.drop_last()) + model_size(kids.last().1)
    }
}

/// A node model with the given game and no statistics or children.
pub open spec fn empty_model(g: GameView) -> NodeModel {
    NodeModel { game: g, wins: 0, total: 0, stops: 0, kids: Seq::empty() }
}

/// The model after recording one rollout along `path`: every node on the
/// path (the addressed node included) counts the rollout, and the final
/// node records that back-propagation stopped there.
pub open spec fn model_backprop(m: NodeModel, path: Seq<Turn>, win: bool) -> NodeModel
    decreases path.len(),
{
    let w: nat = if win {
        1nat
    } else {
        0nat
    };
    if path.len() == 0 {
        NodeModel { wins: m.wins + w, total: m.total + 1, stops: m.stops + 1, ..m }
    } else {
        let i = kid_index(m.kids, path[0]);
        NodeModel {
            wins: m.wins + w,
            total: m.total + 1,
            kids: m.kids.update(i, (path[0], model_backprop(m.kids[i].1, path.skip(1), win))),
            ..m
        }
    }
}

/// The model after attaching, to the node addressed by `path`, a fresh
/// child reached by `link`.
pub open spec fn model_attach(m: NodeModel, path: Seq<Turn>, link: Turn) -> NodeModel
    decreases path.len(),
{
    if path.len() == 0 {
        NodeModel { kids: m.kids.push((link, empty_model(view_apply(m.game, link)))), ..m }
    } else {
        let i = kid_index(m.kids, path[0]);
        NodeModel {
            kids: m.kids.update(i, (path[0], model_attach(m.kids[i].1, path.skip(1), link))),
            ..m
        }
    }
}

/// Updating one child changes the child-list visit sum exactly by the
/// difference at that child.
pub proof fn lemma_kids_total_update(kids: Seq<(Turn, NodeModel)>, i: int, p: (Turn, NodeModel))
    requires
        0 <= i < kids.len(),
    ensures
        kids_total(kids.update(i, p)) + kids[i].1.total == kids_total(kids) + p.1.total,
    decreases kids.len(),
{
    let k2 = kids.update(i, p);
    if i == kids.len() - 1 {
        assert(k2.drop_last() =~= kids.drop_last());
    } else {
        assert(k2.drop_last() =~= kids.drop_last().update(i, p));
        lemma_kids_total_update(kids.drop_last(), i, p);
    }
}

/// Appending a child adds its visit count to the child-list sum.
pub proof fn lemma_kids_total_push(kids: Seq<(Turn, NodeModel)>, p: (Turn, NodeModel))
    ensures
        kids_total(kids.push(p)) == kids_total(kids) + p.1.total,
{
    assert(kids.push(p).drop_last() =~= kids);
}

/// A single node in the Monte Carlo search tree.
pub struct McstNode {
    /// The children of this node, keyed by the move that reaches each.
    children: Vec<(Turn, McstNode)>,
    /// How many rollouts through or at this node were won (saturating).
    wins: u32,
    /// How many rollouts ran through or at this node (saturating).
    total: u32,
    /// Exact rollout count, never saturating.
    g_total: Ghost<nat>,
    /// Exact won-rollout count, never saturating.
    g_wins: Ghost<nat>,
    /// Exact count of rollouts whose back-propagation ended here.
    g_stops: Ghost<nat>,
    /// Game state at this node.
    game: Gamestate,
}

/// The model of a node: its exact counters and its children's models.
pub closed spec fn node_model(n: McstNode) -> NodeModel
    decreases n,
{
    NodeModel {
        game: n.game@,
        wins: n.g_wins@,
        total: n.g_total@,
        stops: n.g_stops@,
        kids: Seq::new(
            n.children@.len(),
            |i: int|
                if 0 <= i < n.children@.len() {
                    (n.children@[i].0, node_model(n.children@[i].1))
                } else {
                    arbitrary()
                },
        ),
    }
}

/// The executable counters follow the exact ones until they saturate.
pub closed spec fn node_counters_ok(n: McstNode) -> bool
    decreases n,
{
    &&& n.total == if n.g_total@ <= u32::MAX {
        n.g_total@
    } else {
        u32::MAX as nat
    }
    &&& n.wins == if n.g_wins@ <= u32::MAX {
        n.g_wins@
    } else {
        u32::MAX as nat
    }
    &&& n.g_wins@ <= n.g_total@
    &&& forall|i: int| 0 <= i < n.children@.len() ==> node_counters_ok((#[trigger] n.children@[i]).1)
}

/// Full well-formedness of a node: its model is well-formed and its
/// executable counters track the model.
pub open spec fn node_wf(n: McstNode) -> bool {
    model_wf(node_model(n)) && node_counters_ok(n)
}

impl McstNode {
    /// Creates a node with the given game state and no statistics.
    fn new(game: Gamestate) -> (n: Self)
        requires
            game.wf(),
        ensures
            node_wf(n),
            node_model(n) == (NodeModel {
                game: game@,
                wins: 0,
                total: 0,
                stops: 0,
                kids: Seq::empty(),
            }),
    {
        let n = McstNode {
            children: Vec::new(),
            wins: 0,
            total: 0,
            g_total: Ghost(0),
            g_wins: Ghost(0),
            g_stops: Ghost(0),
            game,
        };
        proof {
            assert(node_model(n).kids =~= Seq::<(Turn, NodeModel)>::empty());
            assert(node_model(n) =~= NodeModel {
                game: game@,
                wins: 0,
                total: 0,
                stops: 0,
                kids: Seq::empty(),
            });
        }
        n
    }

    /// The game state reached at this node.
    pub fn game(&self) -> (g: &Gamestate)
        ensures
            g@ == node_model(*self).game,
    {
        &self.game
    }

    /// The saturating count of won rollouts at or below this node.
    pub fn wins(&self) -> (w: &u32)
        requires
            node_wf(*self),
        ensures
            *w == if node_model(*self).wins <= u32::MAX {
                node_model(*self).wins
            } else {
                u32::MAX as nat
            },
    {
        &self.wins
    }

    /// The saturating count of rollouts at or below this node.
    pub fn total(&self) -> (t: &u32)
        requires
            node_wf(*self),
        ensures
            *t == if node_model(*self).total <= u32::MAX {
                node_model(*self).total
            } else {
                u32::MAX as nat
            },
    {
        &self.total
    }

    /// The explored children of this node, keyed by move.
    pub fn children(&self) -> (c: &Vec<(Turn, McstNode)>)
        ensures
            c@.len() == node_model(*self).kids.len(),
            forall|i: int|
                0 <= i < c@.len() ==> (#[trigger] c@[i]).0 == node_model(*self).kids[i].0
                    && node_model(c@[i].1) == node_model(*self).kids[i].1,
            node_wf(*self) ==> forall|i: int| 0 <= i < c@.len() ==> node_wf((#[trigger] c@[i]).1),
            forall|i: int| 0 <= i < c@.len() ==> decreases_to!(*self => (#[trigger] c@[i]).1),
    {
        proof {
            if node_wf(*self) {
                assert forall|i: int| 0 <= i < self.children@.len() implies node_wf(
                    (#[trigger] self.children@[i]).1,
                ) by {
                    assert(node_model(*self).kids[i].1 == node_model(self.children@[i].1));
                    assert(model_wf(node_model(*self).kids[i].1));
                }
            }
        }
        &self.children
    }

    /// The index of the child keyed by `t`, if one exists.
    fn find_child(&self, t: Turn) -> (r: Option<usize>)
        requires
            node_wf(*self),
        ensures
            match r {
                Some(i) => i < node_model(*self).kids.len() && node_model(*self).kids[i as int].0
                    == t && kids_have(node_model(*self).kids, t) && kid_index(
                    node_model(*self).kids,
                    t,
                ) == i as int,
                None => !kids_have(node_model(*self).kids, t),
            },
    {
        let ghost kids = node_model(*self).kids;
        let mut i: usize = 0;
        while i < self.children.len()
            invariant
                node_wf(*self),
                kids == node_model(*self).kids,
                i <= self.children@.len(),
                kids.len() == self.children@.len(),
                forall|j: int| 0 <= j < i ==> (#[trigger] kids[j]).0 != t,
            decreases self.children@.len() - i,
        {
            if turn_eq(self.children[i].0, t) {
                proof {
                    assert(kids[i as int].0 == t);
                    assert(kids_have(kids, t));
                    let w = kid_index(kids, t);
                    if w != i as int {
                        assert(kids[w].0 == t);
                        assert(false);
                    }
                }
                return Some(i);
            }
            i = i + 1;
        }
        proof {
            if kids_have(kids, t) {
                let w = kid_index(kids, t);
                assert(kids[w].0 == t);
                assert(false);
            }
        }
        None
    }

    /// Whether this node has a child for the given move.
    pub fn has_child(&self, t: Turn) -> (r: bool)
        requires
            node_wf(*self),
        ensures
            r == kids_have(node_model(*self).kids, t),
    {
        match self.find_child(t) {
            Some(_) => true,
            None => false,
        }
    }

    /// Follows `path` (from position `from` on) through child links and
    /// returns the addressed node, or `None` when the path leaves the
    /// tree.
    fn search_from(&self, path: &[Turn], from: usize) -> (r: Option<&McstNode>)
        requires
            node_wf(*self),
            from <= path@.len(),
        ensures
            match r {
                Some(n) => model_at(node_model(*self), path@.skip(from as int)) == Some(
                    node_model(*n),
                ) && node_wf(*n),
                None => model_at(node_model(*self), path@.skip(from as int)) is None,
            },
        decreases path@.len() - from,
    {
        proof {
            assert(path@.skip(from as int).len() == path@.len() - from);
        }
        if from == path.len() {
            proof {
                assert(path@.skip(from as int) =~= Seq::<Turn>::empty());
            }
            return Some(self);
        }
        let ghost rest = path@.skip(from as int);
        proof {
            assert(rest[0] == path@[from as int]);
            assert(rest.skip(1) =~= path@.skip(from as int + 1));
        }
        match self.find_child(path[from]) {
            Some(i) => {
                proof {
                    assert(node_model(*self).kids[i as int].1 == node_model(
                        self.children@[i as int].1,
                    ));
                    assert(model_wf(node_model(self.children@[i as int].1)));
                }
                self.children[i].1.search_from(path, from + 1)
            },
            None => None,
        }
    }

    /// Follows `path` through child links and returns the addressed
    /// node, or `None` when the path leaves the tree.
    pub fn search(&self, path: &[Turn]) -> (r: Option<&McstNode>)
        requires
            node_wf(*self),
        ensures
            match r {
                Some(n) => model_at(node_model(*self), path@) == Some(node_model(*n)) && node_wf(
                    *n,
                ),
                None => model_at(node_model(*self), path@) is None,
            },
    {
        proof {
            assert(path@.skip(0) =~= path@);
        }
        self.search_from(path, 0)
    }

    /// The number of nodes in the subtree rooted here, saturating at the
    /// machine word.
    pub fn node_count(&self) -> (c: usize)
        ensures
            c == if model_size(node_model(*self)) <= usize::MAX {
                model_size(node_model(*self))
            } else {
                usize::MAX as nat
            },
        decreases *self,
    {
        let mut c: usize = 1;
        let mut i: usize = 0;
        let ghost kids = node_model(*self).kids;
        while i < self.children.len()
            invariant
                kids == node_model(*self).kids,
                kids.len() == self.children@.len(),
                i <= self.children@.len(),
                c == if 1 + kids_size(kids.subrange(0, i as int)) <= usize::MAX {
                    1 + kids_size(kids.subrange(0, i as int))
                } else {
                    usize::MAX as nat
                },
            decreases self.children@.len() - i,
        {
            proof {
                assert(kids.subrange(0, i as int) =~= kids.subrange(0, i + 1).drop_last());
                assert(kids.subrange(0, i + 1).last() == kids[i as int]);
                assert(node_model(self.children@[i as int].1) == kids[i as int].1);
            }
            let sub = self.children[i].1.node_count();
            if sub > usize::MAX - c {
                c = usize::MAX;
            } else {
                c = c + sub;
            }
            i = i + 1;
        }
        proof {
            assert(kids.subrange(0, kids.len() as int) =~= kids);
        }
        c
    }

    /// Records one rollout on every node along `path` from position
    /// `from` on, the addressed node included.
    fn update_along(&mut self, path: &[Turn], from: usize, win: bool)
        requires
            node_wf(*old(self)),
            from <= path@.len(),
            model_at(node_model(*old(self)), path@.skip(from as int)) is Some,
        ensures
            node_wf(*final(self)),
            node_model(*final(self)) == model_backprop(
                node_model(*old(self)),
                path@.skip(from as int),
                win,
            ),
        decreases path@.len() - from,
    {
        let ghost m0 = node_model(*old(self));
        let ghost rest = path@.skip(from as int);
        proof {
            assert(rest.len() == path@.len() - from);
        }
        if from == path.len() {
            proof {
                assert(rest =~= Seq::<Turn>::empty());
            }
            self.total = if self.total < u32::MAX {
                self.total + 1
            } else {
                u32::MAX
            };
            if win {
                self.wins = if self.wins < u32::MAX {
                    self.wins + 1
                } else {
                    u32::MAX
                };
            }
            proof {
                self.g_total@ = self.g_total@ + 1;
                self.g_stops@ = self.g_stops@ + 1;
                if win {
                    self.g_wins@ = self.g_wins@ + 1;
                }
            }
            proof {
                assert(node_model(*self).kids =~= m0.kids);
                assert(node_model(*self) =~~= model_backprop(m0, rest, win));
            }
        } else {
            proof {
                assert(rest[0] == path@[from as int]);
                assert(rest.skip(1) =~= path@.skip(from as int + 1));
                assert(kids_have(m0.kids, rest[0]));
            }
            let i = match self.find_child(path[from]) {
                Some(i) => i,
                None => {
                    proof {
                        assert(false);
                    }
                    0
                },
            };
            let ghost gi = kid_index(m0.kids, rest[0]);
            proof {
                assert(gi == i as int);
                assert(m0.kids[gi].1 == node_model(self.children@[i as int].1));
                assert(model_wf(m0.kids[gi].1));
            }
            self.total = if self.total < u32::MAX {
                self.total + 1
            } else {
                u32::MAX
            };
            if win {
                self.wins = if self.wins < u32::MAX {
                    self.wins + 1
                } else {
                    u32::MAX
                };
            }
            proof {
                self.g_total@ = self.g_total@ + 1;
                if win {
                    self.g_wins@ = self.g_wins@ + 1;
                }
            }
            let ghost before_remove = self.children@;
            let mut pair = self.children.remove(i);
            pair.1.update_along(path, from + 1, win);
            self.children.insert(i, pair);
            proof {
                assert(self.children@ =~= before_remove.update(
                    i as int,
                    (before_remove[i as int].0, self.children@[i as int].1),
                ));
                let mfin = node_model(*self);
                let target = model_backprop(m0, rest, win);
                lemma_kids_total_update(
                    m0.kids,
                    gi,
                    (rest[0], model_backprop(m0.kids[gi].1, rest.skip(1), win)),
                );
                assert(mfin.kids =~~= m0.kids.update(
                    gi,
                    (rest[0], model_backprop(m0.kids[gi].1, rest.skip(1), win)),
                ));
                assert(mfin =~~= target);
                // well-formedness: only the updated child changed, and its
                // game is unchanged by back-propagation
                assert(model_backprop(m0.kids[gi].1, rest.skip(1), win).game == m0.kids[gi].1.game);
                assert forall|a: int|
                    0 <= a < mfin.kids.len() implies model_wf((#[trigger] mfin.kids[a]).1) by {
                    if a != gi {
                        assert(mfin.kids[a] == m0.kids[a]);
                    }
                }
                assert(model_wf(mfin));
                assert forall|a: int|
                    0 <= a < self.children@.len() implies node_counters_ok(
                    (#[trigger] self.children@[a]).1,
                ) by {
                    if a != i as int {
                        assert(self.children@[a] == before_remove[a]);
                        assert(node_counters_ok(old(self).children@[a].1));
                    }
                }
            }
        }
    }

    /// Attaches to the node addressed by `path` (from position `from`
    /// on) a fresh child reached by `link`.
    fn attach_at(&mut self, path: &[Turn], from: usize, link: Turn)
        requires
            node_wf(*old(self)),
            from <= path@.len(),
            model_at(node_model(*old(self)), path@.skip(from as int)) matches Some(t)
                && move_legal(t.game, link) && !kids_have(t.kids, link),
        ensures
            node_wf(*final(self)),
            node_model(*final(self)) == model_attach(
                node_model(*old(self)),
                path@.skip(from as int),
                link,
            ),
        decreases path@.len() - from,
    {
        let ghost m0 = node_model(*old(self));
        let ghost rest = path@.skip(from as int);
        proof {
            assert(rest.len() == path@.len() - from);
        }
        if from == path.len() {
            proof {
                assert(rest =~= Seq::<Turn>::empty());
                assert(move_legal(m0.game, link));
            }
            let mut g = self.game.clone();
            let ok = g.make_move_fast(link);
            proof {
                assert(ok);
                assert(g@ == view_apply(m0.game, link));
            }
            let child = McstNode::new(g);
            let ghost cm = node_model(child);
            self.children.push((link, child));
            proof {
                let mfin = node_model(*self);
                assert(mfin.kids =~~= m0.kids.push((link, empty_model(view_apply(m0.game, link)))));
                assert(mfin =~~= model_attach(m0, rest, link));
                lemma_kids_total_push(m0.kids, (link, cm));
                assert forall|a: int|
                    0 <= a < mfin.kids.len() implies model_wf((#[trigger] mfin.kids[a]).1) by {
                    if a < m0.kids.len() {
                        assert(mfin.kids[a] == m0.kids[a]);
                    }
                }
                assert forall|a: int, b: int|
                    0 <= a < b < mfin.kids.len() implies (#[trigger] mfin.kids[a]).0 != (
                #[trigger] mfin.kids[b]).0 by {
                    if b == m0.kids.len() {
                        assert(!kids_have(m0.kids, link));
                        if mfin.kids[a].0 == link {
                            assert(m0.kids[a].0 == link);
                            assert(kids_have(m0.kids, link));
                        }
                    }
                }
                assert(model_wf(mfin));
                assert forall|a: int|
                    0 <= a < self.children@.len() implies node_counters_ok(
                    (#[trigger] self.children@[a]).1,
                ) by {
                    if a < old(self).children@.len() {
                        assert(self.children@[a] == old(self).children@[a]);
                        assert(node_counters_ok(old(self).children@[a].1));
                    }
                }
            }
        } else {
            proof {
                assert(rest[0] == path@[from as int]);
                assert(rest.skip(1) =~= path@.skip(from as int + 1));
                assert(kids_have(m0.kids, rest[0]));
            }
            let i = match self.find_child(path[from]) {
                Some(i) => i,
                None => {
                    proof {
                        assert(false);
                    }
                    0
                },
            };
            let ghost gi = kid_index(m0.kids, rest[0]);
            proof {
                assert(gi == i as int);
                assert(m0.kids[gi].1 == node_model(self.children@[i as int].1));
                assert(model_wf(m0.kids[gi].1));
            }
            let ghost before_remove = self.children@;
            let mut pair = self.children.remove(i);
            pair.1.attach_at(path, from + 1, link);
            self.children.insert(i, pair);
            proof {
                assert(self.children@ =~= before_remove.update(
                    i as int,
                    (before_remove[i as int].0, self.children@[i as int].1),
                ));
                let sub = model_attach(m0.kids[gi].1, rest.skip(1), link);
                let mfin = node_model(*self);
                let target = model_attach(m0, rest, link);
                lemma_kids_total_update(m0.kids, gi, (rest[0], sub));
                assert(sub.total == m0.kids[gi].1.total) by {
                    lemma_attach_counts(m0.kids[gi].1, rest.skip(1), link);
                }
                assert(sub.game == m0.kids[gi].1.game) by {
                    lemma_attach_counts(m0.kids[gi].1, rest.skip(1), link);
                }
                assert(mfin.kids =~~= m0.kids.update(gi, (rest[0], sub)));
                assert(mfin =~~= target);
                assert forall|a: int|
                    0 <= a < mfin.kids.len() implies model_wf((#[trigger] mfin.kids[a]).1) by {
                    if a != gi {
                        assert(mfin.kids[a] == m0.kids[a]);
                    }
                }
                assert(model_wf(mfin));
                assert forall|a: int|
                    0 <= a < self.children@.len() implies node_counters_ok(
                    (#[trigger] self.children@[a]).1,
                ) by {
                    if a != i as int {
                        assert(self.children@[a] == before_remove[a]);
                        assert(node_counters_ok(old(self).children@[a].1));
                    }
                }
            }
        }
    }
}

/// Attaching a child leaves the addressed node's own counters and game
/// unchanged.
pub proof fn lemma_attach_counts(m: NodeModel, path: Seq<Turn>, link: Turn)
    ensures
        model_attach(m, path, link).total == m.total,
        model_attach(m, path, link).wins == m.wins,
        model_attach(m, path, link).stops == m.stops,
        model_attach(m, path, link).game == m.game,
{
}

/// The Monte Carlo search tree: a root node, owned exclusively.
pub struct McstTree {
    root: McstNode,
}

impl McstTree {
    /// The tree's root is well-formed.
    pub closed spec fn wf(&self) -> bool {
        node_wf(self.root)
    }

    /// The model of the whole tree.
    pub closed spec fn model(&self) -> NodeModel {
        node_model(self.root)
    }

    /// Creates a tree whose root carries the given game state.
    pub fn new(game: Gamestate) -> (t: Self)
        requires
            game.wf(),
        ensures
            t.wf(),
            t.model() == empty_model(game@),
    {
        McstTree { root: McstNode::new(game) }
    }

    /// The root node of the tree.
    pub fn root(&self) -> (r: &McstNode)
        ensures
            node_model(*r) == self.model(),
            self.wf() ==> node_wf(*r),
    {
        &self.root
    }

    /// Attaches, to the node addressed by `path`, a child reached by the
    /// move `link`.  The path must address a node, the move must be legal
    /// there, and no child for it may exist yet.
    pub fn add_child(&mut self, path: &[Turn], link: Turn)
        requires
            old(self).wf(),
            model_at(old(self).model(), path@) matches Some(t) && move_legal(t.game, link)
                && !kids_have(t.kids, link),
        ensures
            final(self).wf(),
            final(self).model() == model_attach(old(self).model(), path@, link),
    {
        proof {
            assert(path@.skip(0) =~= path@);
        }
        self.root.attach_at(path, 0, link);
    }
}

/// A trait for defining how nodes are selected during tree traversal.
/// Implementations are untrusted: the agent validates every returned
/// path.
pub trait SelectionPolicy {
    /// Selects a path to the node whose subtree should receive this
    /// iteration's work, or returns `None` to stop cycling.
    fn select(&mut self, tree: &McstTree) -> (r: Option<Vec<Turn>>)
        requires
            tree.wf(),
    ;

    /// Informs the selector of the two most recent real moves.
    fn turns_passed(&mut self, tree: &McstTree, turns: (Turn, Turn))
        requires
            tree.wf(),
    {
    }
}

/// A trait for defining which move the tree expands next.
/// Implementations are untrusted: the agent validates the returned move.
pub trait ExpansionPolicy {
    /// Chooses which move to expand from the node at the given path.
    fn expand(&mut self, tree: &McstTree, path: &Vec<Turn>) -> (t: Turn)
        requires
            tree.wf(),
    ;
}

/// A trait for deciding which move to play from the current root state.
/// Implementations are untrusted: the agent validates the returned move.
pub trait DecisionPolicy {
    /// Chooses the move to play based on the tree.
    fn decide(&mut self, tree: &McstTree) -> (t: Turn)
        requires
            tree.wf(),
    ;
}

/// Errors that can occur during a full search cycle.
#[derive(Debug)]
pub enum CycleError {
    Selection(SelectionError),
    Expansion(ExpansionError),
    Rollout(RolloutError),
}

/// Errors that can occur during the selection phase.
#[derive(Debug)]
pub enum SelectionError {
    /// The path given by the selection policy does not lead to a node.
    NotANode(Vec<Turn>),
}

/// Errors that can occur during the expansion phase.
#[derive(Debug)]
pub enum ExpansionError {
    /// The chosen move is illegal in the node's game state.
    IllegalMove(Turn),
    /// A child node for the chosen move already exists.
    AlreadyExpanded(Turn),
}

/// Errors that can occur during the rollout (simulation) phase.
#[derive(Debug)]
pub enum RolloutError {
    /// A move attempted during simulation was invalid.
    IllegalMove(Vec<Turn>),
}

/// Some terminal state is reachable from `s` by legal moves, and `end`
/// is such a state.
pub open spec fn rollout_reaches(s: GameView, end: GameView) -> bool {
    exists|ms: Seq<Turn>| replay(s, ms) == Some(end) && view_terminal(end)
}

/// The side `c` has strictly more stones than its opponent in `end`.
pub open spec fn mover_won(end: GameView, c: Players) -> bool {
    match c {
        Players::Black => score_spec(end.board) > 0,
        Players::White => score_spec(end.board) < 0,
    }
}

/// What one successful cycle does to the tree model: a path to an
/// existing node was selected; if that node was not terminal, a fresh
/// legal child was attached and the rollout ran below it; and one
/// rollout was recorded on every node along the final path.
pub open spec fn cycle_outcome(
    m0: NodeModel,
    mfin: NodeModel,
    path: Seq<Turn>,
    link: Option<Turn>,
    win: bool,
) -> bool {
    match link {
        None => model_at(m0, path) matches Some(t) && view_terminal(t.game) && mfin
            == model_backprop(m0, path, win),
        Some(l) => model_at(m0, path) matches Some(t) && move_legal(t.game, l) && !kids_have(
            t.kids,
            l,
        ) && mfin == model_backprop(model_attach(m0, path, l), path.push(l), win),
    }
}

/// After attaching a child at the end of `path`, the extended path
/// addresses the fresh child.
pub proof fn lemma_model_at_attach(m: NodeModel, path: Seq<Turn>, link: Turn)
    requires
        model_wf(m),
        model_at(m, path) is Some,
    ensures
        model_at(model_attach(m, path, link), path.push(link)) is Some,
    decreases path.len(),
{
    let ma = model_attach(m, path, link);
    let ext = path.push(link);
    if path.len() == 0 {
        assert(ext[0] == link);
        assert(ext.skip(1) =~= Seq::<Turn>::empty());
        let n = ma.kids.len() - 1;
        assert(ma.kids[n].0 == link);
        assert(kids_have(ma.kids, link));
        let i = kid_index(ma.kids, link);
        assert(model_at(ma.kids[i].1, ext.skip(1)) is Some);
    } else {
        assert(ext[0] == path[0]);
        assert(ext.skip(1) =~= path.skip(1).push(link));
        assert(kids_have(m.kids, path[0]));
        let i = kid_index(m.kids, path[0]);
        assert(model_wf(m.kids[i].1));
        lemma_model_at_attach(m.kids[i].1, path.skip(1), link);
        assert(ma.kids.len() == m.kids.len());
        assert(ma.kids[i].0 == path[0]);
        assert(kids_have(ma.kids, path[0]));
        let j = kid_index(ma.kids, path[0]);
        if j != i {
            assert(ma.kids[j].0 == m.kids[j].0);
            assert(false);
        }
        assert(ma.kids[i].1 == model_attach(m.kids[i].1, path.skip(1), link));
    }
}

/// Extending a path by one move steps from the addressed node to its
/// child for that move.
pub proof fn lemma_model_at_push(m: NodeModel, path: Seq<Turn>, t: Turn)
    ensures
        model_at(m, path.push(t)) == (match model_at(m, path) {
            Some(n) => if kids_have(n.kids, t) {
                Some(n.kids[kid_index(n.kids, t)].1)
            } else {
                None::<NodeModel>
            },
            None => None::<NodeModel>,
        }),
    decreases path.len(),
{
    let ext = path.push(t);
    if path.len() == 0 {
        assert(ext[0] == t);
        assert(ext.skip(1) =~= Seq::<Turn>::empty());
        assert(model_at(m, path) == Some(m));
        if kids_have(m.kids, t) {
            let i = kid_index(m.kids, t);
            assert(model_at(m.kids[i].1, ext.skip(1)) == Some(m.kids[i].1));
            assert(model_at(m, ext) == Some(m.kids[i].1));
        } else {
            assert(model_at(m, ext) is None);
        }
    } else {
        assert(ext[0] == path[0]);
        assert(ext.skip(1) =~= path.skip(1).push(t));
        if kids_have(m.kids, path[0]) {
            let i = kid_index(m.kids, path[0]);
            lemma_model_at_push(m.kids[i].1, path.skip(1), t);
            assert(model_at(m, ext) == model_at(m.kids[i].1, ext.skip(1)));
            assert(model_at(m, path) == model_at(m.kids[i].1, path.skip(1)));
        } else {
            assert(model_at(m, ext) is None);
            assert(model_at(m, path) is None);
        }
    }
}

/// The visit count of the node addressed by `path`, or 0 when the path
/// leaves the tree.
pub open spec fn total_at(m: NodeModel, path: Seq<Turn>) -> nat {
    match model_at(m, path) {
        Some(t) => t.total,
        None => 0,
    }
}

/// `q` addresses a node on the path `path` (itself included).
pub open spec fn is_prefix_of(q: Seq<Turn>, path: Seq<Turn>) -> bool {
    q.len() <= path.len() && q == path.subrange(0, q.len() as int)
}

/// Every node addressed within a well-formed tree is itself well-formed.
pub proof fn lemma_model_at_wf(m: NodeModel, path: Seq<Turn>)
    requires
        model_wf(m),
        model_at(m, path) is Some,
    ensures
        model_at(m, path) matches Some(t) && model_wf(t),
    decreases path.len(),
{
    if path.len() > 0 {
        let i = kid_index(m.kids, path[0]);
        assert(model_wf(m.kids[i].1));
        lemma_model_at_wf(m.kids[i].1, path.skip(1));
    }
}

/// Tree accounting: every node of a well-formed tree counts exactly the
/// rollouts that stopped at it plus the rollouts of all its children.
pub proof fn lemma_tree_accounting(m: NodeModel, path: Seq<Turn>)
    requires
        model_wf(m),
        model_at(m, path) is Some,
    ensures
        model_at(m, path) matches Some(t) && t.total == t.stops + kids_total(t.kids),
{
    lemma_model_at_wf(m, path);
}

/// Back-propagation depth: recording one rollout along a path of length
/// `L` increments the visit count of exactly the `L + 1` nodes addressed
/// by the path's prefixes, and leaves every other node's count
/// unchanged.
pub proof fn lemma_backprop_depth(m: NodeModel, path: Seq<Turn>, win: bool, q: Seq<Turn>)
    requires
        model_wf(m),
        model_at(m, path) is Some,
        model_at(m, q) is Some,
    ensures
        model_at(model_backprop(m, path, win), q) is Some,
        is_prefix_of(q, path) ==> total_at(model_backprop(m, path, win), q) == total_at(m, q) + 1,
        !is_prefix_of(q, path) ==> total_at(model_backprop(m, path, win), q) == total_at(m, q),
    decreases q.len(),
{
    let bp = model_backprop(m, path, win);
    if q.len() == 0 {
        assert(q =~= path.subrange(0, 0));
        assert(is_prefix_of(q, path));
        assert(bp.total == m.total + 1);
    } else {
        if is_prefix_of(q, path) {
            assert(q[0] == path.subrange(0, q.len() as int)[0]);
            assert(q[0] == path[0]);
        }
        assert(kids_have(m.kids, q[0]));
        let j = kid_index(m.kids, q[0]);
        if path.len() == 0 {
            assert(bp.kids == m.kids);
            assert(model_at(bp, q) == model_at(m, q));
        } else {
            let i = kid_index(m.kids, path[0]);
            let bpkid = model_backprop(m.kids[i].1, path.skip(1), win);
            assert(bp.kids =~= m.kids.update(i, (path[0], bpkid)));
            assert(bp.kids.len() == m.kids.len());
            assert(forall|a: int| 0 <= a < m.kids.len() ==> (#[trigger] bp.kids[a]).0 == m.kids[a].0);
            assert(kids_have(bp.kids, q[0])) by {
                assert(bp.kids[j].0 == q[0]);
            }
            let j2 = kid_index(bp.kids, q[0]);
            if j2 != j {
                assert(m.kids[j2].0 == bp.kids[j2].0);
                assert(false);
            }
            if q[0] == path[0] {
                if j != i {
                    assert(m.kids[j].0 == m.kids[i].0);
                    assert(false);
                }
                assert(model_at(m, q) == model_at(m.kids[i].1, q.skip(1)));
                assert(model_at(m, path) == model_at(m.kids[i].1, path.skip(1)));
                assert(model_wf(m.kids[i].1));
                lemma_backprop_depth(m.kids[i].1, path.skip(1), win, q.skip(1));
                assert(model_at(bp, q) == model_at(bpkid, q.skip(1)));
                if is_prefix_of(q, path) {
                    assert(q.skip(1) =~= path.skip(1).subrange(0, q.len() - 1));
                    assert(is_prefix_of(q.skip(1), path.skip(1)));
                } else {
                    if is_prefix_of(q.skip(1), path.skip(1)) {
                        assert(q =~= path.subrange(0, q.len() as int)) by {
                            assert(forall|a: int|
                                1 <= a < q.len() ==> q[a] == #[trigger] q.skip(1)[a - 1]);
                            assert(forall|a: int|
                                1 <= a < q.len() ==> path.skip(1).subrange(0, q.len() - 1)[a - 1]
                                    == path[a]);
                        }
                        assert(false);
                    }
                }
            } else {
                if is_prefix_of(q, path) {
                    assert(false);
                }
                if j == i {
                    assert(m.kids[j].0 == q[0] && m.kids[i].0 == path[0]);
                    assert(false);
                }
                assert(bp.kids[j] == m.kids[j]);
                assert(model_at(bp, q) == model_at(m.kids[j].1, q.skip(1)));
                assert(model_at(m, q) == model_at(m.kids[j].1, q.skip(1)));
            }
        }
    }
}

/// A well-formed tree's model is well-formed.
pub proof fn lemma_tree_wf_model(t: &McstTree)
    requires
        t.wf(),
    ensures
        model_wf(t.model()),
{
}

/// Attaching a fresh child under a legal move keeps the whole tree
/// well-formed.
pub proof fn lemma_attach_wf(m: NodeModel, path: Seq<Turn>, link: Turn)
    requires
        model_wf(m),
        model_at(m, path) matches Some(t) && move_legal(t.game, link) && !kids_have(t.kids, link),
    ensures
        model_wf(model_attach(m, path, link)),
    decreases path.len(),
{
    let ma = model_attach(m, path, link);
    if path.len() == 0 {
        let child = empty_model(view_apply(m.game, link));
        lemma_apply_wf(m.game, link);
        assert(model_wf(child));
        lemma_kids_total_push(m.kids, (link, child));
        assert forall|a: int, b: int|
            0 <= a < b < ma.kids.len() implies (#[trigger] ma.kids[a]).0 != (
        #[trigger] ma.kids[b]).0 by {
            if b == m.kids.len() {
                if ma.kids[a].0 == link {
                    assert(m.kids[a].0 == link);
                    assert(kids_have(m.kids, link));
                }
            }
        }
        assert forall|a: int| 0 <= a < ma.kids.len() implies model_wf((#[trigger] ma.kids[a]).1)
            && move_legal(ma.game, ma.kids[a].0) && ma.kids[a].1.game == view_apply(
            ma.game,
            ma.kids[a].0,
        ) by {
            if a < m.kids.len() {
                assert(ma.kids[a] == m.kids[a]);
            }
        }
    } else {
        let i = kid_index(m.kids, path[0]);
        assert(model_wf(m.kids[i].1));
        lemma_attach_wf(m.kids[i].1, path.skip(1), link);
        let sub = model_attach(m.kids[i].1, path.skip(1), link);
        lemma_attach_counts(m.kids[i].1, path.skip(1), link);
        lemma_kids_total_update(m.kids, i, (path[0], sub));
        assert(ma.kids =~= m.kids.update(i, (path[0], sub)));
        assert forall|a: int| 0 <= a < ma.kids.len() implies model_wf((#[trigger] ma.kids[a]).1)
            && move_legal(ma.game, ma.kids[a].0) && ma.kids[a].1.game == view_apply(
            ma.game,
            ma.kids[a].0,
        ) by {
            if a != i {
                assert(ma.kids[a] == m.kids[a]);
            }
        }
    }
}

/// Attaching a child somewhere leaves every node the old tree addressed
/// in place, with its visit count.
pub proof fn lemma_attach_preserves_at(m: NodeModel, path: Seq<Turn>, link: Turn, q: Seq<Turn>)
    requires
        model_wf(m),
        model_at(m, path) matches Some(t) && !kids_have(t.kids, link),
        model_at(m, q) is Some,
    ensures
        model_at(model_attach(m, path, link), q) is Some,
        total_at(model_attach(m, path, link), q) == total_at(m, q),
    decreases q.len(),
{
    let ma = model_attach(m, path, link);
    if q.len() == 0 {
        lemma_attach_counts(m, path, link);
    } else {
        assert(kids_have(m.kids, q[0]));
        let j = kid_index(m.kids, q[0]);
        if path.len() == 0 {
            // the fresh child joins at the end; existing links keep
            // their indices because the new move keys no existing child
            assert(ma.kids =~= m.kids.push((link, empty_model(view_apply(m.game, link)))));
            assert(q[0] != link) by {
                if q[0] == link {
                    assert(kids_have(m.kids, link));
                }
            }
            assert(ma.kids[j].0 == q[0]);
            assert(kids_have(ma.kids, q[0]));
            let j2 = kid_index(ma.kids, q[0]);
            if j2 != j {
                if j2 == m.kids.len() {
                    assert(ma.kids[j2].0 == link);
                } else {
                    assert(m.kids[j2].0 == q[0]);
                }
                assert(false);
            }
            assert(model_at(ma, q) == model_at(m.kids[j].1, q.skip(1)));
            assert(model_at(m, q) == model_at(m.kids[j].1, q.skip(1)));
        } else {
            let i = kid_index(m.kids, path[0]);
            let sub = model_attach(m.kids[i].1, path.skip(1), link);
            assert(ma.kids =~= m.kids.update(i, (path[0], sub)));
            assert(ma.kids[j].0 == q[0]);
            assert(kids_have(ma.kids, q[0]));
            let j2 = kid_index(ma.kids, q[0]);
            if j2 != j {
                assert(m.kids[j2].0 == ma.kids[j2].0);
                assert(false);
            }
            if q[0] == path[0] {
                if j != i {
                    assert(m.kids[j].0 == m.kids[i].0);
                    assert(false);
                }
                assert(model_wf(m.kids[i].1));
                lemma_attach_preserves_at(m.kids[i].1, path.skip(1), link, q.skip(1));
                assert(model_at(ma, q) == model_at(sub, q.skip(1)));
                assert(model_at(m, q) == model_at(m.kids[i].1, q.skip(1)));
            } else {
                if j == i {
                    assert(m.kids[j].0 == q[0] && m.kids[i].0 == path[0]);
                    assert(false);
                }
                assert(ma.kids[j] == m.kids[j]);
                assert(model_at(ma, q) == model_at(m.kids[j].1, q.skip(1)));
                assert(model_at(m, q) == model_at(m.kids[j].1, q.skip(1)));
            }
        }
    }
}

/// What one successful cycle does to each node of the old tree: the
/// visit count rises by one exactly on the nodes the cycle's final path
/// addresses — its prefixes, the root included — and stays unchanged on
/// every other node.
pub proof fn lemma_cycle_backprop_depth(
    m0: NodeModel,
    mfin: NodeModel,
    path: Seq<Turn>,
    link: Option<Turn>,
    win: bool,
    q: Seq<Turn>,
)
    requires
        model_wf(m0),
        cycle_outcome(m0, mfin, path, link, win),
        model_at(m0, q) is Some,
    ensures
        model_at(mfin, q) is Some,
        ({
            let full = match link {
                None => path,
                Some(l) => path.push(l),
            };
            &&& (is_prefix_of(q, full) ==> total_at(mfin, q) == total_at(m0, q) + 1)
            &&& (!is_prefix_of(q, full) ==> total_at(mfin, q) == total_at(m0, q))
        }),
{
    match link {
        None => {
            lemma_backprop_depth(m0, path, win, q);
        },
        Some(l) => {
            let ma = model_attach(m0, path, l);
            lemma_attach_wf(m0, path, l);
            lemma_model_at_attach(m0, path, l);
            lemma_attach_preserves_at(m0, path, l, q);
            lemma_backprop_depth(ma, path.push(l), win, q);
        },
    }
}

/// Nothing below this node remains to expand: every node of the subtree
/// is terminal or holds a child for each of its legal moves.
pub open spec fn model_saturated(m: NodeModel) -> bool
    decreases m,
{
    &&& (view_terminal(m.game) || m.kids.len() >= legal_seq(m.game).len())
    &&& forall|i: int| 0 <= i < m.kids.len() ==> model_saturated((#[trigger] m.kids[i]).1)
}

/// The path addresses a subtree with nothing left to expand, or no node
/// at all.
pub open spec fn path_saturated(m: NodeModel, p: Seq<Turn>) -> bool {
    match model_at(m, p) {
        Some(n) => model_saturated(n),
        None => true,
    }
}

/// Removing one child removes exactly its subtree from the size sum.
proof fn lemma_kids_size_remove(kids: Seq<(Turn, NodeModel)>, i: int)
    requires
        0 <= i < kids.len(),
    ensures
        kids_size(kids.remove(i)) + model_size(kids[i].1) == kids_size(kids),
    decreases kids.len(),
{
    let k2 = kids.remove(i);
    if i == kids.len() - 1 {
        assert(k2 =~= kids.drop_last());
    } else {
        assert(k2.drop_last() =~= kids.drop_last().remove(i));
        assert(k2.last() == kids.last());
        lemma_kids_size_remove(kids.drop_last(), i);
    }
}

/// Children with pairwise-distinct moves drawn from a duplicate-free
/// move list, at least as many as the moves, sum to the moves' combined
/// reachable-state count.
proof fn lemma_saturated_sum(v: GameView, kids: Seq<(Turn, NodeModel)>, ms: Seq<Turn>)
    requires
        view_wf(v),
        ms.no_duplicates(),
        forall|i: int, j: int|
            0 <= i < j < kids.len() ==> (#[trigger] kids[i]).0 != (#[trigger] kids[j]).0,
        forall|i: int| 0 <= i < kids.len() ==> ms.contains((#[trigger] kids[i]).0),
        kids.len() >= ms.len(),
        forall|i: int| 0 <= i < ms.len() ==> move_legal(v, #[trigger] ms[i]),
        forall|i: int|
            0 <= i < kids.len() ==> model_size((#[trigger] kids[i]).1) == game_tree_size(
                view_apply(v, kids[i].0),
            ),
    ensures
        kids_size(kids) == moves_tree_size(v, ms),
    decreases ms.len(),
{
    broadcast use vstd::seq_lib::seq_to_set_is_finite;

    if ms.len() == 0 {
        if kids.len() > 0 {
            assert(ms.contains(kids[0].0));
            assert(false);
        }
        assert(moves_tree_size(v, ms) == 0);
    } else {
        let last = ms.last();
        let msd = ms.drop_last();
        // the children's moves cover every listed move: their move set is
        // a subset of the move list's set of no smaller cardinality
        let turns = Seq::new(kids.len(), |i: int| kids[i].0);
        assert(turns.no_duplicates());
        turns.unique_seq_to_set();
        ms.unique_seq_to_set();
        assert forall|x: Turn| turns.to_set().contains(x) implies ms.to_set().contains(x) by {
            let i = choose|i: int| 0 <= i < turns.len() && turns[i] == x;
            assert(ms.contains(kids[i].0));
        }
        assert(turns.to_set().subset_of(ms.to_set()));
        vstd::set_lib::lemma_len_subset(turns.to_set(), ms.to_set());
        vstd::set_lib::lemma_subset_equality(turns.to_set(), ms.to_set());
        assert(ms.contains(last));
        assert(turns.to_set().contains(last));
        assert(turns.contains(last));
        let ki = choose|i: int| 0 <= i < turns.len() && turns[i] == last;
        assert(kids[ki].0 == last);
        let kids2 = kids.remove(ki);
        assert forall|i: int, j: int|
            0 <= i < j < kids2.len() implies (#[trigger] kids2[i]).0 != (
        #[trigger] kids2[j]).0 by {}
        assert forall|i: int| 0 <= i < kids2.len() implies msd.contains(
            (#[trigger] kids2[i]).0,
        ) by {
            let orig: int = if i < ki {
                i
            } else {
                i + 1
            };
            assert(kids2[i] == kids[orig]);
            assert(kids[orig].0 != last);
            assert(ms.contains(kids[orig].0));
            let j = choose|j: int| 0 <= j < ms.len() && ms[j] == kids[orig].0;
            assert(j < ms.len() - 1);
            assert(msd[j] == kids[orig].0);
        }
        assert(forall|i: int| 0 <= i < msd.len() ==> #[trigger] msd[i] == ms[i]);
        lemma_saturated_sum(v, kids2, msd);
        lemma_kids_size_remove(kids, ki);
        lemma_moves_tree_size_push(v, msd, last);
        assert(ms =~= msd.push(last));
    }
}

/// A subtree with nothing left to expand holds exactly one node for each
/// state reachable from its root: the shape breadth-first selection
/// leaves behind once its queue drains.
pub proof fn lemma_saturated_tree_size(m: NodeModel)
    requires
        model_wf(m),
        model_saturated(m),
    ensures
        model_size(m) == game_tree_size(m.game),
    decreases m,
{
    let v = m.game;
    let ms = legal_seq(v);
    lemma_legal_seq_all_legal(v);
    lemma_legal_seq_no_dup(v);
    lemma_legal_seq_contains(v);
    assert forall|i: int|
        0 <= i < ms.len() implies view_wf(view_apply(v, #[trigger] ms[i])) by {
        lemma_apply_wf(v, ms[i]);
    }
    if view_terminal(v) {
        lemma_terminal_iff_no_moves(v);
        lemma_terminal_closure(v);
        if m.kids.len() > 0 {
            assert(move_legal(v, m.kids[0].0));
            assert(false);
        }
        assert(moves_tree_size(v, ms) == 0);
    } else {
        assert(m.kids.len() >= ms.len());
        assert forall|i: int|
            0 <= i < m.kids.len() implies model_size((#[trigger] m.kids[i]).1) == game_tree_size(
            view_apply(v, m.kids[i].0),
        ) by {
            assert(model_wf(m.kids[i].1));
            assert(model_saturated(m.kids[i].1));
            lemma_saturated_tree_size(m.kids[i].1);
            assert(m.kids[i].1.game == view_apply(v, m.kids[i].0));
        }
        assert forall|i: int| 0 <= i < m.kids.len() implies ms.contains(
            (#[trigger] m.kids[i]).0,
        ) by {
            assert(move_legal(v, m.kids[i].0));
        }
        lemma_saturated_sum(v, m.kids, ms);
    }
    assert(game_tree_size(v) == 1 + moves_tree_size(v, ms));
}

/// The tree model after advancing the root by two real moves: the first
/// child and the grandchild are attached when missing, and the tree is
/// re-rooted at the grandchild, whose statistics are kept unchanged.
pub open spec fn rebase_target(m0: NodeModel, mv1: Turn, mv2: Turn) -> NodeModel {
    let ma = if kids_have(m0.kids, mv1) {
        m0
    } else {
        model_attach(m0, Seq::empty(), mv1)
    };
    let c1 = ma.kids[kid_index(ma.kids, mv1)].1;
    let mb = if kids_have(c1.kids, mv2) {
        ma
    } else {
        model_attach(ma, seq![mv1], mv2)
    };
    let c1b = mb.kids[kid_index(mb.kids, mv1)].1;
    c1b.kids[kid_index(c1b.kids, mv2)].1
}

/// A configurable search agent composed of modular policies for
/// selection, expansion, rollout and decision making.
pub struct McstAgent<S: SelectionPolicy, E: ExpansionPolicy, D: DecisionPolicy, R: Agent> {
    selector: S,
    expander: E,
    rollout: R,
    opponent: R,
    decider: D,
    tree: McstTree,
}

impl<S: SelectionPolicy, E: ExpansionPolicy, D: DecisionPolicy, R: Agent> McstAgent<S, E, D, R> {
    /// The agent's tree is well-formed.
    pub closed spec fn wf(&self) -> bool {
        self.tree.wf()
    }

    /// The model of the agent's tree.
    pub closed spec fn model(&self) -> NodeModel {
        self.tree.model()
    }

    /// Constructs an agent from the given policies and starting state.
    pub fn new(
        selector: S,
        expander: E,
        decider: D,
        rollout: R,
        opponent: R,
        game: Gamestate,
    ) -> (a: Self)
        requires
            game.wf(),
        ensures
            a.wf(),
            a.model() == empty_model(game@),
    {
        McstAgent { selector, expander, decider, rollout, opponent, tree: McstTree::new(game) }
    }

    /// The agent's search tree.
    pub fn tree(&self) -> (t: &McstTree)
        ensures
            t.model() == self.model(),
            self.wf() ==> t.wf(),
    {
        &self.tree
    }

    /// Plays random-policy moves from `start` until the game ends and
    /// reports whether the side `my_color` finished with more stones.
    /// The agents' moves are validated; an illegal one aborts the
    /// rollout.
    fn run_rollout(
        rollout: &R,
        opponent: &R,
        start: &Gamestate,
        first_mine: bool,
        my_color: Players,
    ) -> (r: Result<bool, RolloutError>)
        requires
            start.wf(),
        ensures
            r matches Ok(win) ==> exists|end: GameView|
                #[trigger] rollout_reaches(start@, end) && win == mover_won(end, my_color),
            view_terminal(start@) ==> (match r {
                Ok(win) => win == mover_won(start@, my_color),
                Err(_) => false,
            }),
    {
        let ghost s0 = start@;
        let mut game = start.clone();
        let mut my_turn = first_mine;
        let mut move_history: Vec<Turn> = Vec::new();
        let ghost ms: Seq<Turn> = Seq::empty();
        let mut ms = Ghost(ms);
        loop
            invariant
                game.wf(),
                s0 == start@,
                replay(s0, ms@) == Some(game@),
            decreases game_measure(game@),
        {
            proof {
                // a finished starting game never advances: no move is
                // legal in it, so the replay so far must be empty
                if view_terminal(s0) {
                    lemma_terminal_closure(s0);
                    if ms@.len() > 0 {
                        assert(move_legal(s0, ms@[0]));
                        assert(false);
                    }
                    assert(game@ == s0);
                }
            }
            if game.is_terminal() {
                let s = game.score();
                let win = match my_color {
                    Players::Black => s > 0,
                    Players::White => s < 0,
                };
                proof {
                    assert(rollout_reaches(s0, game@));
                    assert(win == mover_won(game@, my_color));
                }
                return Ok(win);
            }
            let mv = if my_turn {
                rollout.make_move(&game)
            } else {
                opponent.make_move(&game)
            };
            move_history.push(mv);
            let ghost before = game@;
            if !game.make_move_fast(mv) {
                return Err(RolloutError::IllegalMove(move_history));
            }
            proof {
                lemma_apply_wf(before, mv);
                lemma_replay_push(s0, ms@, mv);
                ms@ = ms@.push(mv);
            }
            my_turn = !my_turn;
        }
    }

    /// Performs one full cycle: selection, expansion, rollout,
    /// back-propagation.  Returns `Ok(false)` when the selector chose to
    /// stop (or the root game is already over) and `Ok(true)` after a
    /// successful cycle, which records exactly one new rollout at the
    /// root.  On any error the tree is unchanged.
    pub fn cycle(&mut self) -> (r: Result<bool, CycleError>)
        requires
            old(self).wf(),
        ensures
            final(self).wf(),
            final(self).model().game == old(self).model().game,
            r matches Ok(b) && !b ==> final(self).model() == old(self).model(),
            r matches Err(_) ==> final(self).model() == old(self).model(),
            r matches Ok(b) && b ==> final(self).model().total == old(self).model().total + 1
                && old(self).model().wins <= final(self).model().wins <= old(self).model().wins
                + 1 && exists|path: Seq<Turn>, link: Option<Turn>, win: bool|
                #[trigger] cycle_outcome(old(self).model(), final(self).model(), path, link, win),
            view_terminal(old(self).model().game) ==> (match r {
                Ok(b) => !b,
                Err(_) => false,
            }),
            r matches Err(e) ==> (match e {
                CycleError::Selection(SelectionError::NotANode(p)) => model_at(
                    old(self).model(),
                    p@,
                ) is None,
                CycleError::Expansion(ExpansionError::IllegalMove(l)) => exists|q: Seq<Turn>|
                    (#[trigger] model_at(old(self).model(), q)) matches Some(t) && !move_legal(
                        t.game,
                        l,
                    ),
                CycleError::Expansion(ExpansionError::AlreadyExpanded(l)) => exists|q: Seq<Turn>|
                    (#[trigger] model_at(old(self).model(), q)) matches Some(t) && kids_have(
                        t.kids,
                        l,
                    ),
                CycleError::Rollout(_) => true,
            }),
    {
        let ghost m0 = self.tree.model();
        let my_color = match self.tree.root().game().whose_turn() {
            States::Taken(c) => c,
            States::Empty => {
                return Ok(false);
            },
        };
        let path = match self.selector.select(&self.tree) {
            Some(p) => p,
            None => {
                return Ok(false);
            },
        };
        let ghost sel_path = path@;
        let node = match self.tree.root().search(path.as_slice()) {
            Some(n) => n,
            None => {
                return Err(CycleError::Selection(SelectionError::NotANode(path)));
            },
        };
        if node.game().is_terminal() {
            // nothing to expand below a finished game: score it directly
            let g = node.game().clone();
            let first_mine = path.len() % 2 == 0;
            let win = match Self::run_rollout(&self.rollout, &self.opponent, &g, first_mine, my_color) {
                Ok(w) => w,
                Err(e) => {
                    return Err(CycleError::Rollout(e));
                },
            };
            proof {
                assert(path@.skip(0) =~= path@);
            }
            self.tree.root.update_along(path.as_slice(), 0, win);
            proof {
                assert(self.tree.model() == model_backprop(m0, sel_path, win));
                assert(self.tree.model().total == m0.total + 1);
                assert(m0.wins <= self.tree.model().wins <= m0.wins + 1);
                assert(cycle_outcome(m0, self.tree.model(), sel_path, None, win));
                assert(exists|p: Seq<Turn>, l: Option<Turn>, w: bool|
                    cycle_outcome(m0, self.tree.model(), p, l, w));
            }
            return Ok(true);
        }
        let link = self.expander.expand(&self.tree, &path);
        if !node.game().valid_move(link) {
            proof {
                assert(model_at(m0, sel_path) matches Some(t) && !move_legal(t.game, link));
            }
            return Err(CycleError::Expansion(ExpansionError::IllegalMove(link)));
        }
        match node.find_child(link) {
            Some(_) => {
                proof {
                    assert(model_at(m0, sel_path) matches Some(t) && kids_have(t.kids, link));
                }
                return Err(CycleError::Expansion(ExpansionError::AlreadyExpanded(link)));
            },
            None => {},
        }
        // roll out from the would-be child before touching the tree, so
        // that a failing rollout leaves it unchanged
        let mut g = node.game().clone();
        let ok = g.make_move_fast(link);
        proof {
            assert(ok);
        }
        let first_mine = path.len() % 2 == 1;
        let win = match Self::run_rollout(&self.rollout, &self.opponent, &g, first_mine, my_color) {
            Ok(w) => w,
            Err(e) => {
                return Err(CycleError::Rollout(e));
            },
        };
        self.tree.add_child(path.as_slice(), link);
        let mut full_path = path;
        full_path.push(link);
        proof {
            lemma_model_at_attach(m0, sel_path, link);
            assert(full_path@ == sel_path.push(link));
            assert(full_path@.skip(0) =~= full_path@);
        }
        self.tree.root.update_along(full_path.as_slice(), 0, win);
        proof {
            lemma_attach_counts(m0, sel_path, link);
            assert(self.tree.model() == model_backprop(
                model_attach(m0, sel_path, link),
                sel_path.push(link),
                win,
            ));
            assert(self.tree.model().total == m0.total + 1);
            assert(m0.wins <= self.tree.model().wins <= m0.wins + 1);
            assert(cycle_outcome(m0, self.tree.model(), sel_path, Some(link), win));
            assert(exists|p: Seq<Turn>, l: Option<Turn>, w: bool|
                cycle_outcome(m0, self.tree.model(), p, l, w));
        }
        Ok(true)
    }

    /// Advances the tree to reflect the two moves that were actually
    /// played, replacing the root by the corresponding grandchild and
    /// dropping every sibling subtree.  Returns `false`, changing
    /// nothing, when the pair is not legal from the root state.
    pub fn next_two_moves(&mut self, mv1: Turn, mv2: Turn) -> (r: bool)
        requires
            old(self).wf(),
        ensures
            final(self).wf(),
            r == (move_legal(old(self).model().game, mv1) && move_legal(
                view_apply(old(self).model().game, mv1),
                mv2,
            )),
            !r ==> final(self).model() == old(self).model(),
            r ==> final(self).model() == rebase_target(old(self).model(), mv1, mv2)
                && final(self).model().game == view_apply(
                view_apply(old(self).model().game, mv1),
                mv2,
            ),
    {
        let ghost m0 = self.tree.model();
        let mut mvs: Vec<Turn> = Vec::new();
        mvs.push(mv1);
        mvs.push(mv2);
        let mut test = self.tree.root().game().clone();
        let both_legal = test.make_moves_fast(mvs.as_slice());
        proof {
            // unfold the two-step replay into the two legality facts
            let s = mvs@;
            let g0 = m0.game;
            assert(s.len() == 2 && s[0] == mv1 && s[1] == mv2);
            assert(s.skip(1).len() == 1 && s.skip(1)[0] == mv2);
            assert(s.skip(1).skip(1) =~= Seq::<Turn>::empty());
            if move_legal(g0, mv1) {
                let g1 = view_apply(g0, mv1);
                assert(replay(g0, s) == replay(g1, s.skip(1)));
                if move_legal(g1, mv2) {
                    let g2 = view_apply(g1, mv2);
                    assert(replay(g1, s.skip(1)) == replay(g2, s.skip(1).skip(1)));
                    assert(replay(g2, s.skip(1).skip(1)) == Some(g2));
                } else {
                    assert(replay(g1, s.skip(1)) is None);
                }
            } else {
                assert(replay(g0, s) is None);
            }
            assert(both_legal == (move_legal(g0, mv1) && move_legal(view_apply(g0, mv1), mv2)));
        }
        if !both_legal {
            return false;
        }
        // make sure the first child exists
        let have1 = match self.tree.root.find_child(mv1) {
            Some(_) => true,
            None => false,
        };
        if !have1 {
            let empty_path: Vec<Turn> = Vec::new();
            proof {
                assert(empty_path@ =~= Seq::<Turn>::empty());
                assert(model_at(m0, empty_path@) == Some(m0));
            }
            self.tree.add_child(empty_path.as_slice(), mv1);
        }
        let ghost ma = self.tree.model();
        proof {
            if !have1 {
                assert(ma == model_attach(m0, Seq::empty(), mv1));
                let n = ma.kids.len() - 1;
                assert(ma.kids[n].0 == mv1);
                assert(kids_have(ma.kids, mv1));
            }
            assert(ma.game == m0.game);
        }
        // make sure the grandchild exists
        let i1probe = match self.tree.root.find_child(mv1) {
            Some(i) => i,
            None => {
                proof {
                    assert(false);
                }
                0
            },
        };
        let ghost gi1 = kid_index(ma.kids, mv1);
        proof {
            assert(gi1 == i1probe as int);
            assert(model_wf(ma));
            assert(ma.kids[gi1].1.game == view_apply(ma.game, mv1));
            // the child at that index is itself a well-formed node
            assert(node_model(self.tree.root.children@[i1probe as int].1) == ma.kids[gi1].1);
            assert(model_wf(ma.kids[gi1].1));
            assert(node_counters_ok(self.tree.root.children@[i1probe as int].1));
        }
        let have2 = match self.tree.root.children[i1probe].1.find_child(mv2) {
            Some(_) => true,
            None => false,
        };
        if !have2 {
            let mut one_path: Vec<Turn> = Vec::new();
            one_path.push(mv1);
            proof {
                assert(one_path@ =~= seq![mv1]);
                assert(one_path@.skip(1) =~= Seq::<Turn>::empty());
                assert(one_path@[0] == mv1);
                assert(kids_have(ma.kids, one_path@[0]));
                assert(model_at(ma.kids[gi1].1, one_path@.skip(1)) == Some(ma.kids[gi1].1));
                assert(model_at(ma, one_path@) == model_at(
                    ma.kids[kid_index(ma.kids, one_path@[0])].1,
                    one_path@.skip(1),
                ));
                assert(model_at(ma, one_path@) == Some(ma.kids[gi1].1));
                assert(move_legal(ma.kids[gi1].1.game, mv2));
                assert(!kids_have(ma.kids[gi1].1.kids, mv2));
            }
            self.tree.add_child(one_path.as_slice(), mv2);
        }
        let ghost mb = self.tree.model();
        proof {
            if !have2 {
                assert(mb == model_attach(ma, seq![mv1], mv2));
                assert(seq![mv1].skip(1) =~= Seq::<Turn>::empty());
                assert(mb.kids.len() == ma.kids.len());
                assert(mb.kids[gi1].0 == mv1);
                assert(kids_have(mb.kids, mv1));
                assert forall|j: int| 0 <= j < mb.kids.len() && j != gi1 implies (
                #[trigger] mb.kids[j]) == ma.kids[j] by {}
            }
            let j1 = kid_index(mb.kids, mv1);
            if j1 != gi1 {
                assert(mb.kids[j1].0 == mb.kids[gi1].0);
                assert(false);
            }
            let c1 = mb.kids[gi1].1;
            if !have2 {
                assert(c1 == model_attach(ma.kids[gi1].1, Seq::empty(), mv2));
                let n = c1.kids.len() - 1;
                assert(c1.kids[n].0 == mv2);
                assert(kids_have(c1.kids, mv2));
            } else {
                assert(c1 == ma.kids[gi1].1);
                assert(kids_have(c1.kids, mv2));
            }
        }
        // extract the grandchild and make it the new root
        let i1 = match self.tree.root.find_child(mv1) {
            Some(i) => i,
            None => {
                proof {
                    assert(false);
                }
                0
            },
        };
        let ghost c1 = mb.kids[gi1].1;
        proof {
            assert(i1 as int == kid_index(mb.kids, mv1));
            assert(i1 as int == gi1);
            assert(node_model(self.tree.root.children@[i1 as int].1) == c1);
            assert(model_wf(c1));
            assert(node_counters_ok(self.tree.root.children@[i1 as int].1));
        }
        let mut pair1 = self.tree.root.children.remove(i1);
        proof {
            assert(node_model(pair1.1) == c1);
            assert(node_wf(pair1.1));
        }
        let i2 = match pair1.1.find_child(mv2) {
            Some(i) => i,
            None => {
                proof {
                    assert(false);
                }
                0
            },
        };
        let ghost gi2 = kid_index(c1.kids, mv2);
        proof {
            assert(gi2 == i2 as int);
            assert(node_model(pair1.1.children@[i2 as int].1) == c1.kids[gi2].1);
            assert(model_wf(c1.kids[gi2].1));
            assert(node_counters_ok(pair1.1.children@[i2 as int].1));
        }
        let pair2 = pair1.1.children.remove(i2);
        proof {
            assert(node_model(pair2.1) == c1.kids[gi2].1);
            assert(node_wf(pair2.1));
        }
        self.tree.root = pair2.1;
        proof {
            assert(self.tree.model() == rebase_target(m0, mv1, mv2));
            assert(c1.kids[gi2].1.game == view_apply(c1.game, mv2));
            assert(c1.game == view_apply(mb.game, mv1));
            assert(mb.game == m0.game);
            assert(self.tree.model().game == view_apply(view_apply(m0.game, mv1), mv2));
        }
        self.selector.turns_passed(&self.tree, (mv1, mv2));
        true
    }

    /// Resets the agent to search from the given state, dropping the old
    /// tree.  The selector is notified so stateful selectors reset their
    /// cursors.
    pub fn set_state(&mut self, game: Gamestate)
        requires
            game.wf(),
        ensures
            final(self).wf(),
            final(self).model() == empty_model(game@),
    {
        self.tree = McstTree::new(game);
        self.selector.turns_passed(&self.tree, (None, None));
    }

    /// Consults the decision policy and yields its move when that move
    /// is legal in the root game, and `None` otherwise.
    pub fn decide(&mut self) -> (r: Option<Turn>)
        requires
            old(self).wf(),
        ensures
            final(self).wf(),
            final(self).model() == old(self).model(),
            r matches Some(t) ==> move_legal(old(self).model().game, t),
    {
        let decision = self.decider.decide(&self.tree);
        if self.tree.root().game().valid_move(decision) {
            Some(decision)
        } else {
            None
        }
    }
}

/// Runs search cycles for five seconds of wall clock and reports roughly
/// how many tree nodes were generated per second.  The rate depends on
/// the machine and the clock, so nothing is promised of it; a failing
/// cycle or a stopping selector ends the run early.
pub fn benchmark<Sel: SelectionPolicy, Exp: ExpansionPolicy, Dec: DecisionPolicy, Roll: Agent>(
    agent: McstAgent<Sel, Exp, Dec, Roll>,
) -> (rate: usize)
    requires
        agent.wf(),
{
    let mut agent = agent;
    let t0 = crate::timing::now();
    let mut fuel: u64 = 0;
    loop
        invariant
            agent.wf(),
        decreases u64::MAX - fuel,
    {
        if fuel == u64::MAX {
            break;
        }
        fuel = fuel + 1;
        match agent.cycle() {
            Ok(true) => {
                if crate::timing::millis_of(&crate::timing::elapsed_of(&t0)) >= 5000 {
                    break;
                }
            },
            _ => {
                break;
            },
        }
    }
    let total_nodes = agent.tree().root().node_count();
    let elapsed = crate::timing::millis_of(&crate::timing::elapsed_of(&t0));
    let ms: u128 = if elapsed == 0 {
        1
    } else {
        elapsed
    };
    let rate: u128 = ((total_nodes as u128) * 1000 + ms / 2) / ms;
    if rate > usize::MAX as u128 {
        usize::MAX
    } else {
        rate as usize
    }
}

} // verus!
