//! Concrete agents and search policies: the random and greedy rollout
//! agents, breadth-first selection, first-unexpanded expansion, the two
//! decision rules, and the memory agent that drives a search between
//! real moves.

use std::collections::VecDeque;

use rand::seq::IndexedRandom;

use vstd::prelude::*;

use crate::agent::{Agent, MemoryAgent};
use crate::gameplay::{
    legal_seq, lemma_legal_seq_contains, lemma_terminal_iff_no_moves, move_flips, view_terminal,
    Gamestate, Turn,
};
use crate::mcst::{
    kid_index, kids_have, kids_size, model_at, model_saturated, model_size, model_wf, node_model,
    node_wf, path_saturated, lemma_model_at_push, lemma_model_at_wf, McstAgent, McstNode,
    McstTree, DecisionPolicy, ExpansionPolicy, NodeModel, SelectionPolicy,
};
use crate::timing::{elapsed_of, millis_of, now};

verus! {

/// Relies on rand::rng and rand::seq::IndexedRandom::choose: `choose`
/// returns `None` exactly on an empty slice, and otherwise some element
/// of the slice, picked by the thread-local generator.
#[verifier::external_body]
fn choose_turn(moves: &Vec<Turn>) -> (r: Option<Turn>)
    ensures
        r is Some <==> moves@.len() > 0,
        r matches Some(t) ==> moves@.contains(t),
{
    moves.as_slice().choose(&mut rand::rng()).copied()
}

/// An agent that plays a uniformly random legal move.
pub struct RandomAgent {}

impl RandomAgent {
    /// Constructs a new random agent.
    pub fn new() -> Self {
        RandomAgent {}
    }
}

impl Agent for RandomAgent {
    /// Chooses a random move from the list of legal moves; hands back a
    /// pass when the game is over (the caller rejects it).
    fn make_move(&self, state: &Gamestate) -> (t: Turn)
        ensures
            legal_seq(state@).len() > 0 ==> legal_seq(state@).contains(t),
    {
        let moves = state.get_moves();
        match choose_turn(&moves) {
            Some(t) => t,
            None => None,
        }
    }
}

/// An agent that plays the legal move flipping the most opponent stones.
pub struct GreedyAgent {}

impl GreedyAgent {
    /// The legal move that flips the most stones, the later move in scan
    /// order winning ties; `None` when the game is over.
    pub fn best_flip_move(state: &Gamestate) -> (r: Option<Turn>)
        requires
            state.wf(),
        ensures
            r is None <==> legal_seq(state@).len() == 0,
            r matches Some(t) ==> legal_seq(state@).contains(t),
            r matches Some(t) ==> exists|i: int|
                #![trigger legal_seq(state@)[i]]
                {
                    let ms = legal_seq(state@);
                    &&& 0 <= i < ms.len()
                    &&& ms[i] == t
                    &&& forall|j: int|
                        0 <= j < ms.len() ==> move_flips(state@, #[trigger] ms[j]) <= move_flips(
                            state@,
                            ms[i],
                        )
                    &&& forall|j: int|
                        i < j < ms.len() ==> move_flips(state@, #[trigger] ms[j]) < move_flips(
                            state@,
                            ms[i],
                        )
                },
    {
        proof {
            lemma_legal_seq_contains(state@);
        }
        let moves = state.get_moves();
        if moves.len() == 0 {
            return None;
        }
        proof {
            assert(legal_seq(state@).contains(moves@[0]));
        }
        let mut best: usize = 0;
        let mut best_flips: usize = flips_of(state, moves[0]);
        let mut i: usize = 1;
        while i < moves.len()
            invariant
                state.wf(),
                1 <= i <= moves@.len(),
                moves@ == legal_seq(state@),
                best < i,
                best_flips == move_flips(state@, moves@[best as int]),
                forall|j: int|
                    0 <= j < i ==> move_flips(state@, #[trigger] moves@[j]) <= best_flips,
                forall|j: int|
                    best < j < i ==> move_flips(state@, #[trigger] moves@[j]) < best_flips,
            decreases moves@.len() - i,
        {
            proof {
                lemma_legal_seq_contains(state@);
                assert(legal_seq(state@).contains(moves@[i as int]));
            }
            let f = flips_of(state, moves[i]);
            if f >= best_flips {
                best = i;
                best_flips = f;
            }
            i = i + 1;
        }
        proof {
            assert(legal_seq(state@).contains(moves@[best as int]));
        }
        Some(moves[best])
    }
}

impl Agent for GreedyAgent {
    /// Picks the legal move that flips the most stones; on a tie the
    /// later move in scan order wins.  Hands back a pass when the game
    /// is over (the caller rejects it).
    fn make_move(&self, state: &Gamestate) -> (t: Turn)
        ensures
            legal_seq(state@).len() == 0 ==> t is None,
            legal_seq(state@).len() > 0 ==> legal_seq(state@).contains(t) && exists|i: int|
                #![trigger legal_seq(state@)[i]]
                {
                    let ms = legal_seq(state@);
                    &&& 0 <= i < ms.len()
                    &&& ms[i] == t
                    &&& forall|j: int|
                        0 <= j < ms.len() ==> move_flips(state@, #[trigger] ms[j]) <= move_flips(
                            state@,
                            ms[i],
                        )
                    &&& forall|j: int|
                        i < j < ms.len() ==> move_flips(state@, #[trigger] ms[j]) < move_flips(
                            state@,
                            ms[i],
                        )
                },
    {
        match Self::best_flip_move(state) {
            Some(t) => t,
            None => None,
        }
    }
}

/// The number of stones the given legal move would flip.
fn flips_of(state: &Gamestate, t: Turn) -> (n: usize)
    requires
        state.wf(),
        crate::gameplay::move_legal(state@, t),
    ensures
        n == move_flips(state@, t),
{
    let mut copy = state.clone();
    match copy.make_move(t) {
        Some(f) => f.len(),
        None => 0,
    }
}

/// The weight of one queued path: the size of the subtree it addresses,
/// or nothing when it addresses no node.
pub open spec fn path_weight(m: NodeModel, p: Seq<Turn>) -> nat {
    match model_at(m, p) {
        Some(t) => model_size(t),
        None => 0,
    }
}

/// The combined weight of all queued paths.
pub open spec fn queue_weight(m: NodeModel, q: Seq<Seq<Turn>>) -> nat
    decreases q.len(),
{
    if q.len() == 0 {
        0
    } else {
        path_weight(m, q[0]) + queue_weight(m, q.skip(1))
    }
}

/// Appending a path adds its weight to the queue's.
pub proof fn lemma_queue_weight_push(m: NodeModel, q: Seq<Seq<Turn>>, p: Seq<Turn>)
    ensures
        queue_weight(m, q.push(p)) == queue_weight(m, q) + path_weight(m, p),
    decreases q.len(),
{
    let ext = q.push(p);
    if q.len() == 0 {
        assert(ext[0] == p);
        assert(ext.skip(1) =~= Seq::<Seq<Turn>>::empty());
        assert(queue_weight(m, ext.skip(1)) == 0);
        assert(queue_weight(m, ext) == path_weight(m, p) + queue_weight(m, ext.skip(1)));
        assert(queue_weight(m, q) == 0);
    } else {
        assert(ext[0] == q[0]);
        assert(ext.skip(1) =~= q.skip(1).push(p));
        lemma_queue_weight_push(m, q.skip(1), p);
        assert(queue_weight(m, ext) == path_weight(m, q[0]) + queue_weight(m, ext.skip(1)));
        assert(queue_weight(m, q) == path_weight(m, q[0]) + queue_weight(m, q.skip(1)));
    }
}

/// Concatenated queues weigh the sum of their parts.
pub proof fn lemma_queue_weight_concat(m: NodeModel, a: Seq<Seq<Turn>>, b: Seq<Seq<Turn>>)
    ensures
        queue_weight(m, a + b) == queue_weight(m, a) + queue_weight(m, b),
    decreases a.len(),
{
    let both = a + b;
    if a.len() == 0 {
        assert(both =~= b);
    } else {
        assert(both[0] == a[0]);
        assert(both.skip(1) =~= a.skip(1) + b);
        lemma_queue_weight_concat(m, a.skip(1), b);
        assert(queue_weight(m, both) == path_weight(m, a[0]) + queue_weight(m, both.skip(1)));
        assert(queue_weight(m, a) == path_weight(m, a[0]) + queue_weight(m, a.skip(1)));
    }
}

/// Paths that address the given children weigh their subtree sizes.
proof fn lemma_paths_weight_matches(
    m: NodeModel,
    paths: Seq<Seq<Turn>>,
    kids: Seq<(Turn, NodeModel)>,
)
    requires
        paths.len() == kids.len(),
        forall|i: int|
            0 <= i < kids.len() ==> path_weight(m, #[trigger] paths[i]) == model_size(kids[i].1),
    ensures
        queue_weight(m, paths) == kids_size(kids),
    decreases kids.len(),
{
    if kids.len() > 0 {
        assert(forall|i: int|
            0 <= i < kids.drop_last().len() ==> #[trigger] paths.drop_last()[i] == paths[i]);
        lemma_paths_weight_matches(m, paths.drop_last(), kids.drop_last());
        lemma_queue_weight_push(m, paths.drop_last(), paths.last());
        assert(paths =~= paths.drop_last().push(paths.last()));
    }
}

/// The paths that extend `p` by each of the given children's moves, in
/// child order.
pub open spec fn child_paths(p: Seq<Turn>, kids: Seq<(Turn, NodeModel)>) -> Seq<Seq<Turn>> {
    Seq::new(kids.len(), |i: int| p.push(kids[i].0))
}

/// The path breadth-first selection returns for a queue: the first path,
/// in queue order with fully-enumerated nodes replaced by their children
/// at the back, that addresses a node with an unexpanded legal move.
/// `None` when the queue drains without finding one.
pub open spec fn bfs_next(m: NodeModel, q: Seq<Seq<Turn>>) -> Option<Seq<Turn>>
    decreases queue_weight(m, q), q.len(),
        when model_wf(m)
        via bfs_next_decreases
{
    if q.len() == 0 {
        None
    } else {
        let p = q[0];
        match model_at(m, p) {
            None => bfs_next(m, q.skip(1)),
            Some(t) => {
                if legal_seq(t.game).len() == 0 {
                    bfs_next(m, q.skip(1))
                } else if t.kids.len() >= legal_seq(t.game).len() {
                    bfs_next(m, q.skip(1) + child_paths(p, t.kids))
                } else {
                    Some(p)
                }
            },
        }
    }
}

#[via_fn]
proof fn bfs_next_decreases(m: NodeModel, q: Seq<Seq<Turn>>) {
    if model_wf(m) && q.len() > 0 {
        let p = q[0];
        assert(queue_weight(m, q) == path_weight(m, p) + queue_weight(m, q.skip(1)));
        match model_at(m, p) {
            None => {},
            Some(t) => {
                lemma_model_at_wf(m, p);
                if legal_seq(t.game).len() > 0 && t.kids.len() >= legal_seq(t.game).len() {
                    let cps = child_paths(p, t.kids);
                    assert forall|i: int|
                        0 <= i < t.kids.len() implies path_weight(m, #[trigger] cps[i])
                        == model_size(t.kids[i].1) by {
                        lemma_model_at_push(m, p, t.kids[i].0);
                        let gi = kid_index(t.kids, t.kids[i].0);
                        if gi != i {
                            assert(t.kids[gi].0 == t.kids[i].0);
                            assert(false);
                        }
                        assert(model_at(m, p.push(t.kids[i].0)) == Some(t.kids[i].1));
                    }
                    lemma_paths_weight_matches(m, cps, t.kids);
                    lemma_queue_weight_concat(m, q.skip(1), cps);
                    assert(model_size(t) == 1 + kids_size(t.kids));
                }
            },
        }
    }
}

/// Repeated selection returns the same leaf: with the returned path back
/// at the front of the queue and its node still holding an unexpanded
/// legal move, the next selection yields the same path.
pub proof fn lemma_bfs_next_repeats(m: NodeModel, q: Seq<Seq<Turn>>, p: Seq<Turn>)
    requires
        model_wf(m),
        q.len() > 0,
        q[0] == p,
        model_at(m, p) matches Some(t) && legal_seq(t.game).len() > 0 && t.kids.len() < legal_seq(
            t.game,
        ).len(),
    ensures
        bfs_next(m, q) == Some(p),
{
}

/// The product of two 32-bit quantities fits in 64 bits.
pub proof fn lemma_mul_u32_bound(a: nat, b: nat)
    requires
        a < 0x1_0000_0000,
        b < 0x1_0000_0000,
    ensures
        a * b < 0x1_0000_0000_0000_0000,
{
    assert(a * b < 0x1_0000_0000_0000_0000) by (nonlinear_arith)
        requires
            a < 0x1_0000_0000,
            b < 0x1_0000_0000,
    ;
}

/// Copies a move list.
fn clone_path(v: &Vec<Turn>) -> (r: Vec<Turn>)
    ensures
        r@ == v@,
{
    let mut r: Vec<Turn> = Vec::new();
    let mut i: usize = 0;
    while i < v.len()
        invariant
            i <= v@.len(),
            r@ =~= v@.subrange(0, i as int),
        decreases v@.len() - i,
    {
        r.push(v[i]);
        i = i + 1;
    }
    proof {
        assert(r@ =~= v@);
    }
    r
}

/// A breadth-first selection policy: a queue of paths is worked through
/// level by level, so the tree below the root is enumerated completely.
pub struct BfsSelectionFast {
    /// Queue of paths to nodes in the tree.
    queue: VecDeque<Vec<Turn>>,
}

impl BfsSelectionFast {
    /// The number of paths still queued.
    pub closed spec fn pending_count(&self) -> nat {
        self.queue@.len()
    }

    /// The queued paths, front first.
    pub closed spec fn pending(&self) -> Seq<Seq<Turn>> {
        self.queue@.map_values(|p: Vec<Turn>| p@)
    }

    /// Creates a breadth-first selector whose queue starts at the root.
    pub fn new() -> (s: Self)
        ensures
            s.pending_count() == 1,
            s.pending() =~= seq![Seq::<Turn>::empty()],
    {
        let mut queue: VecDeque<Vec<Turn>> = VecDeque::new();
        queue.push_back(Vec::new());
        let s = BfsSelectionFast { queue };
        proof {
            assert(s.pending() =~= seq![Seq::<Turn>::empty()]);
        }
        s
    }

    /// Works the queue until it finds a node that still has an
    /// unexpanded legal move, re-queues that node's path at the front
    /// (so repeated calls return the same leaf until it gains a child),
    /// and returns the path.  The result is exactly `bfs_next` of the
    /// queue: the first path, in breadth-first order, whose node has an
    /// unexpanded legal move, or `None` once the queue has drained, in
    /// which case every path it held addressed a subtree with nothing
    /// left to expand, or no node at all.
    pub fn select_path(&mut self, tree: &McstTree) -> (r: Option<Vec<Turn>>)
        requires
            tree.wf(),
        ensures
            (match r {
                Some(p) => Some(p@),
                None => None::<Seq<Turn>>,
            }) == bfs_next(tree.model(), old(self).pending()),
            r matches Some(p) ==> model_at(tree.model(), p@) matches Some(t) && !view_terminal(
                t.game,
            ) && t.kids.len() < legal_seq(t.game).len(),
            r matches Some(p) ==> final(self).pending().len() > 0 && final(self).pending()[0]
                == p@,
            r is None ==> final(self).pending_count() == 0 && (forall|k: int|
                0 <= k < old(self).pending().len() ==> path_saturated(
                    tree.model(),
                    #[trigger] old(self).pending()[k],
                )),
    {
        let ghost m = tree.model();
        let ghost q_init = self.queue@;
        proof {
            crate::mcst::lemma_tree_wf_model(tree);
        }
        loop
            invariant
                tree.wf(),
                m == tree.model(),
                model_wf(m),
                q_init == old(self).queue@,
                bfs_next(m, old(self).pending()) == bfs_next(m, self.pending()),
                (forall|k: int|
                    0 <= k < self.queue@.len() ==> path_saturated(
                        m,
                        (#[trigger] self.queue@[k])@,
                    )) ==> (forall|k: int|
                    0 <= k < q_init.len() ==> path_saturated(m, (#[trigger] q_init[k])@)),
            decreases queue_weight(m, self.pending()), self.pending().len(),
        {
            let ghost q0 = self.queue@;
            let ghost q0v = self.pending();
            let p = match self.queue.pop_front() {
                Some(p) => p,
                None => {
                    proof {
                        assert(bfs_next(m, q0v) is None);
                        assert forall|k: int|
                            0 <= k < old(self).pending().len() implies path_saturated(
                            m,
                            #[trigger] old(self).pending()[k],
                        ) by {
                            assert(old(self).pending()[k] == q_init[k]@);
                        }
                    }
                    return None;
                },
            };
            proof {
                assert(p == q0[0]);
                assert(self.queue@ =~= q0.skip(1));
                assert(q0v[0] == p@);
                assert(self.pending() =~= q0v.skip(1));
                assert(queue_weight(m, q0v) == path_weight(m, p@) + queue_weight(m, q0v.skip(1)));
            }
            match tree.root().search(p.as_slice()) {
                None => {
                    // a stale path from before a re-rooting: drop it
                    proof {
                        assert(path_weight(m, p@) == 0);
                        assert(path_saturated(m, p@));
                        lemma_wand_step(m, q_init, q0, self.queue@, p@);
                        assert(bfs_next(m, q0v) == bfs_next(m, q0v.skip(1)));
                    }
                },
                Some(node) => {
                    let ghost t = node_model(*node);
                    proof {
                        assert(model_at(m, p@) == Some(t));
                        assert(path_weight(m, p@) == model_size(t));
                        lemma_model_at_wf(m, p@);
                    }
                    let moves = node.game().get_moves();
                    proof {
                        lemma_terminal_iff_no_moves(t.game);
                    }
                    if moves.len() > 0 {
                        let kids = node.children();
                        if kids.len() >= moves.len() {
                            // every move is explored here: enqueue the
                            // children and keep draining the queue
                            let ghost base = self.queue@;
                            let ghost basev = self.pending();
                            let mut i: usize = 0;
                            while i < kids.len()
                                invariant
                                    tree.wf(),
                                    m == tree.model(),
                                    model_wf(m),
                                    q_init == old(self).queue@,
                                    model_at(m, p@) == Some(t),
                                    model_wf(t),
                                    i <= kids@.len(),
                                    kids@.len() == t.kids.len(),
                                    forall|j: int|
                                        0 <= j < kids@.len() ==> (#[trigger] kids@[j]).0
                                            == t.kids[j].0,
                                    queue_weight(m, self.pending()) == queue_weight(m, basev)
                                        + kids_size(t.kids.subrange(0, i as int)),
                                    self.queue@.len() == base.len() + i,
                                    forall|j: int|
                                        0 <= j < base.len() ==> self.queue@[j] == base[j],
                                    forall|j: int|
                                        0 <= j < i ==> (#[trigger] self.queue@[base.len() + j])@
                                            == p@.push(t.kids[j].0) && model_at(
                                            m,
                                            (self.queue@[base.len() + j])@,
                                        ) == Some(t.kids[j].1),
                                    (forall|k: int|
                                        0 <= k < q0.len() ==> path_saturated(
                                            m,
                                            (#[trigger] q0[k])@,
                                        )) ==> (forall|k: int|
                                        0 <= k < q_init.len() ==> path_saturated(
                                            m,
                                            (#[trigger] q_init[k])@,
                                        )),
                                    q0.len() > 0 && p == q0[0] && base == q0.skip(1),
                                    basev == q0v.skip(1),
                                    basev.len() == base.len(),
                                decreases kids@.len() - i,
                            {
                                let mut np = clone_path(&p);
                                np.push(kids[i].0);
                                let ghost pend_prev = self.pending();
                                proof {
                                    lemma_model_at_push(m, p@, kids@[i as int].0);
                                    let gi = kid_index(t.kids, t.kids[i as int].0);
                                    if gi != i as int {
                                        assert(t.kids[gi].0 == t.kids[i as int].0);
                                        assert(false);
                                    }
                                    assert(model_at(m, np@) == Some(t.kids[i as int].1));
                                    assert(path_weight(m, np@) == model_size(t.kids[i as int].1));
                                    lemma_queue_weight_push(m, pend_prev, np@);
                                    assert(t.kids.subrange(0, i + 1).drop_last() =~= t.kids.subrange(
                                        0,
                                        i as int,
                                    ));
                                    assert(t.kids.subrange(0, i + 1).last() == t.kids[i as int]);
                                }
                                self.queue.push_back(np);
                                proof {
                                    assert(self.pending() =~= pend_prev.push(np@));
                                }
                                i = i + 1;
                            }
                            proof {
                                assert(t.kids.subrange(0, t.kids.len() as int) =~= t.kids);
                                assert(queue_weight(m, self.pending()) == queue_weight(m, basev)
                                    + kids_size(t.kids));
                                assert(model_size(t) == 1 + kids_size(t.kids));
                                // the queue now continues exactly as the
                                // breadth-first recursion prescribes
                                assert forall|j: int|
                                    0 <= j < self.pending().len() implies (
                                #[trigger] self.pending()[j]) == (q0v.skip(1) + child_paths(
                                    p@,
                                    t.kids,
                                ))[j] by {
                                    if j < base.len() {
                                        assert(self.queue@[j] == base[j]);
                                        assert(basev[j] == q0v.skip(1)[j]);
                                        assert(self.pending()[j] == self.queue@[j]@);
                                        assert(base[j]@ == q0.skip(1)[j]@);
                                        assert(q0v.skip(1)[j] == q0[j + 1]@);
                                    } else {
                                        let jj = j - base.len();
                                        assert(self.queue@[base.len() + jj]@ == p@.push(
                                            t.kids[jj].0,
                                        ));
                                        assert(child_paths(p@, t.kids)[jj] == p@.push(
                                            t.kids[jj].0,
                                        ));
                                    }
                                }
                                assert(self.pending() =~= q0v.skip(1) + child_paths(p@, t.kids));
                                assert(legal_seq(t.game).len() == moves@.len());
                                assert(bfs_next(m, q0v) == bfs_next(
                                    m,
                                    q0v.skip(1) + child_paths(p@, t.kids),
                                ));
                                // if everything still queued is fully
                                // enumerated, so were this node's
                                // children, hence the node itself
                                if forall|k: int|
                                    0 <= k < self.queue@.len() ==> path_saturated(
                                        m,
                                        (#[trigger] self.queue@[k])@,
                                    ) {
                                    assert forall|j: int|
                                        0 <= j < t.kids.len() implies model_saturated(
                                        (#[trigger] t.kids[j]).1,
                                    ) by {
                                        assert(path_saturated(
                                            m,
                                            self.queue@[base.len() + j]@,
                                        ));
                                        assert(model_at(m, self.queue@[base.len() + j]@) == Some(
                                            t.kids[j].1,
                                        ));
                                    }
                                    assert(model_saturated(t));
                                    assert(path_saturated(m, p@));
                                    assert forall|k: int|
                                        0 <= k < q0.len() implies path_saturated(
                                        m,
                                        (#[trigger] q0[k])@,
                                    ) by {
                                        if k > 0 {
                                            assert(q0[k] == base[k - 1]);
                                            assert(self.queue@[k - 1] == base[k - 1]);
                                            assert(path_saturated(m, self.queue@[k - 1]@));
                                        }
                                    }
                                    assert(forall|k: int|
                                        0 <= k < q_init.len() ==> path_saturated(
                                            m,
                                            (#[trigger] q_init[k])@,
                                        ));
                                }
                            }
                        } else {
                            // an unexpanded move remains: this is the
                            // node to work on; keep it at the front so
                            // repeated selection returns it again
                            let pc = clone_path(&p);
                            self.queue.push_front(pc);
                            proof {
                                assert(self.queue@[0] == pc);
                                assert(self.pending()[0] == pc@);
                                assert(legal_seq(t.game).len() == moves@.len());
                                assert(bfs_next(m, q0v) == Some(p@));
                            }
                            return Some(p);
                        }
                    } else {
                        // a finished game cannot be selected: drop it
                        proof {
                            assert(legal_seq(t.game).len() == 0);
                            assert(t.kids.len() == 0) by {
                                crate::gameplay::lemma_terminal_closure(t.game);
                                if t.kids.len() > 0 {
                                    assert(crate::gameplay::move_legal(t.game, t.kids[0].0));
                                }
                            }
                            assert(model_saturated(t));
                            assert(path_saturated(m, p@));
                            lemma_wand_step(m, q_init, q0, self.queue@, p@);
                            assert(bfs_next(m, q0v) == bfs_next(m, q0v.skip(1)));
                        }
                    }
                },
            }
        }
    }
}

/// When the front of a queue is fully enumerated, saturation of the rest
/// carries saturation of the whole queue up to the original one.
proof fn lemma_wand_step(
    m: NodeModel,
    q_init: Seq<Vec<Turn>>,
    q0: Seq<Vec<Turn>>,
    rest: Seq<Vec<Turn>>,
    front: Seq<Turn>,
)
    requires
        q0.len() > 0,
        front == q0[0]@,
        rest == q0.skip(1),
        path_saturated(m, front),
        (forall|k: int| 0 <= k < q0.len() ==> path_saturated(m, (#[trigger] q0[k])@)) ==> (
        forall|k: int| 0 <= k < q_init.len() ==> path_saturated(m, (#[trigger] q_init[k])@)),
    ensures
        (forall|k: int| 0 <= k < rest.len() ==> path_saturated(m, (#[trigger] rest[k])@)) ==> (
        forall|k: int| 0 <= k < q_init.len() ==> path_saturated(m, (#[trigger] q_init[k])@)),
{
    if forall|k: int| 0 <= k < rest.len() ==> path_saturated(m, (#[trigger] rest[k])@) {
        assert forall|k: int| 0 <= k < q0.len() implies path_saturated(m, (#[trigger] q0[k])@) by {
            if k > 0 {
                assert(q0[k] == rest[k - 1]);
                assert(path_saturated(m, rest[k - 1]@));
            }
        }
    }
}

impl SelectionPolicy for BfsSelectionFast {
    /// Returns exactly `bfs_next` of the queue: the first queued path,
    /// in breadth-first order, whose node still has an unexpanded move,
    /// kept at the front so the next selection returns it again; `None`
    /// only once the queue has drained, everything it held being fully
    /// enumerated or gone.
    fn select(&mut self, tree: &McstTree) -> (r: Option<Vec<Turn>>)
        ensures
            (match r {
                Some(p) => Some(p@),
                None => None::<Seq<Turn>>,
            }) == bfs_next(tree.model(), old(self).pending()),
            r matches Some(p) ==> model_at(tree.model(), p@) matches Some(t) && !view_terminal(
                t.game,
            ) && t.kids.len() < legal_seq(t.game).len(),
            r matches Some(p) ==> final(self).pending().len() > 0 && final(self).pending()[0]
                == p@,
            r is None ==> final(self).pending_count() == 0 && (forall|k: int|
                0 <= k < old(self).pending().len() ==> path_saturated(
                    tree.model(),
                    #[trigger] old(self).pending()[k],
                )),
    {
        self.select_path(tree)
    }

    /// Resets the queue to the new root after the game advanced, so the
    /// next selection restarts from the re-rooted tree.
    fn turns_passed(&mut self, tree: &McstTree, turns: (Turn, Turn))
        ensures
            final(self).pending_count() == 1,
            final(self).pending() =~= seq![Seq::<Turn>::empty()],
    {
        self.queue.clear();
        self.queue.push_back(Vec::new());
        proof {
            assert(self.pending() =~= seq![Seq::<Turn>::empty()]);
        }
    }
}

/// An expansion policy that expands the first legal move without a child.
pub struct BfsExpansion {}

impl BfsExpansion {
    /// The first legal move of the node that is not yet a child, in
    /// move-list order.
    pub fn first_unexpanded(node: &McstNode) -> (r: Option<Turn>)
        requires
            node_wf(*node),
        ensures
            r matches Some(t) ==> !kids_have(node_model(*node).kids, t) && (exists|i: int|
                0 <= i < legal_seq(node_model(*node).game).len() && legal_seq(
                    node_model(*node).game,
                )[i] == t && forall|j: int|
                    0 <= j < i ==> kids_have(
                        node_model(*node).kids,
                        #[trigger] legal_seq(node_model(*node).game)[j],
                    )),
            r is None ==> forall|j: int|
                0 <= j < legal_seq(node_model(*node).game).len() ==> kids_have(
                    node_model(*node).kids,
                    #[trigger] legal_seq(node_model(*node).game)[j],
                ),
    {
        let ghost t = node_model(*node);
        let moves = node.game().get_moves();
        let mut i: usize = 0;
        while i < moves.len()
            invariant
                node_wf(*node),
                t == node_model(*node),
                i <= moves@.len(),
                moves@ == legal_seq(t.game),
                forall|j: int| 0 <= j < i ==> kids_have(t.kids, #[trigger] moves@[j]),
            decreases moves@.len() - i,
        {
            if !node.has_child(moves[i]) {
                return Some(moves[i]);
            }
            i = i + 1;
        }
        None
    }
}

impl ExpansionPolicy for BfsExpansion {
    /// Returns the first legal move from the node at the given path that
    /// has no child yet; hands back a pass when the path is invalid or
    /// there is nothing to expand (the agent rejects it then).
    fn expand(&mut self, tree: &McstTree, path: &Vec<Turn>) -> (t: Turn)
        ensures
            model_at(tree.model(), path@) is None ==> t is None,
            model_at(tree.model(), path@) matches Some(n) ==> ({
                let ms = legal_seq(n.game);
                ||| exists|i: int|
                    #![trigger ms[i]]
                    {
                        &&& 0 <= i < ms.len()
                        &&& ms[i] == t
                        &&& !kids_have(n.kids, t)
                        &&& forall|j: int| 0 <= j < i ==> kids_have(n.kids, #[trigger] ms[j])
                    }
                ||| ((forall|j: int| 0 <= j < ms.len() ==> kids_have(n.kids, #[trigger] ms[j]))
                    && t is None)
            }),
    {
        match tree.root().search(path.as_slice()) {
            Some(node) => match Self::first_unexpanded(node) {
                Some(t) => t,
                None => None,
            },
            None => None,
        }
    }
}

/// The executable (saturating) value of an exact counter.
pub open spec fn sat32(n: nat) -> nat {
    if n <= u32::MAX {
        n
    } else {
        u32::MAX as nat
    }
}

/// A decision policy that plays the root child with the most rollouts.
pub struct UctDecision {}

impl UctDecision {
    /// The root child move with the highest (saturating) visit count; on
    /// a tie the later child wins.  `None` when the root has no child.
    pub fn most_visited(node: &McstNode) -> (r: Option<Turn>)
        requires
            node_wf(*node),
        ensures
            r is None <==> node_model(*node).kids.len() == 0,
            r matches Some(t) ==> exists|i: int|
                #![trigger node_model(*node).kids[i]]
                {
                    let kids = node_model(*node).kids;
                    &&& 0 <= i < kids.len()
                    &&& kids[i].0 == t
                    &&& forall|j: int|
                        0 <= j < kids.len() ==> sat32((#[trigger] kids[j]).1.total) <= sat32(
                            kids[i].1.total,
                        )
                    &&& forall|j: int|
                        i < j < kids.len() ==> sat32((#[trigger] kids[j]).1.total) < sat32(
                            kids[i].1.total,
                        )
                },
    {
        let ghost gkids = node_model(*node).kids;
        let kids = node.children();
        if kids.len() == 0 {
            return None;
        }
        let mut best: usize = 0;
        let mut best_total: u32 = *kids[0].1.total();
        let mut j: usize = 1;
        while j < kids.len()
            invariant
                node_wf(*node),
                gkids == node_model(*node).kids,
                kids@.len() == gkids.len(),
                forall|a: int|
                    0 <= a < kids@.len() ==> (#[trigger] kids@[a]).0 == gkids[a].0 && node_model(
                        kids@[a].1,
                    ) == gkids[a].1 && node_wf(kids@[a].1),
                1 <= j <= kids@.len(),
                best < j,
                best_total == sat32(gkids[best as int].1.total),
                forall|a: int| 0 <= a < j ==> sat32((#[trigger] gkids[a]).1.total) <= best_total,
                forall|a: int|
                    best < a < j ==> sat32((#[trigger] gkids[a]).1.total) < best_total,
            decreases kids@.len() - j,
        {
            let t = *kids[j].1.total();
            if t >= best_total {
                best = j;
                best_total = t;
            }
            j = j + 1;
        }
        Some(kids[best].0)
    }
}

impl DecisionPolicy for UctDecision {
    /// Picks the root child with the highest visit count, the later
    /// child winning ties; hands back a pass when the root has no
    /// children (the agent rejects it if it is not legal).
    fn decide(&mut self, tree: &McstTree) -> (t: Turn)
        ensures
            tree.model().kids.len() == 0 ==> t is None,
            tree.model().kids.len() > 0 ==> exists|i: int|
                #![trigger tree.model().kids[i]]
                {
                    let kids = tree.model().kids;
                    &&& 0 <= i < kids.len()
                    &&& kids[i].0 == t
                    &&& forall|j: int|
                        0 <= j < kids.len() ==> sat32((#[trigger] kids[j]).1.total) <= sat32(
                            kids[i].1.total,
                        )
                    &&& forall|j: int|
                        i < j < kids.len() ==> sat32((#[trigger] kids[j]).1.total) < sat32(
                            kids[i].1.total,
                        )
                },
    {
        match Self::most_visited(tree.root()) {
            Some(t) => t,
            None => None,
        }
    }
}

/// `(w1, t1)` has a win average no better than `(w2, t2)`: an unvisited
/// child loses to any visited one, two unvisited children tie, and
/// otherwise the rates are compared exactly.
pub open spec fn rate_le(w1: nat, t1: nat, w2: nat, t2: nat) -> bool {
    if t1 == 0 {
        true
    } else if t2 == 0 {
        false
    } else {
        w1 * t2 <= w2 * t1
    }
}

/// The win-average order is transitive.
pub proof fn lemma_rate_le_trans(w1: nat, t1: nat, w2: nat, t2: nat, w3: nat, t3: nat)
    requires
        rate_le(w1, t1, w2, t2),
        rate_le(w2, t2, w3, t3),
    ensures
        rate_le(w1, t1, w3, t3),
{
    if t1 != 0 && t3 != 0 {
        assert(t2 != 0);
        assert(w1 * t3 <= w3 * t1) by (nonlinear_arith)
            requires
                w1 * t2 <= w2 * t1,
                w2 * t3 <= w3 * t2,
                t1 > 0,
                t2 > 0,
                t3 > 0,
        ;
    }
}

/// A decision policy that plays the root child with the best win
/// average.
pub struct WinAverageDecision {}

impl WinAverageDecision {
    /// The root child move with the best (saturating) win average; on a
    /// tie the later child wins.  `None` when the root has no child.
    pub fn best_rate(node: &McstNode) -> (r: Option<Turn>)
        requires
            node_wf(*node),
        ensures
            r is None <==> node_model(*node).kids.len() == 0,
            r matches Some(t) ==> exists|i: int|
                #![trigger node_model(*node).kids[i]]
                {
                    let kids = node_model(*node).kids;
                    &&& 0 <= i < kids.len()
                    &&& kids[i].0 == t
                    &&& forall|j: int|
                        0 <= j < kids.len() ==> rate_le(
                            sat32((#[trigger] kids[j]).1.wins),
                            sat32(kids[j].1.total),
                            sat32(kids[i].1.wins),
                            sat32(kids[i].1.total),
                        )
                },
    {
        let ghost gkids = node_model(*node).kids;
        let kids = node.children();
        if kids.len() == 0 {
            return None;
        }
        let mut best: usize = 0;
        let mut bw: u32 = *kids[0].1.wins();
        let mut bt: u32 = *kids[0].1.total();
        let mut j: usize = 1;
        while j < kids.len()
            invariant
                node_wf(*node),
                gkids == node_model(*node).kids,
                kids@.len() == gkids.len(),
                forall|a: int|
                    0 <= a < kids@.len() ==> (#[trigger] kids@[a]).0 == gkids[a].0 && node_model(
                        kids@[a].1,
                    ) == gkids[a].1 && node_wf(kids@[a].1),
                1 <= j <= kids@.len(),
                best < j,
                bw == sat32(gkids[best as int].1.wins),
                bt == sat32(gkids[best as int].1.total),
                forall|a: int|
                    0 <= a < j ==> rate_le(
                        sat32((#[trigger] gkids[a]).1.wins),
                        sat32(gkids[a].1.total),
                        bw as nat,
                        bt as nat,
                    ),
            decreases kids@.len() - j,
        {
            let w = *kids[j].1.wins();
            let t = *kids[j].1.total();
            // the current best is no better than the candidate
            proof {
                lemma_mul_u32_bound(bw as nat, t as nat);
                lemma_mul_u32_bound(w as nat, bt as nat);
            }
            let replace = if bt == 0 {
                true
            } else if t == 0 {
                false
            } else {
                (bw as u64) * (t as u64) <= (w as u64) * (bt as u64)
            };
            if replace {
                proof {
                    let ghost ow = bw as nat;
                    let ghost ot = bt as nat;
                    assert(rate_le(ow, ot, w as nat, t as nat));
                    assert forall|a: int| 0 <= a < j + 1 implies rate_le(
                        sat32((#[trigger] gkids[a]).1.wins),
                        sat32(gkids[a].1.total),
                        w as nat,
                        t as nat,
                    ) by {
                        if a < j {
                            lemma_rate_le_trans(
                                sat32(gkids[a].1.wins),
                                sat32(gkids[a].1.total),
                                ow,
                                ot,
                                w as nat,
                                t as nat,
                            );
                        }
                    }
                }
                best = j;
                bw = w;
                bt = t;
            } else {
                proof {
                    assert(rate_le(w as nat, t as nat, bw as nat, bt as nat));
                }
            }
            j = j + 1;
        }
        Some(kids[best].0)
    }
}

impl DecisionPolicy for WinAverageDecision {
    /// Picks the root child with the best win average, an unvisited
    /// child losing to any visited one and the later child winning ties;
    /// hands back a pass when the root has no children (the agent
    /// rejects it if it is not legal).
    fn decide(&mut self, tree: &McstTree) -> (t: Turn)
        ensures
            tree.model().kids.len() == 0 ==> t is None,
            tree.model().kids.len() > 0 ==> exists|i: int|
                #![trigger tree.model().kids[i]]
                {
                    let kids = tree.model().kids;
                    &&& 0 <= i < kids.len()
                    &&& kids[i].0 == t
                    &&& forall|j: int|
                        0 <= j < kids.len() ==> rate_le(
                            sat32((#[trigger] kids[j]).1.wins),
                            sat32(kids[j].1.total),
                            sat32(kids[i].1.wins),
                            sat32(kids[i].1.total),
                        )
                },
    {
        match Self::best_rate(tree.root()) {
            Some(t) => t,
            None => None,
        }
    }
}

/// A memory agent that runs a Monte Carlo search for a wall-clock budget
/// before every move and re-roots its tree as the game advances.
pub struct McstMemoryAgent<S: SelectionPolicy, E: ExpansionPolicy, D: DecisionPolicy, A: Agent> {
    agent: McstAgent<S, E, D, A>,
    /// The compute budget per move, in centiseconds.
    compute_time: u128,
    /// The agent's own most recent decision, paired with the opponent's
    /// reply to re-root the tree.
    last_turn: Turn,
}

impl<S: SelectionPolicy, E: ExpansionPolicy, D: DecisionPolicy, A: Agent> McstMemoryAgent<
    S,
    E,
    D,
    A,
> {
    /// The model of the wrapped agent's search tree.
    pub closed spec fn model(&self) -> NodeModel {
        self.agent.model()
    }

    /// The game at the root of the wrapped agent's tree: the state the
    /// agent believes the real game is in.
    pub closed spec fn game(&self) -> crate::gameplay::GameView {
        self.agent.model().game
    }

    /// The agent's own move awaiting the opponent's reply.
    pub closed spec fn pending_move(&self) -> Turn {
        self.last_turn
    }

    /// Wraps a search agent with a per-move compute budget in
    /// centiseconds.
    pub fn new(agent: McstAgent<S, E, D, A>, compute_time: u128) -> (r: Self)
        requires
            agent.wf(),
        ensures
            r.inv(),
            r.model() == agent.model(),
            r.pending_move() is None,
    {
        McstMemoryAgent { agent, compute_time, last_turn: None }
    }

    /// The wrapped search agent.
    pub fn agent(&self) -> (a: &McstAgent<S, E, D, A>)
        ensures
            a.wf() == self.inv(),
            a.model() == self.model(),
    {
        &self.agent
    }
}

impl<S: SelectionPolicy, E: ExpansionPolicy, D: DecisionPolicy, A: Agent> MemoryAgent
    for McstMemoryAgent<S, E, D, A> {
    /// The wrapped agent's tree is well-formed.
    closed spec fn inv(&self) -> bool {
        self.agent.wf()
    }

    /// Rebuilds the search tree from the given state.
    fn initialize_game(&mut self, state: Gamestate)
        ensures
            final(self).model() == crate::mcst::empty_model(state@),
            final(self).pending_move() == old(self).pending_move(),
    {
        self.agent.set_state(state);
    }

    /// Runs search cycles until the selector stops, a cycle fails, or
    /// the compute budget is spent, then plays the decision: a move the
    /// decision policy chose and the agent validated against the root
    /// game, or a pass when no decision could be made (the driver
    /// rejects it then).
    fn make_move(&mut self) -> (t: Turn)
        ensures
            final(self).game() == old(self).game(),
            t matches Some(c) ==> crate::gameplay::move_legal(old(self).game(), Some(c)),
            final(self).pending_move() == t,
    {
        let time_0 = now();
        let mut fuel: u64 = 0;
        loop
            invariant
                self.agent.wf(),
                self.agent.model().game == old(self).game(),
                self.last_turn == old(self).last_turn,
            decreases u64::MAX - fuel,
        {
            if fuel == u64::MAX {
                break;
            }
            fuel = fuel + 1;
            match self.agent.cycle() {
                Ok(continuing) => {
                    if !continuing {
                        break;
                    }
                    let hundredths = millis_of(&elapsed_of(&time_0)) / 10;
                    if hundredths > self.compute_time {
                        break;
                    }
                },
                Err(_) => {
                    break;
                },
            }
        }
        let decision = match self.agent.decide() {
            Some(t) => t,
            None => None,
        };
        self.last_turn = decision;
        decision
    }

    /// Re-roots the tree under the agent's own last move and the
    /// opponent's reply; when the pair is not legal from the tree's root
    /// the tree stays as it is.
    fn opponent_move(&mut self, op: &Turn)
        ensures
            final(self).pending_move() == old(self).pending_move(),
            ({
                let m0 = old(self).model();
                let mv1 = old(self).pending_move();
                if crate::gameplay::move_legal(m0.game, mv1) && crate::gameplay::move_legal(
                    crate::gameplay::view_apply(m0.game, mv1),
                    *op,
                ) {
                    final(self).model() == crate::mcst::rebase_target(m0, mv1, *op)
                } else {
                    final(self).model() == m0
                }
            }),
    {
        self.agent.next_two_moves(self.last_turn, *op);
    }
}

} // verus!
