//! Board mechanics: the 8x8 grid, flip propagation along rays, and
//! legal-move detection for a given side.
//!
//! The board is modelled as a sequence of 64 cells in row-major order
//! (cell `(x, y)` lives at index `y * 8 + x`).  A move is legal for a side
//! when, in at least one of the eight compass directions, the adjacent
//! cells form a non-empty run of opponent stones terminated by a stone of
//! that side before the edge of the board.

use vstd::prelude::*;

verus! {

/// The two players in the game.
#[derive(Debug, Clone, Copy, PartialEq, Eq, Structural)]
pub enum Players {
    White,
    Black,
}

/// The state of a board tile.
#[derive(Debug, Clone, Copy, PartialEq, Eq, Structural)]
pub enum States {
    /// Tile is taken by a player.
    Taken(Players),
    /// Tile is empty.
    Empty,
}

/// The side that `p` plays against.
pub open spec fn opponent(p: Players) -> Players {
    match p {
        Players::Black => Players::White,
        Players::White => Players::Black,
    }
}

/// A coordinate pair lies on the 8x8 board.
pub open spec fn on_board(x: int, y: int) -> bool {
    0 <= x < 8 && 0 <= y < 8
}

/// Index of cell `(x, y)` in the row-major cell sequence.
pub open spec fn idx_of(x: int, y: int) -> int {
    y * 8 + x
}

/// The cell of board `b` at coordinates `(x, y)`.
pub open spec fn cell_at(b: Seq<States>, x: int, y: int) -> States {
    b[idx_of(x, y)]
}

/// A well-formed board holds exactly 64 cells.
pub open spec fn board_len_ok(b: Seq<States>) -> bool {
    b.len() == 64
}

/// Horizontal step of compass direction `d` (directions are numbered 0..8).
pub open spec fn dir_dx(d: int) -> int {
    if d == 0 || d == 3 || d == 5 {
        -1
    } else if d == 1 || d == 6 {
        0
    } else {
        1
    }
}

/// Vertical step of compass direction `d`.
pub open spec fn dir_dy(d: int) -> int {
    if d == 0 || d == 1 || d == 2 {
        1
    } else if d == 3 || d == 4 {
        0
    } else {
        -1
    }
}

/// X coordinate after `k` steps from `x` in direction `d`.
pub open spec fn ray_x(x: int, d: int, k: nat) -> int
    decreases k,
{
    if k == 0 {
        x
    } else {
        ray_x(x, d, (k - 1) as nat) + dir_dx(d)
    }
}

/// Y coordinate after `k` steps from `y` in direction `d`.
pub open spec fn ray_y(y: int, d: int, k: nat) -> int
    decreases k,
{
    if k == 0 {
        y
    } else {
        ray_y(y, d, (k - 1) as nat) + dir_dy(d)
    }
}

/// Starting at `(x, y)` and walking in direction `d`, the first `m` cells
/// (excluding the origin) hold opponent stones and the cell after them
/// holds a stone of side `p`, all on the board.  Such a run is what a move
/// at `(x, y)` captures in that direction.
pub open spec fn run_ok(b: Seq<States>, x: int, y: int, d: int, p: Players, m: nat) -> bool {
    &&& m >= 1
    &&& forall|k: nat|
        1 <= k <= m ==> on_board(ray_x(x, d, k), ray_y(y, d, k)) && cell_at(
            b,
            ray_x(x, d, k),
            ray_y(y, d, k),
        ) == States::Taken(opponent(p))
    &&& on_board(ray_x(x, d, (m + 1) as nat), ray_y(y, d, (m + 1) as nat))
    &&& cell_at(b, ray_x(x, d, (m + 1) as nat), ray_y(y, d, (m + 1) as nat)) == States::Taken(p)
}

/// Direction `d` captures at least one stone for a move of `p` at `(x, y)`.
pub open spec fn dir_capture(b: Seq<States>, x: int, y: int, d: int, p: Players) -> bool {
    exists|m: nat| run_ok(b, x, y, d, p, m)
}

/// Side `p` may place a stone at `(x, y)`: the cell is an empty board cell
/// and some direction captures.
pub open spec fn can_place(b: Seq<States>, x: int, y: int, p: Players) -> bool {
    &&& on_board(x, y)
    &&& cell_at(b, x, y) == States::Empty
    &&& exists|d: int| 0 <= d < 8 && dir_capture(b, x, y, d, p)
}

/// Cell `(i, j)` is flipped by a move of `p` at `(x, y)`: it lies on a
/// captured run in some direction.
pub open spec fn cell_flipped(b: Seq<States>, x: int, y: int, p: Players, i: int, j: int) -> bool {
    exists|d: int, k: nat, m: nat|
        0 <= d < 8 && run_ok(b, x, y, d, p, m) && 1 <= k <= m && i == ray_x(x, d, k) && j == ray_y(
            y,
            d,
            k,
        )
}

/// The board after all captured runs of a move of `p` at `(x, y)` have been
/// flipped to `p`.  The origin cell itself is not touched.
pub open spec fn board_after_flips(b: Seq<States>, x: int, y: int, p: Players) -> Seq<States> {
    Seq::new(
        b.len(),
        |idx: int|
            if cell_flipped(b, x, y, p, idx % 8, idx / 8) {
                States::Taken(p)
            } else {
                b[idx]
            },
    )
}

/// Side `p` has at least one legal placement somewhere on the board.
pub open spec fn has_any_move(b: Seq<States>, p: Players) -> bool {
    exists|x: int, y: int| can_place(b, x, y, p)
}

/// Number of cells of `b` equal to `t`.
pub open spec fn count_match(b: Seq<States>, t: States) -> nat
    decreases b.len(),
{
    if b.len() == 0 {
        0
    } else {
        count_match(b.drop_last(), t) + (if b.last() == t {
            1nat
        } else {
            0nat
        })
    }
}

/// Black stones minus White stones.
pub open spec fn score_spec(b: Seq<States>) -> int {
    count_match(b, States::Taken(Players::Black)) - count_match(b, States::Taken(Players::White))
}

/// The sequence of legal placements for `p`, scanning cells from index `i`
/// on in the order `x * 8 + y` (column-major, as moves are listed).
pub open spec fn coord_moves(b: Seq<States>, p: Players, i: nat) -> Seq<(u8, u8)>
    decreases 64 - i,
{
    if i >= 64 {
        Seq::empty()
    } else {
        let x = i / 8;
        let y = i % 8;
        (if can_place(b, x as int, y as int, p) {
            seq![(x as u8, y as u8)]
        } else {
            Seq::empty()
        }) + coord_moves(b, p, i + 1)
    }
}

/// A count never exceeds the number of cells.
pub proof fn lemma_count_le_len(b: Seq<States>, t: States)
    ensures
        count_match(b, t) <= b.len(),
    decreases b.len(),
{
    if b.len() > 0 {
        lemma_count_le_len(b.drop_last(), t);
    }
}

/// Counts of two different cell values together never exceed the number
/// of cells.
pub proof fn lemma_count_pair_le_len(b: Seq<States>, t1: States, t2: States)
    requires
        t1 != t2,
    ensures
        count_match(b, t1) + count_match(b, t2) <= b.len(),
    decreases b.len(),
{
    if b.len() > 0 {
        lemma_count_pair_le_len(b.drop_last(), t1, t2);
    }
}

/// Two boards whose cells agree pointwise on being equal to `t` have the
/// same count of `t` cells.
pub proof fn lemma_count_pointwise(a: Seq<States>, b: Seq<States>, t: States)
    requires
        a.len() == b.len(),
        forall|i: int| 0 <= i < a.len() ==> ((a[i] == t) <==> (b[i] == t)),
    ensures
        count_match(a, t) == count_match(b, t),
    decreases a.len(),
{
    if a.len() > 0 {
        assert(forall|i: int|
            0 <= i < a.drop_last().len() ==> ((a.drop_last()[i] == t) <==> (b.drop_last()[i]
                == t)));
        lemma_count_pointwise(a.drop_last(), b.drop_last(), t);
    }
}

/// Updating one cell changes the count of `t` cells exactly as the old and
/// new values of that cell dictate.
pub proof fn lemma_count_update(b: Seq<States>, i: int, v: States, t: States)
    requires
        0 <= i < b.len(),
    ensures
        count_match(b.update(i, v), t) == count_match(b, t) + (if v == t {
            1nat
        } else {
            0nat
        }) - (if b[i] == t {
            1nat
        } else {
            0nat
        }),
    decreases b.len(),
{
    let b2 = b.update(i, v);
    if i == b.len() - 1 {
        assert(b2.drop_last() =~= b.drop_last());
    } else {
        assert(b2.drop_last() =~= b.drop_last().update(i, v));
        lemma_count_update(b.drop_last(), i, v, t);
    }
}

/// The cells captured in direction `d` by a run of length `m`, nearest
/// first, as board coordinates.
pub open spec fn ray_cells(x: int, y: int, d: int, m: nat) -> Seq<(u8, u8)>
    decreases m,
{
    if m == 0 {
        Seq::empty()
    } else {
        ray_cells(x, y, d, (m - 1) as nat).push(
            (ray_x(x, d, m) as u8, ray_y(y, d, m) as u8),
        )
    }
}

/// Cell `(i, j)` lies on the first `m` steps of the ray from `(x, y)` in
/// direction `d` (origin excluded).
pub open spec fn ray_hit(x: int, y: int, d: int, m: nat, i: int, j: int) -> bool {
    exists|k: nat| 1 <= k <= m && i == ray_x(x, d, k) && j == ray_y(y, d, k)
}

/// The length of the captured run of a move of `p` at `(x, y)` in
/// direction `d`; meaningful only when the direction captures.
pub open spec fn run_of(b: Seq<States>, x: int, y: int, d: int, p: Players) -> nat {
    choose|m: nat| run_ok(b, x, y, d, p, m)
}

/// The full list of cells flipped by a move of `p` at `(x, y)`, direction
/// by direction starting at direction `d`.
pub open spec fn flips_list(b: Seq<States>, x: int, y: int, p: Players, d: nat) -> Seq<(u8, u8)>
    decreases 8 - d,
{
    if d >= 8 {
        Seq::empty()
    } else {
        (if dir_capture(b, x, y, d as int, p) {
            ray_cells(x, y, d as int, run_of(b, x, y, d as int, p))
        } else {
            Seq::empty()
        }) + flips_list(b, x, y, p, d + 1)
    }
}

/// Cell `(i, j)` is flipped by one of the directions strictly before `d`.
pub open spec fn flipped_before(
    b: Seq<States>,
    x: int,
    y: int,
    p: Players,
    d: int,
    i: int,
    j: int,
) -> bool {
    exists|d2: int|
        0 <= d2 < d && dir_capture(b, x, y, d2, p) && ray_hit(
            x,
            y,
            d2,
            run_of(b, x, y, d2, p),
            i,
            j,
        )
}

/// Each ray coordinate moves linearly with the step count, in the
/// direction of its delta.
pub proof fn lemma_ray_monotone(x: int, y: int, d: int, k: nat)
    requires
        0 <= d < 8,
    ensures
        dir_dx(d) == 1 ==> ray_x(x, d, k) == x + k,
        dir_dx(d) == 0 ==> ray_x(x, d, k) == x,
        dir_dx(d) == -1 ==> ray_x(x, d, k) == x - k,
        dir_dy(d) == 1 ==> ray_y(y, d, k) == y + k,
        dir_dy(d) == 0 ==> ray_y(y, d, k) == y,
        dir_dy(d) == -1 ==> ray_y(y, d, k) == y - k,
    decreases k,
{
    if k > 0 {
        lemma_ray_monotone(x, y, d, (k - 1) as nat);
    }
}

/// A direction captures a run of exactly one length.
pub proof fn lemma_run_unique(
    b: Seq<States>,
    x: int,
    y: int,
    d: int,
    p: Players,
    m1: nat,
    m2: nat,
)
    requires
        run_ok(b, x, y, d, p, m1),
        run_ok(b, x, y, d, p, m2),
    ensures
        m1 == m2,
{
    assert(opponent(p) != p);
    if m1 < m2 {
        assert(1 <= m1 + 1 <= m2);
        assert(cell_at(b, ray_x(x, d, (m1 + 1) as nat), ray_y(y, d, (m1 + 1) as nat))
            == States::Taken(opponent(p)));
    } else if m2 < m1 {
        assert(1 <= m2 + 1 <= m1);
        assert(cell_at(b, ray_x(x, d, (m2 + 1) as nat), ray_y(y, d, (m2 + 1) as nat))
            == States::Taken(opponent(p)));
    }
}

/// Represents the game board: an 8x8 grid of tile states.
#[derive(Debug)]
pub struct Board {
    cells: Vec<States>,
}

impl View for Board {
    type V = Seq<States>;

    closed spec fn view(&self) -> Seq<States> {
        self.cells@
    }
}

impl Clone for Board {
    /// Clones the board; the copy shows the same cells.
    fn clone(&self) -> (res: Self)
        ensures
            res@ == self@,
    {
        let mut cells: Vec<States> = Vec::new();
        let mut i: usize = 0;
        while i < self.cells.len()
            invariant
                i <= self.cells.len(),
                cells@ =~= self.cells@.subrange(0, i as int),
            decreases self.cells.len() - i,
        {
            cells.push(self.cells[i]);
            i = i + 1;
        }
        assert(cells@ =~= self.cells@);
        Board { cells }
    }
}

impl PartialEq for Board {
    /// Two boards are equal when every cell agrees.
    fn eq(&self, other: &Self) -> (r: bool) {
        if self.cells.len() != other.cells.len() {
            return false;
        }
        let mut i: usize = 0;
        while i < self.cells.len()
            invariant
                i <= self.cells.len(),
                self.cells.len() == other.cells.len(),
                forall|j: int| 0 <= j < i ==> self.cells@[j] == other.cells@[j],
            decreases self.cells.len() - i,
        {
            if self.cells[i] != other.cells[i] {
                return false;
            }
            i = i + 1;
        }
        proof {
            assert(self@ =~= other@);
        }
        true
    }
}

impl vstd::std_specs::cmp::PartialEqSpecImpl for Board {
    open spec fn obeys_eq_spec() -> bool {
        true
    }

    open spec fn eq_spec(&self, other: &Self) -> bool {
        self@ == other@
    }
}

impl Board {
    /// The board holds exactly 64 cells.
    pub open spec fn wf(&self) -> bool {
        board_len_ok(self@)
    }

    /// Creates a new board with all cells empty.
    pub fn new() -> (b: Self)
        ensures
            b.wf(),
            forall|i: int| 0 <= i < 64 ==> b@[i] == States::Empty,
    {
        let mut cells: Vec<States> = Vec::new();
        let mut i: usize = 0;
        while i < 64
            invariant
                i <= 64,
                cells@.len() == i,
                forall|j: int| 0 <= j < i ==> cells@[j] == States::Empty,
            decreases 64 - i,
        {
            cells.push(States::Empty);
            i = i + 1;
        }
        Board { cells }
    }

    /// Sets the tile at `(x, y)` to a given value.
    pub fn change(&mut self, x: u8, y: u8, val: States)
        requires
            old(self).wf(),
            x < 8,
            y < 8,
        ensures
            final(self).wf(),
            final(self)@ == old(self)@.update(idx_of(x as int, y as int), val),
    {
        let idx: usize = (y as usize) * 8 + (x as usize);
        self.cells.set(idx, val);
    }

    /// Returns the tile at `(x, y)`, or `None` if out of bounds.
    pub fn at(&self, x: u8, y: u8) -> (r: Option<States>)
        requires
            self.wf(),
        ensures
            r == if on_board(x as int, y as int) {
                Some(cell_at(self@, x as int, y as int))
            } else {
                None::<States>
            },
    {
        if x < 8 && y < 8 {
            let idx: usize = (y as usize) * 8 + (x as usize);
            Some(self.cells[idx])
        } else {
            None
        }
    }

    /// Returns the score of the board: Black stones minus White stones.
    pub fn score(&self) -> (s: i8)
        requires
            self.wf(),
        ensures
            s == score_spec(self@),
            -64 <= s <= 64,
    {
        let mut black: u8 = 0;
        let mut white: u8 = 0;
        let mut i: usize = 0;
        while i < 64
            invariant
                self.wf(),
                i <= 64,
                black == count_match(self@.subrange(0, i as int), States::Taken(Players::Black)),
                white == count_match(self@.subrange(0, i as int), States::Taken(Players::White)),
                black <= i,
                white <= i,
            decreases 64 - i,
        {
            proof {
                assert(self@.subrange(0, i + 1).drop_last() =~= self@.subrange(0, i as int));
            }
            match self.cells[i] {
                States::Taken(Players::Black) => {
                    black = black + 1;
                },
                States::Taken(Players::White) => {
                    white = white + 1;
                },
                States::Empty => {},
            }
            i = i + 1;
        }
        proof {
            assert(self@.subrange(0, 64) =~= self@);
        }
        black as i8 - white as i8
    }

    /// The delta pair of compass direction `d`.
    fn direction(d: usize) -> (r: (i8, i8))
        requires
            d < 8,
        ensures
            r.0 == dir_dx(d as int),
            r.1 == dir_dy(d as int),
    {
        match d {
            0 => (-1, 1),
            1 => (0, 1),
            2 => (1, 1),
            3 => (-1, 0),
            4 => (1, 0),
            5 => (-1, -1),
            6 => (0, -1),
            _ => (1, -1),
        }
    }

    /// Walks outward from `(x, y)` in direction `d` and measures the
    /// captured run for side `p`: the number of opponent stones bounded by
    /// a `p` stone.  Returns 0 when the direction captures nothing.
    fn run_length(&self, x: u8, y: u8, d: usize, p: Players) -> (m: u8)
        requires
            self.wf(),
            x < 8,
            y < 8,
            d < 8,
        ensures
            m == 0 ==> !dir_capture(self@, x as int, y as int, d as int, p),
            m >= 1 ==> run_ok(self@, x as int, y as int, d as int, p, m as nat),
    {
        let (dx, dy) = Self::direction(d);
        let mut k: u8 = 0;
        let mut cx: i16 = x as i16;
        let mut cy: i16 = y as i16;
        loop
            invariant
                self.wf(),
                x < 8,
                y < 8,
                d < 8,
                dx == dir_dx(d as int),
                dy == dir_dy(d as int),
                k <= 7,
                cx == ray_x(x as int, d as int, k as nat),
                cy == ray_y(y as int, d as int, k as nat),
                forall|j: nat|
                    1 <= j <= k ==> on_board(
                        ray_x(x as int, d as int, j),
                        ray_y(y as int, d as int, j),
                    ) && cell_at(
                        self@,
                        ray_x(x as int, d as int, j),
                        ray_y(y as int, d as int, j),
                    ) == States::Taken(opponent(p)),
            decreases 8 - k,
        {
            proof {
                lemma_ray_monotone(x as int, y as int, d as int, (k + 1) as nat);
                lemma_ray_monotone(x as int, y as int, d as int, k as nat);
            }
            let nx = cx + dx as i16;
            let ny = cy + dy as i16;
            if !(0 <= nx && nx < 8 && 0 <= ny && ny < 8) {
                // ran off the board: no run of any length can end here
                proof {
                    let gx = x as int;
                    let gy = y as int;
                    let gd = d as int;
                    assert forall|m: nat| !run_ok(self@, gx, gy, gd, p, m) by {
                        if run_ok(self@, gx, gy, gd, p, m) {
                            assert(opponent(p) != p);
                            if m + 1 <= k {
                                assert(cell_at(
                                    self@,
                                    ray_x(gx, gd, (m + 1) as nat),
                                    ray_y(gy, gd, (m + 1) as nat),
                                ) == States::Taken(opponent(p)));
                            } else if m + 1 == k + 1 {
                                assert(on_board(
                                    ray_x(gx, gd, (m + 1) as nat),
                                    ray_y(gy, gd, (m + 1) as nat),
                                ));
                            } else {
                                assert(1 <= k + 1 <= m);
                                assert(on_board(
                                    ray_x(gx, gd, (k + 1) as nat),
                                    ray_y(gy, gd, (k + 1) as nat),
                                ));
                            }
                        }
                    }
                }
                return 0;
            }
            let idx: usize = (ny as usize) * 8 + (nx as usize);
            let cell = self.cells[idx];
            match cell {
                States::Taken(q) => {
                    if q == p {
                        // the run ends on our own stone
                        if k >= 1 {
                            return k;
                        } else {
                            // adjacent own stone: degenerate, flips nothing
                            proof {
                                let gx = x as int;
                                let gy = y as int;
                                let gd = d as int;
                                assert forall|m: nat| !run_ok(self@, gx, gy, gd, p, m) by {
                                    if run_ok(self@, gx, gy, gd, p, m) {
                                        assert(opponent(p) != p);
                                        assert(cell_at(self@, ray_x(gx, gd, 1), ray_y(gy, gd, 1))
                                            == States::Taken(opponent(p)));
                                    }
                                }
                            }
                            return 0;
                        }
                    } else {
                        // an opponent stone: keep walking
                        proof {
                            assert(q == opponent(p));
                        }
                        k = k + 1;
                        cx = nx;
                        cy = ny;
                    }
                },
                States::Empty => {
                    // an empty cell before any own stone: nothing captured
                    proof {
                        let gx = x as int;
                        let gy = y as int;
                        let gd = d as int;
                        assert forall|m: nat| !run_ok(self@, gx, gy, gd, p, m) by {
                            if run_ok(self@, gx, gy, gd, p, m) {
                                assert(opponent(p) != p);
                                if m + 1 <= k {
                                    assert(cell_at(
                                        self@,
                                        ray_x(gx, gd, (m + 1) as nat),
                                        ray_y(gy, gd, (m + 1) as nat),
                                    ) == States::Taken(opponent(p)));
                                } else if m + 1 == k + 1 {
                                    assert(cell_at(
                                        self@,
                                        ray_x(gx, gd, (m + 1) as nat),
                                        ray_y(gy, gd, (m + 1) as nat),
                                    ) == States::Taken(p));
                                } else {
                                    assert(1 <= k + 1 <= m);
                                    assert(cell_at(
                                        self@,
                                        ray_x(gx, gd, (k + 1) as nat),
                                        ray_y(gy, gd, (k + 1) as nat),
                                    ) == States::Taken(opponent(p)));
                                }
                            }
                        }
                    }
                    return 0;
                },
            }
        }
    }

    /// Checks whether flipping is valid in direction `d` for side `origin`.
    fn can_flip_toward(&self, x: u8, y: u8, d: usize, origin: Players) -> (r: bool)
        requires
            self.wf(),
            x < 8,
            y < 8,
            d < 8,
        ensures
            r == dir_capture(self@, x as int, y as int, d as int, origin),
    {
        self.run_length(x, y, d, origin) >= 1
    }

    /// Determines whether player `p` can place a piece at `(x, y)`.
    pub fn can_move(&self, x: u8, y: u8, p: Players) -> (r: bool)
        requires
            self.wf(),
        ensures
            r == can_place(self@, x as int, y as int, p),
    {
        if x < 8 && y < 8 {
            let idx: usize = (y as usize) * 8 + (x as usize);
            if matches!(self.cells[idx], States::Empty) {
                let mut d: usize = 0;
                while d < 8
                    invariant
                        self.wf(),
                        x < 8,
                        y < 8,
                        d <= 8,
                        cell_at(self@, x as int, y as int) == States::Empty,
                        forall|d2: int|
                            0 <= d2 < d ==> !dir_capture(self@, x as int, y as int, d2, p),
                    decreases 8 - d,
                {
                    if self.can_flip_toward(x, y, d, p) {
                        return true;
                    }
                    d = d + 1;
                }
                return false;
            }
            false
        } else {
            false
        }
    }

    /// Returns the list of all valid placements for player `p`, in
    /// column-major scan order.
    pub fn get_moves(&self, p: Players) -> (v: Vec<(u8, u8)>)
        requires
            self.wf(),
        ensures
            v@ == coord_moves(self@, p, 0),
    {
        let mut v: Vec<(u8, u8)> = Vec::new();
        let mut i: usize = 0;
        while i < 64
            invariant
                self.wf(),
                i <= 64,
                coord_moves(self@, p, 0) =~= v@ + coord_moves(self@, p, i as nat),
            decreases 64 - i,
        {
            let x = (i / 8) as u8;
            let y = (i % 8) as u8;
            if self.can_move(x, y, p) {
                v.push((x, y));
            }
            proof {
                assert(coord_moves(self@, p, i as nat) == (if can_place(
                    self@,
                    (i / 8) as int,
                    (i % 8) as int,
                    p,
                ) {
                    seq![((i / 8) as u8, (i % 8) as u8)]
                } else {
                    Seq::<(u8, u8)>::empty()
                }) + coord_moves(self@, p, (i + 1) as nat));
                assert(coord_moves(self@, p, 0) =~= v@ + coord_moves(self@, p, (i + 1) as nat));
            }
            i = i + 1;
        }
        proof {
            assert(coord_moves(self@, p, 64) =~= Seq::<(u8, u8)>::empty());
            assert(v@ =~= v@ + Seq::<(u8, u8)>::empty());
        }
        v
    }
}

/// The placement list never repeats a coordinate.
pub proof fn lemma_coord_moves_no_dup(b: Seq<States>, p: Players, i: nat)
    requires
        i <= 64,
    ensures
        coord_moves(b, p, i).no_duplicates(),
    decreases 64 - i,
{
    if i < 64 {
        lemma_coord_moves_no_dup(b, p, i + 1);
        let s = coord_moves(b, p, i);
        let hd = (if can_place(b, (i / 8) as int, (i % 8) as int, p) {
            seq![((i / 8) as u8, (i % 8) as u8)]
        } else {
            Seq::<(u8, u8)>::empty()
        });
        let tl = coord_moves(b, p, i + 1);
        assert(s == hd + tl);
        assert forall|n1: int, n2: int|
            0 <= n1 < s.len() && 0 <= n2 < s.len() && n1 != n2 implies s[n1] != s[n2] by {
            if hd.len() == 1 && n1 == 0 && n2 >= 1 {
                assert(tl[n2 - 1] == s[n2]);
                assert(tl.contains(s[n2]));
                lemma_coord_moves_contains(b, p, i + 1, s[n2].0, s[n2].1);
                assert((s[0].0 as int) * 8 + (s[0].1 as int) == i);
            } else if hd.len() == 1 && n2 == 0 && n1 >= 1 {
                assert(tl[n1 - 1] == s[n1]);
                assert(tl.contains(s[n1]));
                lemma_coord_moves_contains(b, p, i + 1, s[n1].0, s[n1].1);
                assert((s[0].0 as int) * 8 + (s[0].1 as int) == i);
            } else {
                let o = hd.len();
                assert(s[n1] == tl[n1 - o] && s[n2] == tl[n2 - o]);
            }
        }
    }
}

/// The same cell with the colors exchanged.
pub open spec fn flip_cell(s: States) -> States {
    match s {
        States::Empty => States::Empty,
        States::Taken(p) => States::Taken(opponent(p)),
    }
}

/// Powers of three grow with the exponent.
pub proof fn lemma_pow3_le(a: nat, b: nat)
    requires
        a <= b,
    ensures
        pow3(a) <= pow3(b),
    decreases b,
{
    if a < b {
        lemma_pow3_le(a, (b - 1) as nat);
        lemma_pow3_pos((b - 1) as nat);
    }
}

impl Board {
    /// Packs the board into 128 bits: one base-3 digit per cell, the
    /// cell at (0, 0) least significant, in row-major order.
    pub fn to_compact(&self) -> (c: u128)
        requires
            self.wf(),
        ensures
            c as int == board_compact(self@),
    {
        let mut c: u128 = 0;
        let mut i: usize = 64;
        while i > 0
            invariant
                self.wf(),
                i <= 64,
                c as int == encode_cells(self@, i as nat),
            decreases i,
        {
            i = i - 1;
            let digit: u128 = match self.cells[i] {
                States::Empty => 0,
                States::Taken(Players::Black) => 1,
                States::Taken(Players::White) => 2,
            };
            proof {
                lemma_encode_bound(self@, (i + 1) as nat);
                lemma_pow3_le((64 - (i + 1)) as nat, 63);
                lemma_pow3_64();
                assert(pow3(64) == 3 * pow3(63));
                assert(cell_code(self@[i as int]) == digit);
            }
            c = c * 3 + digit;
        }
        c
    }

    /// Unpacks a 128-bit compact encoding into the board it stands for.
    pub fn from_compact(c: u128) -> (b: Board)
        ensures
            b.wf(),
            b@ == decode_board(c as int),
    {
        let mut cells: Vec<States> = Vec::new();
        let mut cur: u128 = c;
        let mut i: usize = 0;
        while i < 64
            invariant
                i <= 64,
                cells@.len() == i,
                cur as int == (c as int) / pow3(i as nat),
                forall|j: int| 0 <= j < i ==> cells@[j] == decode_board(c as int)[j],
            decreases 64 - i,
        {
            let d = cur % 3;
            let cell = if d == 1 {
                States::Taken(Players::Black)
            } else if d == 2 {
                States::Taken(Players::White)
            } else {
                States::Empty
            };
            proof {
                assert(cell == cell_of_code(((c as int) / pow3(i as nat)) % 3));
                lemma_pow3_pos(i as nat);
                vstd::arithmetic::div_mod::lemma_div_denominator(c as int, pow3(i as nat), 3);
                assert(pow3((i + 1) as nat) == 3 * pow3(i as nat));
                assert((c as int) / pow3((i + 1) as nat) == ((c as int) / pow3(i as nat)) / 3);
            }
            cells.push(cell);
            cur = cur / 3;
            i = i + 1;
        }
        let b = Board { cells };
        proof {
            assert(b@ =~= decode_board(c as int));
        }
        b
    }

    /// Rotates the board a quarter turn: the cell at `(x, y)` afterwards
    /// shows what `(y, 7 - x)` showed before.
    pub fn rotate_90(&mut self)
        requires
            old(self).wf(),
        ensures
            final(self).wf(),
            forall|x: int, y: int|
                on_board(x, y) ==> cell_at(final(self)@, x, y) == cell_at(old(self)@, y, 7 - x),
    {
        let mut cells: Vec<States> = Vec::new();
        let mut idx: usize = 0;
        while idx < 64
            invariant
                old(self).wf(),
                self.wf(),
                self@ == old(self)@,
                idx <= 64,
                cells@.len() == idx,
                forall|j: int|
                    0 <= j < idx ==> cells@[j] == cell_at(old(self)@, (j / 8), 7 - (j % 8)),
            decreases 64 - idx,
        {
            let x = idx % 8;
            let y = idx / 8;
            let src: usize = (7 - x) * 8 + y;
            cells.push(self.cells[src]);
            idx = idx + 1;
        }
        self.cells = cells;
        proof {
            assert forall|x: int, y: int| on_board(x, y) implies cell_at(self@, x, y) == cell_at(
                old(self)@,
                y,
                7 - x,
            ) by {
                let j = idx_of(x, y);
                assert(j / 8 == y && j % 8 == x);
            }
        }
    }

    /// Exchanges the two sides' stones everywhere on the board.
    pub fn flip_colors(&mut self)
        requires
            old(self).wf(),
        ensures
            final(self).wf(),
            forall|j: int| 0 <= j < 64 ==> final(self)@[j] == flip_cell(old(self)@[j]),
    {
        let mut i: usize = 0;
        while i < 64
            invariant
                old(self).wf(),
                self.wf(),
                i <= 64,
                forall|j: int| 0 <= j < i ==> self@[j] == flip_cell(old(self)@[j]),
                forall|j: int| i <= j < 64 ==> self@[j] == old(self)@[j],
            decreases 64 - i,
        {
            let cell = match self.cells[i] {
                States::Empty => States::Empty,
                States::Taken(Players::Black) => States::Taken(Players::White),
                States::Taken(Players::White) => States::Taken(Players::Black),
            };
            self.cells.set(i, cell);
            i = i + 1;
        }
    }

    /// Flips the `m` captured cells along direction `d` to side `p`,
    /// appending each flipped coordinate to `flips`.
    fn flip_ray(&mut self, x: u8, y: u8, d: usize, p: Players, m: u8, flips: &mut Vec<(u8, u8)>)
        requires
            old(self).wf(),
            x < 8,
            y < 8,
            d < 8,
            1 <= m,
            forall|k: nat|
                1 <= k <= m ==> on_board(
                    ray_x(x as int, d as int, k),
                    ray_y(y as int, d as int, k),
                ),
        ensures
            final(self).wf(),
            forall|ii: int|
                0 <= ii < 64 ==> final(self)@[ii] == (if ray_hit(
                    x as int,
                    y as int,
                    d as int,
                    m as nat,
                    ii % 8,
                    ii / 8,
                ) {
                    States::Taken(p)
                } else {
                    old(self)@[ii]
                }),
            final(flips)@ == old(flips)@ + ray_cells(x as int, y as int, d as int, m as nat),
    {
        let ghost b0 = self@;
        let (dx, dy) = Self::direction(d);
        let mut k: u8 = 0;
        let mut cx: i16 = x as i16;
        let mut cy: i16 = y as i16;
        while k < m
            invariant
                old(self).wf(),
                self.wf(),
                x < 8,
                y < 8,
                d < 8,
                1 <= m,
                k <= m,
                forall|j: nat|
                    1 <= j <= m ==> on_board(
                        ray_x(x as int, d as int, j),
                        ray_y(y as int, d as int, j),
                    ),
                dx == dir_dx(d as int),
                dy == dir_dy(d as int),
                cx == ray_x(x as int, d as int, k as nat),
                cy == ray_y(y as int, d as int, k as nat),
                forall|ii: int|
                    0 <= ii < 64 ==> self@[ii] == (if ray_hit(
                        x as int,
                        y as int,
                        d as int,
                        k as nat,
                        ii % 8,
                        ii / 8,
                    ) {
                        States::Taken(p)
                    } else {
                        b0[ii]
                    }),
                flips@ == old(flips)@ + ray_cells(x as int, y as int, d as int, k as nat),
            decreases m - k,
        {
            proof {
                lemma_ray_monotone(x as int, y as int, d as int, (k + 1) as nat);
                lemma_ray_monotone(x as int, y as int, d as int, k as nat);
                assert(on_board(
                    ray_x(x as int, d as int, (k + 1) as nat),
                    ray_y(y as int, d as int, (k + 1) as nat),
                ));
            }
            let nx = cx + dx as i16;
            let ny = cy + dy as i16;
            let ghost prev = self@;
            self.change(nx as u8, ny as u8, States::Taken(p));
            flips.push((nx as u8, ny as u8));
            proof {
                let gx = x as int;
                let gy = y as int;
                let gd = d as int;
                let pos_idx = idx_of(nx as int, ny as int);
                assert(ray_hit(gx, gy, gd, (k + 1) as nat, nx as int, ny as int));
                assert forall|ii: int| 0 <= ii < 64 implies self@[ii] == (if ray_hit(
                    gx,
                    gy,
                    gd,
                    (k + 1) as nat,
                    ii % 8,
                    ii / 8,
                ) {
                    States::Taken(p)
                } else {
                    b0[ii]
                }) by {
                    assert(ii == (ii / 8) * 8 + ii % 8);
                    if ii == pos_idx {
                        assert(ii % 8 == nx as int && ii / 8 == ny as int);
                    } else {
                        assert(self@[ii] == prev[ii]);
                        if ray_hit(gx, gy, gd, (k + 1) as nat, ii % 8, ii / 8) {
                            let j = choose|j: nat|
                                1 <= j <= k + 1 && ii % 8 == ray_x(gx, gd, j) && ii / 8 == ray_y(
                                    gy,
                                    gd,
                                    j,
                                );
                            if j == k + 1 {
                                assert(ii == pos_idx);
                            } else {
                                assert(ray_hit(gx, gy, gd, k as nat, ii % 8, ii / 8));
                            }
                        } else {
                            assert(!ray_hit(gx, gy, gd, k as nat, ii % 8, ii / 8));
                        }
                    }
                }
                assert(flips@ =~= old(flips)@ + ray_cells(gx, gy, gd, (k + 1) as nat));
            }
            k = k + 1;
            cx = nx;
            cy = ny;
        }
    }

    /// Flips all captured runs around `(x, y)` for the side whose stone
    /// sits there, returning the list of flipped cells.  Assumes the move
    /// at `(x, y)` has already been placed; changes nothing when `(x, y)`
    /// is empty or off the board.
    pub fn flip_all(&mut self, x: u8, y: u8) -> (flips: Vec<(u8, u8)>)
        requires
            old(self).wf(),
        ensures
            final(self).wf(),
            !(on_board(x as int, y as int) && cell_at(old(self)@, x as int, y as int) matches States::Taken(_))
                ==> final(self)@ == old(self)@ && flips@ == Seq::<(u8, u8)>::empty(),
            forall|p: Players|
                on_board(x as int, y as int) && cell_at(old(self)@, x as int, y as int)
                    == States::Taken(p) ==> final(self)@ == board_after_flips(
                    old(self)@,
                    x as int,
                    y as int,
                    p,
                ) && flips@ == flips_list(old(self)@, x as int, y as int, p, 0),
    {
        let c = self.at(x, y);
        let origin = match c {
            Some(States::Taken(q)) => q,
            _ => {
                return Vec::new();
            },
        };
        let ghost b0 = self@;
        let ghost gx = x as int;
        let ghost gy = y as int;
        // measure every run before touching the board, so each scan sees
        // the board as the move left it
        let mut ms: Vec<u8> = Vec::new();
        let mut d: usize = 0;
        while d < 8
            invariant
                self.wf(),
                self@ == b0,
                x < 8,
                y < 8,
                gx == x as int,
                gy == y as int,
                d <= 8,
                ms@.len() == d,
                forall|d2: int|
                    0 <= d2 < d ==> (ms@[d2] == 0 ==> !dir_capture(b0, gx, gy, d2, origin)) && (
                    ms@[d2] >= 1 ==> run_ok(b0, gx, gy, d2, origin, ms@[d2] as nat)),
            decreases 8 - d,
        {
            let ghost ms_prev = ms@;
            let m = self.run_length(x, y, d, origin);
            ms.push(m);
            proof {
                assert(ms@[d as int] == m);
                assert(forall|d2: int| 0 <= d2 < d ==> ms@[d2] == ms_prev[d2]);
            }
            d = d + 1;
        }
        let mut flips: Vec<(u8, u8)> = Vec::new();
        let mut d: usize = 0;
        while d < 8
            invariant
                old(self).wf(),
                self.wf(),
                x < 8,
                y < 8,
                gx == x as int,
                gy == y as int,
                b0.len() == 64,
                d <= 8,
                ms@.len() == 8,
                forall|d2: int|
                    0 <= d2 < 8 ==> (ms@[d2] == 0 ==> !dir_capture(b0, gx, gy, d2, origin)) && (
                    ms@[d2] >= 1 ==> run_ok(b0, gx, gy, d2, origin, ms@[d2] as nat)),
                forall|ii: int|
                    0 <= ii < 64 ==> self@[ii] == (if flipped_before(
                        b0,
                        gx,
                        gy,
                        origin,
                        d as int,
                        ii % 8,
                        ii / 8,
                    ) {
                        States::Taken(origin)
                    } else {
                        b0[ii]
                    }),
                flips_list(b0, gx, gy, origin, 0) =~= flips@ + flips_list(
                    b0,
                    gx,
                    gy,
                    origin,
                    d as nat,
                ),
            decreases 8 - d,
        {
            let ghost prev = self@;
            let ghost flips_prev = flips@;
            let m = ms[d];
            if m >= 1 {
                proof {
                    assert(run_ok(b0, gx, gy, d as int, origin, m as nat));
                    assert(dir_capture(b0, gx, gy, d as int, origin));
                    lemma_run_unique(
                        b0,
                        gx,
                        gy,
                        d as int,
                        origin,
                        run_of(b0, gx, gy, d as int, origin),
                        m as nat,
                    );
                    assert forall|k: nat| 1 <= k <= m as nat implies on_board(
                        ray_x(x as int, d as int, k),
                        ray_y(y as int, d as int, k),
                    ) by {
                        assert(run_ok(b0, gx, gy, d as int, origin, m as nat));
                        assert(cell_at(
                            b0,
                            ray_x(gx, d as int, k),
                            ray_y(gy, d as int, k),
                        ) == States::Taken(opponent(origin)));
                    }
                }
                self.flip_ray(x, y, d, origin, m, &mut flips);
                proof {
                    let gd = d as int;
                    assert(run_of(b0, gx, gy, gd, origin) == m as nat);
                    assert forall|ii: int| 0 <= ii < 64 implies self@[ii] == (if flipped_before(
                        b0,
                        gx,
                        gy,
                        origin,
                        gd + 1,
                        ii % 8,
                        ii / 8,
                    ) {
                        States::Taken(origin)
                    } else {
                        b0[ii]
                    }) by {
                        if ray_hit(gx, gy, gd, m as nat, ii % 8, ii / 8) {
                            assert(flipped_before(b0, gx, gy, origin, gd + 1, ii % 8, ii / 8));
                        } else if flipped_before(b0, gx, gy, origin, gd, ii % 8, ii / 8) {
                            let d2 = choose|d2: int|
                                0 <= d2 < gd && dir_capture(b0, gx, gy, d2, origin) && ray_hit(
                                    gx,
                                    gy,
                                    d2,
                                    run_of(b0, gx, gy, d2, origin),
                                    ii % 8,
                                    ii / 8,
                                );
                            assert(0 <= d2 < gd + 1);
                            assert(flipped_before(b0, gx, gy, origin, gd + 1, ii % 8, ii / 8));
                        } else {
                            if flipped_before(b0, gx, gy, origin, gd + 1, ii % 8, ii / 8) {
                                let d2 = choose|d2: int|
                                    0 <= d2 < gd + 1 && dir_capture(b0, gx, gy, d2, origin)
                                        && ray_hit(
                                        gx,
                                        gy,
                                        d2,
                                        run_of(b0, gx, gy, d2, origin),
                                        ii % 8,
                                        ii / 8,
                                    );
                                if d2 == gd {
                                    assert(ray_hit(gx, gy, gd, m as nat, ii % 8, ii / 8));
                                } else {
                                    assert(flipped_before(b0, gx, gy, origin, gd, ii % 8, ii / 8));
                                }
                                assert(false);
                            }
                        }
                    }
                    assert(flips_list(b0, gx, gy, origin, d as nat) == ray_cells(
                        gx,
                        gy,
                        gd,
                        run_of(b0, gx, gy, gd, origin),
                    ) + flips_list(b0, gx, gy, origin, (d + 1) as nat));
                    assert(flips@ == flips_prev + ray_cells(gx, gy, gd, m as nat));
                    assert(run_of(b0, gx, gy, gd, origin) == m as nat);
                    assert(flips@ =~= flips_prev + ray_cells(
                        gx,
                        gy,
                        gd,
                        run_of(b0, gx, gy, gd, origin),
                    ));
                    assert(flips_list(b0, gx, gy, origin, 0) =~= flips@ + flips_list(
                        b0,
                        gx,
                        gy,
                        origin,
                        (d + 1) as nat,
                    )) by {
                        assert(flips_list(b0, gx, gy, origin, 0) =~= flips_prev + flips_list(
                            b0,
                            gx,
                            gy,
                            origin,
                            d as nat,
                        ));
                    }
                }
            } else {
                proof {
                    let gd = d as int;
                    assert(!dir_capture(b0, gx, gy, gd, origin));
                    assert(flips_list(b0, gx, gy, origin, d as nat) =~= flips_list(
                        b0,
                        gx,
                        gy,
                        origin,
                        (d + 1) as nat,
                    ));
                    assert forall|ii: int| 0 <= ii < 64 implies (#[trigger] flipped_before(
                        b0,
                        gx,
                        gy,
                        origin,
                        gd + 1,
                        ii % 8,
                        ii / 8,
                    ) == flipped_before(b0, gx, gy, origin, gd, ii % 8, ii / 8)) by {
                        if flipped_before(b0, gx, gy, origin, gd + 1, ii % 8, ii / 8) {
                            let d2 = choose|d2: int|
                                0 <= d2 < gd + 1 && dir_capture(b0, gx, gy, d2, origin) && ray_hit(
                                    gx,
                                    gy,
                                    d2,
                                    run_of(b0, gx, gy, d2, origin),
                                    ii % 8,
                                    ii / 8,
                                );
                            assert(d2 != gd);
                        }
                    }
                }
            }
            d = d + 1;
        }
        proof {
            lemma_flipped_final(b0, gx, gy, origin);
            assert(self@ =~= board_after_flips(b0, gx, gy, origin));
            assert(flips_list(b0, gx, gy, origin, 8) =~= Seq::<(u8, u8)>::empty());
            assert(flips@ =~= flips@ + Seq::<(u8, u8)>::empty());
        }
        flips
    }
}

impl Board {
    /// Fast version of flipping that reports whether any cells were
    /// flipped without returning their list.  The board ends exactly as
    /// after the listing version.
    pub fn flip_all_fast(&mut self, x: u8, y: u8) -> (any: bool)
        requires
            old(self).wf(),
        ensures
            final(self).wf(),
            !(on_board(x as int, y as int) && cell_at(old(self)@, x as int, y as int) matches States::Taken(_))
                ==> final(self)@ == old(self)@ && !any,
            forall|p: Players|
                on_board(x as int, y as int) && cell_at(old(self)@, x as int, y as int)
                    == States::Taken(p) ==> final(self)@ == board_after_flips(
                    old(self)@,
                    x as int,
                    y as int,
                    p,
                ) && any == exists|d: int| 0 <= d < 8 && dir_capture(old(self)@, x as int, y as int, d, p),
    {
        let ghost b0 = self@;
        let flips = self.flip_all(x, y);
        proof {
            if on_board(x as int, y as int) {
                match cell_at(b0, x as int, y as int) {
                    States::Taken(p) => lemma_flips_list_nonempty(b0, x as int, y as int, p, 0),
                    States::Empty => (),
                }
            }
        }
        flips.len() > 0
    }
}

/// Every captured-run cell list has exactly as many entries as the run is
/// long.
pub proof fn lemma_ray_cells_len(x: int, y: int, d: int, m: nat)
    ensures
        ray_cells(x, y, d, m).len() == m,
    decreases m,
{
    if m > 0 {
        lemma_ray_cells_len(x, y, d, (m - 1) as nat);
    }
}

/// The flip list is non-empty exactly when some direction at or past `d`
/// captures.
pub proof fn lemma_flips_list_nonempty(b: Seq<States>, x: int, y: int, p: Players, d: nat)
    requires
        d <= 8,
    ensures
        flips_list(b, x, y, p, d).len() > 0 <==> exists|d2: int|
            d <= d2 < 8 && dir_capture(b, x, y, d2, p),
    decreases 8 - d,
{
    if d < 8 {
        lemma_flips_list_nonempty(b, x, y, p, d + 1);
        if dir_capture(b, x, y, d as int, p) {
            let m = run_of(b, x, y, d as int, p);
            assert(run_ok(b, x, y, d as int, p, m));
            lemma_ray_cells_len(x, y, d as int, m);
            assert(exists|d2: int| d <= d2 < 8 && dir_capture(b, x, y, d2, p));
        } else {
            assert(flips_list(b, x, y, p, d) =~= flips_list(b, x, y, p, d + 1));
            if exists|d2: int| d <= d2 < 8 && dir_capture(b, x, y, d2, p) {
                let d2 = choose|d2: int| d <= d2 < 8 && dir_capture(b, x, y, d2, p);
                assert(d + 1 <= d2 < 8);
            }
        }
    }
}

/// A flipped cell sits on the board and held an opponent stone before the
/// move.
pub proof fn lemma_flipped_was_opponent(
    b: Seq<States>,
    x: int,
    y: int,
    p: Players,
    i: int,
    j: int,
)
    requires
        cell_flipped(b, x, y, p, i, j),
    ensures
        on_board(i, j),
        cell_at(b, i, j) == States::Taken(opponent(p)),
{
    let (d, k, m) = choose|d: int, k: nat, m: nat|
        0 <= d < 8 && run_ok(b, x, y, d, p, m) && 1 <= k <= m && i == ray_x(x, d, k) && j == ray_y(
            y,
            d,
            k,
        );
    assert(on_board(ray_x(x, d, k), ray_y(y, d, k)));
}

/// After all eight directions are processed, the flipped cells are exactly
/// the captured cells of the move.
pub proof fn lemma_flipped_final(b: Seq<States>, x: int, y: int, p: Players)
    ensures
        forall|i: int, j: int|
            flipped_before(b, x, y, p, 8, i, j) <==> cell_flipped(b, x, y, p, i, j),
{
    assert forall|i: int, j: int|
        flipped_before(b, x, y, p, 8, i, j) <==> cell_flipped(b, x, y, p, i, j) by {
        if flipped_before(b, x, y, p, 8, i, j) {
            let d = choose|d: int|
                0 <= d < 8 && dir_capture(b, x, y, d, p) && ray_hit(
                    x,
                    y,
                    d,
                    run_of(b, x, y, d, p),
                    i,
                    j,
                );
            let m = run_of(b, x, y, d, p);
            assert(run_ok(b, x, y, d, p, m));
            let k = choose|k: nat| 1 <= k <= m && i == ray_x(x, d, k) && j == ray_y(y, d, k);
            assert(cell_flipped(b, x, y, p, i, j));
        }
        if cell_flipped(b, x, y, p, i, j) {
            let (d, k, m) = choose|d: int, k: nat, m: nat|
                0 <= d < 8 && run_ok(b, x, y, d, p, m) && 1 <= k <= m && i == ray_x(x, d, k) && j
                    == ray_y(y, d, k);
            assert(dir_capture(b, x, y, d, p));
            lemma_run_unique(b, x, y, d, p, run_of(b, x, y, d, p), m);
            assert(ray_hit(x, y, d, run_of(b, x, y, d, p), i, j));
        }
    }
}

/// The base-3 code of one cell: empty 0, Black 1, White 2.
pub open spec fn cell_code(s: States) -> int {
    match s {
        States::Empty => 0,
        States::Taken(Players::Black) => 1,
        States::Taken(Players::White) => 2,
    }
}

/// Powers of three.
pub open spec fn pow3(n: nat) -> int
    decreases n,
{
    if n == 0 {
        1
    } else {
        3 * pow3((n - 1) as nat)
    }
}

/// The compact encoding of the cells from index `i` on: each cell one
/// base-3 digit, the cell at `i` least significant.
pub open spec fn encode_cells(b: Seq<States>, i: nat) -> int
    decreases 64 - i,
{
    if i >= 64 {
        0
    } else {
        cell_code(b[i as int]) + 3 * encode_cells(b, i + 1)
    }
}

/// The compact encoding of a whole board: 64 base-3 digits, the cell at
/// index 0 least significant.
pub open spec fn board_compact(b: Seq<States>) -> int {
    encode_cells(b, 0)
}

/// The cell a base-3 digit stands for.
pub open spec fn cell_of_code(d: int) -> States {
    if d == 1 {
        States::Taken(Players::Black)
    } else if d == 2 {
        States::Taken(Players::White)
    } else {
        States::Empty
    }
}

/// The board a compact encoding stands for.
pub open spec fn decode_board(c: int) -> Seq<States> {
    Seq::new(64, |i: int| cell_of_code((c / pow3(i as nat)) % 3))
}

/// Powers of three are positive.
pub proof fn lemma_pow3_pos(n: nat)
    ensures
        pow3(n) >= 1,
    decreases n,
{
    if n > 0 {
        lemma_pow3_pos((n - 1) as nat);
    }
}

/// The exact value of the largest power of three the encoding uses: it
/// fits the 128-bit word.
pub proof fn lemma_pow3_64()
    ensures
        pow3(64) == 3433683820292512484657849089281,
{
    assert(pow3(64) == 3433683820292512484657849089281) by {
        reveal_with_fuel(pow3, 65);
    }
}

/// Every cell code is a base-3 digit.
pub proof fn lemma_cell_code_range(s: States)
    ensures
        0 <= cell_code(s) < 3,
        cell_of_code(cell_code(s)) == s,
{
}

/// The encoding of the cells from `i` on is bounded by the power of
/// three with one digit per remaining cell.
pub proof fn lemma_encode_bound(b: Seq<States>, i: nat)
    requires
        i <= 64,
    ensures
        0 <= encode_cells(b, i) < pow3((64 - i) as nat),
    decreases 64 - i,
{
    if i < 64 {
        lemma_encode_bound(b, i + 1);
        lemma_cell_code_range(b[i as int]);
        assert(pow3((64 - i) as nat) == 3 * pow3((64 - (i + 1)) as nat));
    }
}

/// Digit `k` of the encoding from `i` on is the code of cell `i + k`.
pub proof fn lemma_encode_digit(b: Seq<States>, i: nat, k: nat)
    requires
        i + k < 64,
    ensures
        (encode_cells(b, i) / pow3(k)) % 3 == cell_code(b[i + k as int]),
    decreases k,
{
    let e = encode_cells(b, i);
    lemma_cell_code_range(b[i as int]);
    lemma_encode_bound(b, i + 1);
    if k == 0 {
        assert(e == cell_code(b[i as int]) + 3 * encode_cells(b, i + 1));
        assert(e / pow3(0) == e) by {
            assert(pow3(0) == 1);
        }
        assert(e % 3 == cell_code(b[i as int])) by (nonlinear_arith)
            requires
                e == cell_code(b[i as int]) + 3 * encode_cells(b, i + 1),
                0 <= cell_code(b[i as int]) < 3,
                encode_cells(b, i + 1) >= 0,
        ;
    } else {
        lemma_encode_digit(b, i + 1, (k - 1) as nat);
        lemma_pow3_pos((k - 1) as nat);
        assert(e / 3 == encode_cells(b, i + 1)) by (nonlinear_arith)
            requires
                e == cell_code(b[i as int]) + 3 * encode_cells(b, i + 1),
                0 <= cell_code(b[i as int]) < 3,
                encode_cells(b, i + 1) >= 0,
        ;
        assert(pow3(k) == 3 * pow3((k - 1) as nat));
        assert(e / pow3(k) == (e / 3) / pow3((k - 1) as nat)) by {
            vstd::arithmetic::div_mod::lemma_div_denominator(e, 3, pow3((k - 1) as nat));
        }
    }
}

/// Compact round-trip: decoding the encoding of a board gives the board
/// back, cell for cell.
pub proof fn lemma_compact_round_trip(b: Seq<States>)
    requires
        board_len_ok(b),
    ensures
        decode_board(board_compact(b)) == b,
{
    assert forall|i: int| 0 <= i < 64 implies decode_board(board_compact(b))[i] == b[i] by {
        lemma_encode_digit(b, 0, i as nat);
        lemma_cell_code_range(b[i]);
    }
    assert(decode_board(board_compact(b)) =~= b);
}

/// The placement list contains exactly the coordinates, at or past scan
/// position `i`, on which `p` may place a stone.
pub proof fn lemma_coord_moves_contains(b: Seq<States>, p: Players, i: nat, x: u8, y: u8)
    requires
        i <= 64,
    ensures
        coord_moves(b, p, i).contains((x, y)) <==> (x < 8 && y < 8 && (x as int) * 8 + (y as int)
            >= i && can_place(b, x as int, y as int, p)),
    decreases 64 - i,
{
    if i < 64 {
        lemma_coord_moves_contains(b, p, i + 1, x, y);
        let s = coord_moves(b, p, i);
        let hd = (if can_place(b, (i / 8) as int, (i % 8) as int, p) {
            seq![((i / 8) as u8, (i % 8) as u8)]
        } else {
            Seq::<(u8, u8)>::empty()
        });
        let tl = coord_moves(b, p, i + 1);
        assert(s == hd + tl);
        assert forall|n: int| 0 <= n < s.len() implies s[n] == if n < hd.len() {
            hd[n]
        } else {
            tl[n - hd.len()]
        } by {}
        if s.contains((x, y)) {
            let n = choose|n: int| 0 <= n < s.len() && s[n] == (x, y);
            if n >= hd.len() {
                assert(tl[n - hd.len()] == (x, y));
                assert(tl.contains((x, y)));
            }
        }
        if x < 8 && y < 8 && (x as int) * 8 + (y as int) >= i && can_place(b, x as int, y as int, p)
         {
            if (x as int) * 8 + (y as int) == i {
                assert(i / 8 == x as int && i % 8 == y as int);
                assert(s[0] == (x, y));
            } else {
                assert(tl.contains((x, y)));
                let n = choose|n: int| 0 <= n < tl.len() && tl[n] == (x, y);
                assert(s[hd.len() + n] == (x, y));
            }
        }
    }
}

} // verus!
