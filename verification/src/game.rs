use vstd::assert_by_contradiction;
use vstd::prelude::*;

use crate::board::{lemma_tile_index_bounds, lemma_tile_index_injective, tile_index, Board};
use crate::tile::{opposite, Facing, Outcome, Pos, TileState};

verus! {

/// Flat index of a position on a board `w` cells wide.
pub open spec fn pos_tile_index(p: Pos, w: int) -> int {
    tile_index(p.x as int, p.y as int, w)
}

/// Does some entry of `tail` lie on the cell with flat index `j` (on a board
/// `w` cells wide)?
pub open spec fn tail_covers(tail: Seq<Pos>, w: int, j: int) -> bool {
    exists|k: int| 0 <= k < tail.len() && #[trigger] pos_tile_index(tail[k], w) == j
}

/// Scanning one more tail entry covers exactly the cells covered so far plus
/// that entry's cell.
proof fn lemma_covers_take_step(tail: Seq<Pos>, w: int, i: int, j: int)
    requires
        0 <= i < tail.len(),
    ensures
        tail_covers(tail.take(i + 1), w, j) <==> (tail_covers(tail.take(i), w, j)
            || pos_tile_index(tail[i], w) == j),
{
    let a = tail.take(i);
    let b = tail.take(i + 1);
    if tail_covers(b, w, j) {
        let k = choose|k: int| 0 <= k < b.len() && #[trigger] pos_tile_index(b[k], w) == j;
        if k < i {
            assert(a[k] == b[k]);
            assert(pos_tile_index(a[k], w) == j);
        } else {
            assert(b[k] == tail[i]);
        }
    }
    if tail_covers(a, w, j) {
        let k = choose|k: int| 0 <= k < a.len() && #[trigger] pos_tile_index(a[k], w) == j;
        assert(b[k] == a[k]);
        assert(pos_tile_index(b[k], w) == j);
    }
    if pos_tile_index(tail[i], w) == j {
        assert(b[i] == tail[i]);
        assert(pos_tile_index(b[i], w) == j);
    }
}

/// The tail trimmed to its most recent `len` entries.
pub open spec fn trim_tail(tail: Seq<Pos>, len: int) -> Seq<Pos> {
    if tail.len() > len {
        tail.skip(tail.len() - len)
    } else {
        tail
    }
}

/// The cell one step from `p` in direction `f`. Meaningful only when that
/// step stays on the board.
pub open spec fn pos_toward(p: Pos, f: Facing) -> Pos {
    match f {
        Facing::Up => Pos { x: p.x, y: (p.y + 1) as usize },
        Facing::Down => Pos { x: p.x, y: (p.y - 1) as usize },
        Facing::Left => Pos { x: (p.x - 1) as usize, y: p.y },
        Facing::Right => Pos { x: (p.x + 1) as usize, y: p.y },
    }
}

/// Would a step from `p` in direction `f` leave a `w` by `h` board?
pub open spec fn blocked_toward(p: Pos, f: Facing, w: int, h: int) -> bool {
    match f {
        Facing::Up => p.y + 1 == h,
        Facing::Down => p.y == 0,
        Facing::Left => p.x == 0,
        Facing::Right => p.x + 1 == w,
    }
}

/// The facing that results from requesting `req` while the last completed
/// tick moved in direction `prev`: the request is refused (keeping `cur`)
/// exactly when it is the exact reverse of `prev`.
pub open spec fn requested_facing(prev: Facing, cur: Facing, req: Facing) -> Facing {
    if req == opposite(prev) {
        cur
    } else {
        req
    }
}

/// A board whose snake cells are all accounted for by one head cell and the
/// cells the tail covers, and which has more cells than head and tail
/// together, keeps at least one cell free of the snake.
proof fn lemma_free_cell_exists(b: Seq<TileState>, w: int, head: int, tail: Seq<Pos>)
    requires
        tail.len() + 1 < b.len(),
        forall|j: int|
            0 <= j < b.len() && ((#[trigger] b[j]) == TileState::SnakeHead || b[j]
                == TileState::SnakeBody) ==> (j == head || tail_covers(tail, w, j)),
    ensures
        exists|j: int|
            0 <= j < b.len() && (#[trigger] b[j]) != TileState::SnakeHead && b[j]
                != TileState::SnakeBody,
{
    broadcast use vstd::set::group_set_axioms;
    broadcast use vstd::seq_lib::seq_to_set_is_finite;

    let idxs = tail.map_values(|q: Pos| pos_tile_index(q, w));
    let occ = idxs.to_set().insert(head);
    idxs.lemma_cardinality_of_set();
    assert(occ.len() <= tail.len() + 1);
    let cells = vstd::set_lib::set_int_range(0, b.len() as int);
    assert_by_contradiction!(exists|j: int|
        0 <= j < b.len() && (#[trigger] b[j]) != TileState::SnakeHead && b[j]
            != TileState::SnakeBody, {
        assert forall|j: int| cells.contains(j) implies occ.contains(j) by {
            assert(0 <= j < b.len());
            assert(b[j] == TileState::SnakeHead || b[j] == TileState::SnakeBody);
            if j != head {
                assert(tail_covers(tail, w, j));
                let k = choose|k: int|
                    0 <= k < tail.len() && #[trigger] pos_tile_index(tail[k], w) == j;
                assert(idxs[k] == j);
                assert(idxs.contains(j));
                assert(idxs.to_set().contains(j));
            }
        }
        assert(cells.subset_of(occ));
        vstd::set_lib::lemma_int_range(0, b.len() as int);
        vstd::set_lib::lemma_len_subset(cells, occ);
        assert(b.len() <= occ.len());
    });
}

/// One snake session: the board, the snake's head, facing, target length and
/// tail history. The snake is the authoritative source of occupancy; the
/// board's SnakeHead/SnakeBody cells are recomputed from it after each move.
pub struct Game {
    board: Board,
    position: Pos,
    facing: Facing,
    prev_facing: Facing,
    snake_length: usize,
    tail: Vec<Pos>,
}

impl Game {
    pub closed spec fn spec_board(&self) -> Seq<TileState> {
        self.board@
    }

    pub closed spec fn spec_width(&self) -> usize {
        self.board.spec_width()
    }

    pub closed spec fn spec_height(&self) -> usize {
        self.board.spec_height()
    }

    pub closed spec fn spec_position(&self) -> Pos {
        self.position
    }

    pub closed spec fn spec_facing(&self) -> Facing {
        self.facing
    }

    pub closed spec fn spec_prev_facing(&self) -> Facing {
        self.prev_facing
    }

    pub closed spec fn spec_length(&self) -> usize {
        self.snake_length
    }

    pub closed spec fn spec_tail(&self) -> Seq<Pos> {
        self.tail@
    }

    /// The number of cells on the board.
    pub open spec fn area(&self) -> int {
        self.spec_width() * self.spec_height()
    }

    pub open spec fn in_bounds(&self, p: Pos) -> bool {
        p.x < self.spec_width() && p.y < self.spec_height()
    }

    pub open spec fn pos_index(&self, p: Pos) -> int {
        pos_tile_index(p, self.spec_width() as int)
    }

    /// Flat index of the head cell.
    pub open spec fn head_index(&self) -> int {
        self.pos_index(self.spec_position())
    }

    /// The occupancy invariant: the board has one tile per cell, the head and
    /// every tail entry are in bounds, the tail holds at most `length`
    /// entries, exactly the head cell is SnakeHead, the SnakeBody cells are
    /// exactly those covered by the tail, and at most one cell holds Food.
    pub open spec fn wf(&self) -> bool {
        &&& 1 <= self.spec_width()
        &&& 1 <= self.spec_height()
        &&& self.spec_board().len() == self.area()
        &&& self.in_bounds(self.spec_position())
        &&& self.spec_tail().len() <= self.spec_length()
        &&& forall|k: int|
            0 <= k < self.spec_tail().len() ==> self.in_bounds(#[trigger] self.spec_tail()[k])
        &&& forall|j: int|
            0 <= j < self.area() ==> ((#[trigger] self.spec_board()[j] == TileState::SnakeHead)
                <==> j == self.head_index())
        &&& forall|j: int|
            0 <= j < self.area() ==> ((#[trigger] self.spec_board()[j] == TileState::SnakeBody)
                <==> tail_covers(self.spec_tail(), self.spec_width() as int, j))
        &&& forall|i: int, j: int|
            0 <= i < self.area() && 0 <= j < self.area() && #[trigger] self.spec_board()[i]
                == TileState::Food && #[trigger] self.spec_board()[j] == TileState::Food ==> i == j
    }

    /// Would a step in the current facing leave the board?
    pub open spec fn hits_wall(&self) -> bool {
        blocked_toward(
            self.spec_position(),
            self.spec_facing(),
            self.spec_width() as int,
            self.spec_height() as int,
        )
    }

    /// The cell the head moves into on the next step.
    pub open spec fn target_pos(&self) -> Pos {
        pos_toward(self.spec_position(), self.spec_facing())
    }

    pub open spec fn target_index(&self) -> int {
        self.pos_index(self.target_pos())
    }

    pub open spec fn target_tile(&self) -> TileState {
        self.spec_board()[self.target_index()]
    }

    /// Will the next step move onto food and grow the snake?
    pub open spec fn grows(&self) -> bool {
        !self.hits_wall() && self.target_tile() == TileState::Food
    }

    /// The target length after the next successful step.
    pub open spec fn stepped_length(&self) -> int {
        if self.grows() {
            self.spec_length() + 1
        } else {
            self.spec_length() as int
        }
    }

    /// The tail after the next successful step: the old head position is
    /// appended, then the tail is trimmed to the new target length.
    pub open spec fn stepped_tail(&self) -> Seq<Pos> {
        trim_tail(self.spec_tail().push(self.spec_position()), self.stepped_length())
    }

    /// The board after the next successful step, before any new food is
    /// placed: the target cell becomes the head, the cells covered by the new
    /// tail are body, the cells the snake vacated become empty, and every
    /// other cell keeps its tile.
    pub open spec fn stepped_board(&self) -> Seq<TileState> {
        Seq::new(
            self.area() as nat,
            |j: int|
                if j == self.target_index() {
                    TileState::SnakeHead
                } else if tail_covers(self.stepped_tail(), self.spec_width() as int, j) {
                    TileState::SnakeBody
                } else if tail_covers(
                    self.spec_tail().push(self.spec_position()),
                    self.spec_width() as int,
                    j,
                ) {
                    TileState::Empty
                } else {
                    self.spec_board()[j]
                },
        )
    }

    /// A fresh session: head at the origin of an all-empty board, facing Up,
    /// tail empty, no food yet (the driver places the first food).
    pub fn new(width: usize, height: usize, initial_length: usize) -> (g: Game)
        requires
            1 <= width,
            1 <= height,
            width * height <= usize::MAX,
        ensures
            g.wf(),
            g.spec_width() == width,
            g.spec_height() == height,
            g.spec_position() == (Pos { x: 0, y: 0 }),
            g.spec_facing() == Facing::Up,
            g.spec_prev_facing() == Facing::Right,
            g.spec_length() == initial_length,
            g.spec_tail() == Seq::<Pos>::empty(),
            forall|j: int|
                0 < j < g.area() ==> #[trigger] g.spec_board()[j] == TileState::Empty,
            g.spec_board()[0] == TileState::SnakeHead,
    {
        let mut board = Board::new(width, height);
        proof {
            lemma_tile_index_bounds(0, 0, width as int, height as int);
        }
        board.set(0, 0, TileState::SnakeHead);
        let g = Game {
            board,
            position: Pos { x: 0, y: 0 },
            facing: Facing::Up,
            prev_facing: Facing::Right,
            snake_length: initial_length,
            tail: Vec::new(),
        };
        proof {
            assert(g.head_index() == 0);
            assert forall|j: int| 0 <= j < g.area() implies !tail_covers(
                g.spec_tail(),
                g.spec_width() as int,
                j,
            ) by {
                assert(g.spec_tail().len() == 0);
            }
        }
        g
    }

    /// Request a new facing for the next tick. The request is refused (the
    /// facing is kept) exactly when it is the exact reverse of the facing
    /// used on the last completed tick, so the snake cannot reverse into its
    /// own neck. Nothing else changes.
    pub fn set_facing(&mut self, dir: Facing)
        ensures
            final(self).spec_facing() == requested_facing(
                old(self).spec_prev_facing(),
                old(self).spec_facing(),
                dir,
            ),
            final(self).spec_board() == old(self).spec_board(),
            final(self).spec_width() == old(self).spec_width(),
            final(self).spec_height() == old(self).spec_height(),
            final(self).spec_position() == old(self).spec_position(),
            final(self).spec_prev_facing() == old(self).spec_prev_facing(),
            final(self).spec_length() == old(self).spec_length(),
            final(self).spec_tail() == old(self).spec_tail(),
            old(self).wf() ==> final(self).wf(),
    {
        let blocked = crate::tile::opposite_facing(self.prev_facing);
        if !(dir == blocked) {
            self.facing = dir;
        }
    }

    /// The tile at `(x, y)`, for rendering.
    pub fn tile_at(&self, x: usize, y: usize) -> (t: TileState)
        requires
            self.wf(),
            x < self.spec_width(),
            y < self.spec_height(),
        ensures
            t == self.spec_board()[tile_index(x as int, y as int, self.spec_width() as int)],
    {
        self.board.get(x, y)
    }

    pub fn width(&self) -> (w: usize)
        ensures
            w == self.spec_width(),
    {
        self.board.width()
    }

    pub fn height(&self) -> (h: usize)
        ensures
            h == self.spec_height(),
    {
        self.board.height()
    }

    /// The current target body length.
    pub fn length(&self) -> (n: usize)
        ensures
            n == self.spec_length(),
    {
        self.snake_length
    }

    /// The head's cell.
    pub fn head_position(&self) -> (p: Pos)
        ensures
            p == self.spec_position(),
    {
        self.position
    }

    pub fn facing(&self) -> (f: Facing)
        ensures
            f == self.spec_facing(),
    {
        self.facing
    }

    pub fn prev_facing(&self) -> (f: Facing)
        ensures
            f == self.spec_prev_facing(),
    {
        self.prev_facing
    }

    pub fn tail_len(&self) -> (n: usize)
        ensures
            n == self.spec_tail().len(),
    {
        self.tail.len()
    }

    /// Recompute the board's snake-body cells from the tail: clear every cell
    /// the tail has visited, trim the tail to its most recent `snake_length`
    /// entries, then mark the cells the trimmed tail covers. Clearing before
    /// trimming is what frees the cells of the discarded segments.
    fn refresh_body(&mut self)
        requires
            old(self).board.wf(),
            forall|k: int|
                0 <= k < old(self).tail@.len() ==> old(self).in_bounds(
                    #[trigger] old(self).tail@[k],
                ),
        ensures
            final(self).board.wf(),
            final(self).board.spec_width() == old(self).board.spec_width(),
            final(self).board.spec_height() == old(self).board.spec_height(),
            final(self).position == old(self).position,
            final(self).facing == old(self).facing,
            final(self).prev_facing == old(self).prev_facing,
            final(self).snake_length == old(self).snake_length,
            final(self).tail@ == trim_tail(old(self).tail@, old(self).snake_length as int),
            forall|j: int|
                0 <= j < old(self).board@.len() ==> #[trigger] final(self).board@[j] == (
                if tail_covers(
                    trim_tail(old(self).tail@, old(self).snake_length as int),
                    old(self).spec_width() as int,
                    j,
                ) {
                    TileState::SnakeBody
                } else if tail_covers(old(self).tail@, old(self).spec_width() as int, j) {
                    TileState::Empty
                } else {
                    old(self).board@[j]
                }),
    {
        let ghost t0 = self.tail@;
        let ghost b0 = self.board@;
        let ghost w = self.spec_width() as int;

        // First pass: every cell the tail has visited becomes Empty.
        let mut i: usize = 0;
        while i < self.tail.len()
            invariant
                i <= t0.len(),
                self.board.wf(),
                self.board.spec_width() == old(self).board.spec_width(),
                self.board.spec_height() == old(self).board.spec_height(),
                self.position == old(self).position,
                self.facing == old(self).facing,
                self.prev_facing == old(self).prev_facing,
                self.snake_length == old(self).snake_length,
                self.tail@ == t0,
                w == self.spec_width() as int,
                b0.len() == self.board@.len(),
                forall|k: int| 0 <= k < t0.len() ==> old(self).in_bounds(#[trigger] t0[k]),
                forall|j: int|
                    0 <= j < b0.len() ==> #[trigger] self.board@[j] == (
                    if tail_covers(t0.take(i as int), w, j) {
                        TileState::Empty
                    } else {
                        b0[j]
                    }),
            decreases t0.len() - i,
        {
            let q = self.tail[i];
            let ghost before = self.board@;
            self.board.set(q.x, q.y, TileState::Empty);
            proof {
                assert forall|j: int| 0 <= j < b0.len() implies self.board@[j] == (
                if tail_covers(t0.take(i + 1 as int), w, j) {
                    TileState::Empty
                } else {
                    b0[j]
                }) by {
                    lemma_covers_take_step(t0, w, i as int, j);
                    let idx = pos_tile_index(t0[i as int], w);
                    lemma_tile_index_bounds(
                        t0[i as int].x as int,
                        t0[i as int].y as int,
                        w,
                        self.board.spec_height() as int,
                    );
                    assert(before.update(idx, TileState::Empty)[j] == if j == idx {
                        TileState::Empty
                    } else {
                        before[j]
                    });
                }
            }
            i = i + 1;
        }
        proof {
            assert(t0.take(t0.len() as int) =~= t0);
        }

        // Trim: keep only the most recent `snake_length` entries.
        if self.tail.len() > self.snake_length {
            let excess = self.tail.len() - self.snake_length;
            let mut kept: Vec<Pos> = Vec::new();
            let mut k: usize = excess;
            while k < self.tail.len()
                invariant
                    excess <= k <= t0.len(),
                    self.tail@ == t0,
                    excess == t0.len() - self.snake_length,
                    self.snake_length == old(self).snake_length,
                    kept@ == t0.subrange(excess as int, k as int),
                decreases t0.len() - k,
            {
                let q = self.tail[k];
                kept.push(q);
                k = k + 1;
            }
            self.tail = kept;
            proof {
                assert(self.tail@ =~= trim_tail(t0, self.snake_length as int));
            }
        }

        // Second pass: every cell the trimmed tail covers becomes SnakeBody.
        let ghost t1 = self.tail@;
        proof {
            assert(t1 == trim_tail(t0, self.snake_length as int));
            assert forall|k: int| 0 <= k < t1.len() implies old(self).in_bounds(
                #[trigger] t1[k],
            ) by {
                if t0.len() > self.snake_length {
                    assert(t1[k] == t0[k + t0.len() - self.snake_length]);
                }
            }
        }
        let mut m: usize = 0;
        while m < self.tail.len()
            invariant
                m <= t1.len(),
                self.board.wf(),
                self.board.spec_width() == old(self).board.spec_width(),
                self.board.spec_height() == old(self).board.spec_height(),
                self.position == old(self).position,
                self.facing == old(self).facing,
                self.prev_facing == old(self).prev_facing,
                self.snake_length == old(self).snake_length,
                self.tail@ == t1,
                w == self.spec_width() as int,
                b0.len() == self.board@.len(),
                forall|k: int| 0 <= k < t1.len() ==> old(self).in_bounds(#[trigger] t1[k]),
                forall|j: int|
                    0 <= j < b0.len() ==> #[trigger] self.board@[j] == (
                    if tail_covers(t1.take(m as int), w, j) {
                        TileState::SnakeBody
                    } else if tail_covers(t0, w, j) {
                        TileState::Empty
                    } else {
                        b0[j]
                    }),
            decreases t1.len() - m,
        {
            let q = self.tail[m];
            let ghost before = self.board@;
            self.board.set(q.x, q.y, TileState::SnakeBody);
            proof {
                assert forall|j: int| 0 <= j < b0.len() implies self.board@[j] == (
                if tail_covers(t1.take(m + 1 as int), w, j) {
                    TileState::SnakeBody
                } else if tail_covers(t0, w, j) {
                    TileState::Empty
                } else {
                    b0[j]
                }) by {
                    lemma_covers_take_step(t1, w, m as int, j);
                    let idx = pos_tile_index(t1[m as int], w);
                    lemma_tile_index_bounds(
                        t1[m as int].x as int,
                        t1[m as int].y as int,
                        w,
                        self.board.spec_height() as int,
                    );
                    assert(before.update(idx, TileState::SnakeBody)[j] == if j == idx {
                        TileState::SnakeBody
                    } else {
                        before[j]
                    });
                }
            }
            m = m + 1;
        }
        proof {
            assert(t1.take(t1.len() as int) =~= t1);
        }
    }

    /// Attempt to place food on the cell with flat index `cell` (for example
    /// one drawn by an injected random source, so test runs can be
    /// deterministic). Food lands only on a cell that is neither SnakeHead
    /// nor SnakeBody; otherwise nothing changes. Placement happens only at
    /// game start and right after food is eaten, so no Food cell is present.
    pub fn try_place_food(&mut self, cell: usize) -> (placed: bool)
        requires
            old(self).wf(),
            cell < old(self).area(),
            forall|j: int|
                0 <= j < old(self).area() ==> #[trigger] old(self).spec_board()[j]
                    != TileState::Food,
        ensures
            final(self).wf(),
            placed <==> (old(self).spec_board()[cell as int] != TileState::SnakeHead && old(
                self,
            ).spec_board()[cell as int] != TileState::SnakeBody),
            placed ==> final(self).spec_board() == old(self).spec_board().update(
                cell as int,
                TileState::Food,
            ),
            !placed ==> *final(self) == *old(self),
            final(self).spec_width() == old(self).spec_width(),
            final(self).spec_height() == old(self).spec_height(),
            final(self).spec_position() == old(self).spec_position(),
            final(self).spec_facing() == old(self).spec_facing(),
            final(self).spec_prev_facing() == old(self).spec_prev_facing(),
            final(self).spec_length() == old(self).spec_length(),
            final(self).spec_tail() == old(self).spec_tail(),
    {
        let w = self.board.width();
        let x = cell % w;
        let y = cell / w;
        proof {
            crate::board::lemma_cell_coords(
                cell as int,
                w as int,
                self.board.spec_height() as int,
            );
        }
        let t = self.board.get(x, y);
        if t == TileState::SnakeHead || t == TileState::SnakeBody {
            false
        } else {
            let ghost before = self.board@;
            self.board.set(x, y, TileState::Food);
            proof {
                let ghost c = cell as int;
                assert forall|j: int| 0 <= j < self.area() implies #[trigger] self.board@[j] == (
                if j == c {
                    TileState::Food
                } else {
                    before[j]
                }) by {
                    assert(before.update(c, TileState::Food)[j] == if j == c {
                        TileState::Food
                    } else {
                        before[j]
                    });
                }
            }
            true
        }
    }

    /// Place one food item on a cell that is neither SnakeHead nor
    /// SnakeBody, drawing cells uniformly at random and redrawing while the
    /// draw hits the snake; if as many draws as the board has cells all hit
    /// the snake, the first free cell in scan order is taken, so the
    /// placement always terminates. The caller guards against a fully
    /// occupied board, a condition that cannot arise while the snake is
    /// shorter than the board.
    pub fn place_food(&mut self)
        requires
            old(self).wf(),
            forall|j: int|
                0 <= j < old(self).area() ==> #[trigger] old(self).spec_board()[j]
                    != TileState::Food,
            exists|j: int|
                0 <= j < old(self).area() && #[trigger] old(self).spec_board()[j]
                    != TileState::SnakeHead && old(self).spec_board()[j] != TileState::SnakeBody,
        ensures
            final(self).wf(),
            exists|j: int|
                0 <= j < old(self).area() && #[trigger] old(self).spec_board()[j]
                    != TileState::SnakeHead && old(self).spec_board()[j] != TileState::SnakeBody
                    && final(self).spec_board() == old(self).spec_board().update(
                    j,
                    TileState::Food,
                ),
            final(self).spec_width() == old(self).spec_width(),
            final(self).spec_height() == old(self).spec_height(),
            final(self).spec_position() == old(self).spec_position(),
            final(self).spec_facing() == old(self).spec_facing(),
            final(self).spec_prev_facing() == old(self).spec_prev_facing(),
            final(self).spec_length() == old(self).spec_length(),
            final(self).spec_tail() == old(self).spec_tail(),
    {
        let n = self.board.area();
        proof {
            assert(1 <= self.spec_width() * self.spec_height()) by (nonlinear_arith)
                requires
                    1 <= self.spec_width(),
                    1 <= self.spec_height(),
            ;
        }
        let mut tries: usize = n;
        while tries > 0
            invariant
                *self == *old(self),
                old(self).wf(),
                n == self.spec_board().len(),
                1 <= n,
                forall|j: int|
                    0 <= j < old(self).area() ==> #[trigger] old(self).spec_board()[j]
                        != TileState::Food,
            decreases tries,
        {
            let c = crate::rng::sample_below(n);
            proof {
                assert forall|j: int| 0 <= j < self.area() implies #[trigger] self.spec_board()[j]
                    != TileState::Food by {
                    assert(old(self).spec_board()[j] != TileState::Food);
                }
            }
            if self.try_place_food(c) {
                return ;
            }
            tries = tries - 1;
        }
        // Every random draw hit the snake: take the first free cell instead.
        let mut c: usize = 0;
        while c < n
            invariant
                *self == *old(self),
                old(self).wf(),
                n == self.spec_board().len(),
                c <= n,
                forall|j: int|
                    0 <= j < old(self).area() ==> #[trigger] old(self).spec_board()[j]
                        != TileState::Food,
                forall|j: int|
                    0 <= j < c ==> (#[trigger] self.spec_board()[j] == TileState::SnakeHead
                        || self.spec_board()[j] == TileState::SnakeBody),
            decreases n - c,
        {
            proof {
                assert forall|j: int| 0 <= j < self.area() implies #[trigger] self.spec_board()[j]
                    != TileState::Food by {
                    assert(old(self).spec_board()[j] != TileState::Food);
                }
            }
            if self.try_place_food(c) {
                return ;
            }
            c = c + 1;
        }
        // Unreachable: the caller guarantees some free cell exists.
        proof {
            let f = choose|j: int|
                0 <= j < old(self).area() && #[trigger] old(self).spec_board()[j]
                    != TileState::SnakeHead && old(self).spec_board()[j] != TileState::SnakeBody;
            assert(self.spec_board()[f] == TileState::SnakeHead || self.spec_board()[f]
                == TileState::SnakeBody);
            assert(false);
        }
        vstd::pervasive::unreached()
    }

    /// Advance one tick, placing no new food: move the head one cell in the
    /// current facing. Stepping off the board ends the game with nothing
    /// changed; stepping into the body ends it with only `prev_facing`
    /// recorded; stepping onto an empty cell moves the snake; stepping onto
    /// food moves it and grows it by one, leaving the board food-free. On
    /// every in-bounds tick `prev_facing` records the facing actually used,
    /// which is what the no-reversal rule tests. The caller completes a
    /// growth tick with `try_place_food` or `place_food`, supplying its own
    /// draws, so whole runs can be reproduced exactly.
    #[verifier::rlimit(50)]
    pub fn step_without_food(&mut self) -> (r: Outcome)
        requires
            old(self).wf(),
            old(self).grows() ==> old(self).spec_length() < usize::MAX,
        ensures
            final(self).wf(),
            (r == Outcome::GameOver) <==> (old(self).hits_wall() || (!old(self).hits_wall()
                && old(self).target_tile() == TileState::SnakeBody)),
            (r == Outcome::Grew) <==> old(self).grows(),
            old(self).hits_wall() ==> *final(self) == *old(self),
            r == Outcome::GameOver ==> {
                &&& final(self).spec_board() == old(self).spec_board()
                &&& final(self).spec_position() == old(self).spec_position()
                &&& final(self).spec_tail() == old(self).spec_tail()
                &&& final(self).spec_length() == old(self).spec_length()
                &&& final(self).spec_facing() == old(self).spec_facing()
                &&& final(self).spec_width() == old(self).spec_width()
                &&& final(self).spec_height() == old(self).spec_height()
                &&& final(self).spec_prev_facing() == (if old(self).hits_wall() {
                    old(self).spec_prev_facing()
                } else {
                    old(self).spec_facing()
                })
            },
            r != Outcome::GameOver ==> {
                &&& final(self).spec_position() == old(self).target_pos()
                &&& final(self).spec_facing() == old(self).spec_facing()
                &&& final(self).spec_prev_facing() == old(self).spec_facing()
                &&& final(self).spec_length() == old(self).stepped_length()
                &&& final(self).spec_tail() == old(self).stepped_tail()
                &&& final(self).spec_width() == old(self).spec_width()
                &&& final(self).spec_height() == old(self).spec_height()
            },
            r != Outcome::GameOver ==> final(self).spec_board() == old(self).stepped_board(),
    {
        let ghost g0 = *old(self);
        let n = self.board.area();
        let p = self.position;
        let h = self.board.height();
        let w = self.board.width();

        // Bounds check against the relevant edge, before any indexing.
        let blocked = match self.facing {
            Facing::Up => p.y == h - 1,
            Facing::Down => p.y == 0,
            Facing::Left => p.x == 0,
            Facing::Right => p.x == w - 1,
        };
        proof {
            assert(blocked == g0.hits_wall());
        }
        if blocked {
            return Outcome::GameOver;
        }
        let next = match self.facing {
            Facing::Up => Pos { x: p.x, y: p.y + 1 },
            Facing::Down => Pos { x: p.x, y: p.y - 1 },
            Facing::Left => Pos { x: p.x - 1, y: p.y },
            Facing::Right => Pos { x: p.x + 1, y: p.y },
        };
        proof {
            assert(next == g0.target_pos());
            assert(self.in_bounds(next));
        }
        let t = self.board.get(next.x, next.y);
        proof {
            assert(t == g0.target_tile());
        }
        // The tick is in bounds: record the facing actually used, before the
        // collision check, so a reversal attempted between this tick and the
        // next is still blocked.
        self.prev_facing = self.facing;
        if t == TileState::SnakeBody {
            return Outcome::GameOver;
        }
        if t == TileState::SnakeHead {
            // A well-formed board has its one head cell under the head, and
            // the head never targets its own cell.
            proof {
                lemma_tile_index_bounds(
                    next.x as int,
                    next.y as int,
                    w as int,
                    h as int,
                );
                assert(g0.spec_board()[g0.target_index()] == TileState::SnakeHead);
                assert(g0.target_index() == g0.head_index());
                lemma_tile_index_injective(
                    next.x as int,
                    next.y as int,
                    p.x as int,
                    p.y as int,
                    w as int,
                );
                assert(false);
            }
            return vstd::pervasive::unreached();
        }
        let grew = t == TileState::Food;
        proof {
            assert(grew == g0.grows());
        }

        // Move: the target cell becomes the head, the old head position
        // joins the tail, and on food the target length grows before the
        // tail is trimmed.
        self.board.set(next.x, next.y, TileState::SnakeHead);
        self.tail.push(p);
        self.position = next;
        if grew {
            self.snake_length = self.snake_length + 1;
        }
        self.refresh_body();

        proof {
            let wi = g0.spec_width() as int;
            let p0 = g0.spec_position();
            let np = g0.target_pos();
            let tidx = g0.target_index();
            let head0 = g0.head_index();
            let t_full = g0.spec_tail().push(p0);
            let t_new = g0.stepped_tail();
            let b1 = g0.spec_board().update(tidx, TileState::SnakeHead);

            assert(self.snake_length as int == g0.stepped_length());
            assert(t_new == trim_tail(t_full, g0.stepped_length()));
            assert(self.tail@ == t_new);

            lemma_tile_index_bounds(np.x as int, np.y as int, wi, g0.spec_height() as int);
            lemma_tile_index_bounds(p0.x as int, p0.y as int, wi, g0.spec_height() as int);
            assert(np != p0);
            if tidx == head0 {
                lemma_tile_index_injective(
                    np.x as int,
                    np.y as int,
                    p0.x as int,
                    p0.y as int,
                    wi,
                );
                assert(false);
            }

            // The tail with the old head appended never covers the target
            // cell: a covered cell would have been SnakeBody (or the head
            // cell itself), and the target was neither.
            assert forall|k: int| 0 <= k < t_full.len() implies #[trigger] pos_tile_index(
                t_full[k],
                wi,
            ) != tidx by {
                if k < g0.spec_tail().len() {
                    let q = g0.spec_tail()[k];
                    assert(t_full[k] == q);
                    if pos_tile_index(q, wi) == tidx {
                        assert(tail_covers(g0.spec_tail(), wi, tidx));
                        assert(g0.spec_board()[tidx] == TileState::SnakeBody);
                        assert(false);
                    }
                } else {
                    assert(t_full[k] == p0);
                }
            }
            assert(!tail_covers(t_full, wi, tidx));
            assert forall|k: int| 0 <= k < t_new.len() implies #[trigger] pos_tile_index(
                t_new[k],
                wi,
            ) != tidx by {
                if t_full.len() > g0.stepped_length() {
                    assert(t_new[k] == t_full[k + t_full.len() - g0.stepped_length()]);
                }
            }
            assert(!tail_covers(t_new, wi, tidx));
            // Every entry of the trimmed tail is an entry of the full tail.
            assert forall|k: int| 0 <= k < t_new.len() implies g0.in_bounds(
                #[trigger] t_new[k],
            ) by {
                if t_full.len() > g0.stepped_length() {
                    assert(t_new[k] == t_full[k + t_full.len() - g0.stepped_length()]);
                }
            }

            // The board now matches the stepped board.
            assert forall|j: int| 0 <= j < g0.area() implies self.spec_board()[j]
                == g0.stepped_board()[j] by {
                assert(b1[j] == if j == tidx {
                    TileState::SnakeHead
                } else {
                    g0.spec_board()[j]
                });
                if j == tidx {
                    assert(self.spec_board()[j] == b1[j]);
                }
            }
            assert(self.spec_board() =~= g0.stepped_board());

            // The moved state is well-formed again.
            assert(self.head_index() == tidx);
            assert forall|j: int| 0 <= j < self.area() implies ((#[trigger] self.spec_board()[j]
                == TileState::SnakeHead) <==> j == tidx) by {
                if j != tidx && !tail_covers(t_new, wi, j) && !tail_covers(t_full, wi, j) {
                    assert(self.spec_board()[j] == g0.spec_board()[j]);
                    if g0.spec_board()[j] == TileState::SnakeHead {
                        assert(j == head0);
                        assert(t_full[t_full.len() - 1] == p0);
                        assert(pos_tile_index(t_full[t_full.len() - 1], wi) == head0);
                        assert(tail_covers(t_full, wi, j));
                        assert(false);
                    }
                }
            }
            assert forall|j: int| 0 <= j < self.area() implies ((#[trigger] self.spec_board()[j]
                == TileState::SnakeBody) <==> tail_covers(t_new, wi, j)) by {
                if tail_covers(t_new, wi, j) {
                    assert(j != tidx);
                    assert(self.spec_board()[j] == TileState::SnakeBody);
                } else if self.spec_board()[j] == TileState::SnakeBody {
                    assert(j != tidx);
                    assert(!tail_covers(t_full, wi, j));
                    assert(self.spec_board()[j] == g0.spec_board()[j]);
                    assert(tail_covers(g0.spec_tail(), wi, j));
                    let k = choose|k: int|
                        0 <= k < g0.spec_tail().len() && #[trigger] pos_tile_index(
                            g0.spec_tail()[k],
                            wi,
                        ) == j;
                    assert(t_full[k] == g0.spec_tail()[k]);
                    assert(pos_tile_index(t_full[k], wi) == j);
                    assert(false);
                }
            }
            assert forall|i: int, j: int|
                0 <= i < self.area() && 0 <= j < self.area() && #[trigger] self.spec_board()[i]
                    == TileState::Food && #[trigger] self.spec_board()[j]
                    == TileState::Food implies i == j by {
                assert(g0.spec_board()[i] == TileState::Food);
                assert(g0.spec_board()[j] == TileState::Food);
            }
            assert(self.wf());
        }

        if grew {
            Outcome::Grew
        } else {
            Outcome::Continue
        }
    }

    /// Advance one tick: move the head one cell in the current facing.
    /// Stepping off the board ends the game with nothing changed; stepping
    /// into the body ends it with only `prev_facing` recorded; stepping onto
    /// an empty cell moves the snake; stepping onto food moves it, grows it
    /// by one and places a new food item on a random free cell. When the
    /// step eats food the caller guarantees room for the new food, which
    /// cannot run out while the snake is shorter than the board.
    #[verifier::rlimit(50)]
    pub fn step(&mut self) -> (r: Outcome)
        requires
            old(self).wf(),
            old(self).grows() ==> old(self).spec_length() + 2 < old(self).area(),
        ensures
            final(self).wf(),
            (r == Outcome::GameOver) <==> (old(self).hits_wall() || (!old(self).hits_wall()
                && old(self).target_tile() == TileState::SnakeBody)),
            (r == Outcome::Grew) <==> old(self).grows(),
            old(self).hits_wall() ==> *final(self) == *old(self),
            r == Outcome::GameOver ==> {
                &&& final(self).spec_board() == old(self).spec_board()
                &&& final(self).spec_position() == old(self).spec_position()
                &&& final(self).spec_tail() == old(self).spec_tail()
                &&& final(self).spec_length() == old(self).spec_length()
                &&& final(self).spec_facing() == old(self).spec_facing()
                &&& final(self).spec_width() == old(self).spec_width()
                &&& final(self).spec_height() == old(self).spec_height()
                &&& final(self).spec_prev_facing() == (if old(self).hits_wall() {
                    old(self).spec_prev_facing()
                } else {
                    old(self).spec_facing()
                })
            },
            r != Outcome::GameOver ==> {
                &&& final(self).spec_position() == old(self).target_pos()
                &&& final(self).spec_facing() == old(self).spec_facing()
                &&& final(self).spec_prev_facing() == old(self).spec_facing()
                &&& final(self).spec_length() == old(self).stepped_length()
                &&& final(self).spec_tail() == old(self).stepped_tail()
                &&& final(self).spec_width() == old(self).spec_width()
                &&& final(self).spec_height() == old(self).spec_height()
            },
            r == Outcome::Continue ==> final(self).spec_board() == old(self).stepped_board(),
            r == Outcome::Grew ==> forall|j: int|
                0 <= j < old(self).area() ==> #[trigger] old(self).stepped_board()[j]
                    != TileState::Food,
            r == Outcome::Grew ==> exists|fj: int|
                0 <= fj < old(self).area() && #[trigger] old(self).stepped_board()[fj]
                    != TileState::SnakeHead && old(self).stepped_board()[fj]
                    != TileState::SnakeBody && final(self).spec_board() == old(
                    self,
                ).stepped_board().update(fj, TileState::Food),
    {
        let ghost g0 = *old(self);
        // The cell count fits a usize, so the grown length does too.
        let n0 = self.board.area();
        let r = self.step_without_food();
        if r == Outcome::Grew {
            let ghost s1 = *self;
            proof {
                lemma_tile_index_bounds(
                    g0.target_pos().x as int,
                    g0.target_pos().y as int,
                    g0.spec_width() as int,
                    g0.spec_height() as int,
                );
                // The eaten food was the one food cell, so none is left
                // after the move.
                assert forall|j: int| 0 <= j < self.area() implies #[trigger] self.spec_board()[j]
                    != TileState::Food by {
                    if self.spec_board()[j] == TileState::Food {
                        assert(g0.stepped_board()[j] == TileState::Food);
                        assert(g0.spec_board()[j] == TileState::Food);
                        assert(g0.spec_board()[g0.target_index()] == TileState::Food);
                        assert(j == g0.target_index());
                        assert(g0.stepped_board()[g0.target_index()] == TileState::SnakeHead);
                        assert(false);
                    }
                }
                // Room is left: the head and tail cannot cover every cell.
                assert(self.tail@.len() <= g0.stepped_length());
                lemma_free_cell_exists(
                    self.spec_board(),
                    g0.spec_width() as int,
                    self.head_index(),
                    self.tail@,
                );
            }
            self.place_food();
            proof {
                let fj = choose|j: int|
                    0 <= j < s1.area() && #[trigger] s1.spec_board()[j] != TileState::SnakeHead
                        && s1.spec_board()[j] != TileState::SnakeBody && self.spec_board()
                        == s1.spec_board().update(j, TileState::Food);
                assert(g0.stepped_board()[fj] != TileState::SnakeHead);
                assert(g0.stepped_board()[fj] != TileState::SnakeBody);
                assert(self.spec_board() == g0.stepped_board().update(fj, TileState::Food));
            }
        }
        r
    }

    /// The `i`-th tail entry, oldest first.
    pub fn tail_at(&self, i: usize) -> (p: Pos)
        requires
            i < self.spec_tail().len(),
        ensures
            p == self.spec_tail()[i as int],
    {
        self.tail[i]
    }
}

/// Occupancy invariant: in a well-formed session exactly one cell is
/// SnakeHead, namely the head's own cell; the SnakeBody cells are exactly
/// the cells the (already trimmed) tail covers; the tail never covers the
/// head cell; and the tail holds at most `length` entries.
pub proof fn lemma_occupancy(g: Game)
    requires
        g.wf(),
    ensures
        forall|j: int|
            0 <= j < g.area() ==> ((#[trigger] g.spec_board()[j] == TileState::SnakeHead) <==> j
                == g.head_index()),
        forall|j: int|
            0 <= j < g.area() ==> ((#[trigger] g.spec_board()[j] == TileState::SnakeBody)
                <==> tail_covers(g.spec_tail(), g.spec_width() as int, j)),
        !tail_covers(g.spec_tail(), g.spec_width() as int, g.head_index()),
        g.spec_tail().len() <= g.spec_length(),
{
    lemma_tile_index_bounds(
        g.spec_position().x as int,
        g.spec_position().y as int,
        g.spec_width() as int,
        g.spec_height() as int,
    );
    assert(g.spec_board()[g.head_index()] == TileState::SnakeHead);
}

/// No-reversal law: between ticks the two facings agree; a request for the
/// exact opposite direction is then refused and the facing stays what it
/// was, so the next step moves the head away from — never onto — the cell
/// directly behind it (the cell it came from, whenever that cell lies on
/// the board).
pub proof fn lemma_no_reversal(g: Game, d: Facing)
    requires
        g.wf(),
        g.spec_prev_facing() == g.spec_facing(),
        d == opposite(g.spec_facing()),
        !g.hits_wall(),
    ensures
        requested_facing(g.spec_prev_facing(), g.spec_facing(), d) == g.spec_facing(),
        !blocked_toward(
            g.spec_position(),
            opposite(g.spec_facing()),
            g.spec_width() as int,
            g.spec_height() as int,
        ) ==> g.target_pos() != pos_toward(g.spec_position(), opposite(g.spec_facing())),
{
    let p = g.spec_position();
    let ahead = g.target_pos();
    if !blocked_toward(p, opposite(g.spec_facing()), g.spec_width() as int, g.spec_height() as int) {
        let behind = pos_toward(p, opposite(g.spec_facing()));
        match g.spec_facing() {
            Facing::Up => {
                assert(1 <= p.y);
                assert(ahead.y == p.y + 1 && behind.y == p.y - 1);
                assert(ahead != behind);
            },
            Facing::Down => {
                assert(1 <= p.y);
                assert(ahead.y == p.y - 1 && behind.y == p.y + 1);
                assert(ahead != behind);
            },
            Facing::Left => {
                assert(1 <= p.x);
                assert(ahead.x == p.x - 1 && behind.x == p.x + 1);
                assert(ahead != behind);
            },
            Facing::Right => {
                assert(1 <= p.x);
                assert(ahead.x == p.x + 1 && behind.x == p.x - 1);
                assert(ahead != behind);
            },
        }
    }
}

impl View for Game {
    type V = Seq<TileState>;

    /// The game viewed as its board: a flat sequence of tiles, row by row.
    closed spec fn view(&self) -> Seq<TileState> {
        self.board@
    }
}

} // verus!
