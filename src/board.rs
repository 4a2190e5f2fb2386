use vstd::prelude::*;
use vstd::arithmetic::div_mod::lemma_fundamental_div_mod_converse;

use crate::components::{CellPosition, CellState};
use crate::loader::{first_error, lemma_loaded_cells, lines, pattern_cells, pattern_width};

verus! {

/// Why a board operation refused its arguments.
#[derive(Debug, Clone, Copy, PartialEq, Eq, Structural)]
pub enum BoardError {
    /// A position lies outside the board.
    InvalidPosition,
    /// A patch would reach past the right or bottom edge of the board.
    PatchOutOfBounds,
    /// A sequence of cells does not have the length its dimensions call for.
    DimensionMismatch,
}

/// The mathematical content of a board: its dimensions and its cells in row-major order.
pub ghost struct BoardView {
    pub width: nat,
    pub height: nat,
    pub cells: Seq<CellState>,
}

/// The cell reached from `x` by a step of `d` (one of -1, 0, 1) on a ring of `n` cells.
pub open spec fn wrap(x: int, d: int, n: int) -> int {
    if x + d < 0 {
        n - 1
    } else if x + d >= n {
        0
    } else {
        x + d
    }
}

/// Row offset of the `k`-th neighbour: rows above first, then the row itself, then below.
pub open spec fn offset_row(k: int) -> int {
    if k < 3 {
        -1
    } else if k < 5 {
        0
    } else {
        1
    }
}

/// Column offset of the `k`-th neighbour: left to right within each row, the centre skipped.
pub open spec fn offset_col(k: int) -> int {
    if k == 0 || k == 3 || k == 5 {
        -1
    } else if k == 1 || k == 6 {
        0
    } else {
        1
    }
}

/// The state that Conway's rule gives a cell from its state and its number of live neighbours.
pub open spec fn rule(alive: bool, live_neighbours: nat) -> CellState {
    if (alive && (live_neighbours == 2 || live_neighbours == 3)) || (!alive && live_neighbours
        == 3) {
        CellState::Alive
    } else {
        CellState::Dead
    }
}

/// Whether `p` lies in the rectangle of width `pw` and height `ph` whose top left is `origin`.
pub open spec fn in_patch(origin: CellPosition, pw: nat, ph: nat, p: CellPosition) -> bool {
    &&& origin.row <= p.row < origin.row + ph
    &&& origin.col <= p.col < origin.col + pw
}

impl BoardView {
    pub open spec fn wf(self) -> bool {
        &&& self.width > 0
        &&& self.height > 0
        &&& self.cells.len() == self.width * self.height
        &&& self.width * self.height <= usize::MAX
    }

    pub open spec fn in_bounds(self, p: CellPosition) -> bool {
        p.row < self.height && p.col < self.width
    }

    /// Where a position lies in the row-major sequence of cells.
    pub open spec fn index_of(self, p: CellPosition) -> int {
        p.row * self.width + p.col
    }

    /// The position of the cell at row-major index `i`.
    pub open spec fn pos_of(self, i: int) -> CellPosition {
        CellPosition { row: (i / self.width as int) as usize, col: (i % self.width as int) as usize }
    }

    pub open spec fn alive(self, p: CellPosition) -> bool {
        self.cells[self.index_of(p)] == CellState::Alive
    }

    /// The `k`-th of the eight neighbours of `p` on the torus.
    pub open spec fn neighbour(self, p: CellPosition, k: int) -> CellPosition {
        CellPosition {
            row: wrap(p.row as int, offset_row(k), self.height as int) as usize,
            col: wrap(p.col as int, offset_col(k), self.width as int) as usize,
        }
    }

    /// How many of the first `k` neighbours of `p` are alive.
    pub open spec fn live_among(self, p: CellPosition, k: int) -> nat
        decreases k,
    {
        if k <= 0 {
            0
        } else {
            self.live_among(p, k - 1) + if self.alive(self.neighbour(p, k - 1)) {
                1nat
            } else {
                0nat
            }
        }
    }

    pub open spec fn live_neighbours(self, p: CellPosition) -> nat {
        self.live_among(p, 8)
    }

    /// The state of `p` in the next generation.
    pub open spec fn next_state(self, p: CellPosition) -> CellState {
        rule(self.alive(p), self.live_neighbours(p))
    }

    /// All cells of the next generation, in row-major order.
    pub open spec fn next_cells(self) -> Seq<CellState> {
        Seq::new(self.cells.len(), |i: int| self.next_state(self.pos_of(i)))
    }

    /// The changes among the first `n` cells in row-major order: each cell whose next state
    /// differs from its present one, with that next state.
    pub open spec fn delta_upto(self, n: int) -> Seq<(CellPosition, CellState)>
        decreases n,
    {
        if n <= 0 {
            Seq::empty()
        } else {
            let p = self.pos_of(n - 1);
            let rest = self.delta_upto(n - 1);
            if self.next_state(p) != self.cells[n - 1] {
                rest.push((p, self.next_state(p)))
            } else {
                rest
            }
        }
    }

    /// What `patch` answers for a patch of `pw` by `ph` cells, given by `len` values, at `origin`.
    pub open spec fn patch_check(self, origin: CellPosition, pw: nat, ph: nat, len: nat) -> Result<
        (),
        BoardError,
    > {
        if !self.in_bounds(origin) {
            Err(BoardError::InvalidPosition)
        } else if origin.col + pw > self.width || origin.row + ph > self.height {
            Err(BoardError::PatchOutOfBounds)
        } else if len != pw * ph {
            Err(BoardError::DimensionMismatch)
        } else {
            Ok(())
        }
    }

    /// The cells after writing a patch of width `pw` and height `ph` at `origin`: a cell inside
    /// the patch's rectangle takes the patch's value, read row-major; any other keeps its own.
    pub open spec fn patched(self, origin: CellPosition, patch: Seq<bool>, pw: nat, ph: nat) -> Seq<
        CellState,
    > {
        self.patched_upto(origin, patch, pw, ph, (pw * ph) as int)
    }

    /// As `patched`, with only the first `k` values of the patch written.
    pub open spec fn patched_upto(
        self,
        origin: CellPosition,
        patch: Seq<bool>,
        pw: nat,
        ph: nat,
        k: int,
    ) -> Seq<CellState> {
        Seq::new(
            self.cells.len(),
            |i: int|
                {
                    let p = self.pos_of(i);
                    let j = (p.row - origin.row) * pw + (p.col - origin.col);
                    if in_patch(origin, pw, ph, p) && j < k {
                        CellState::spec_from_bool(patch[j])
                    } else {
                        self.cells[i]
                    }
                },
        )
    }

    /// The changes of one generation over the whole board.
    pub open spec fn delta(self) -> Seq<(CellPosition, CellState)> {
        self.delta_upto(self.cells.len() as int)
    }
}

/// An all-dead board of the given dimensions.
pub open spec fn dead_board(width: nat, height: nat) -> BoardView {
    BoardView {
        width,
        height,
        cells: Seq::new(width * height, |i: int| CellState::Dead),
    }
}

/// Where a pattern of `pw` by `ph` cells starts when centred on a board of `w` by `h`
/// (rounding towards the top left).
pub open spec fn centre_origin(w: nat, h: nat, pw: nat, ph: nat) -> CellPosition {
    CellPosition { row: ((h - ph) / 2) as usize, col: ((w - pw) / 2) as usize }
}

/// A fixed-size toroidal board of cells, stored row-major.
pub struct CellBoard {
    width: usize,
    height: usize,
    state: Vec<CellState>,
}

impl View for CellBoard {
    type V = BoardView;

    closed spec fn view(&self) -> BoardView {
        BoardView { width: self.width as nat, height: self.height as nat, cells: self.state@ }
    }
}

/// A cell within the board lies within the row-major sequence of its cells.
pub proof fn lemma_index_in_range(w: int, h: int, r: int, c: int)
    requires
        0 <= r < h,
        0 <= c < w,
    ensures
        0 <= r * w + c < w * h,
{
    assert(0 <= r * w + c < w * h) by (nonlinear_arith)
        requires
            0 <= r < h,
            0 <= c < w,
    ;
}

/// Row-major index and position agree on every cell of a well-formed board.
pub proof fn lemma_pos_of(v: BoardView, i: int)
    requires
        v.wf(),
        0 <= i < v.cells.len(),
    ensures
        v.in_bounds(v.pos_of(i)),
        v.index_of(v.pos_of(i)) == i,
{
    let w = v.width as int;
    let h = v.height as int;
    vstd::arithmetic::div_mod::lemma_fundamental_div_mod(i, w);
    let q = i / w;
    let r = i % w;
    assert(0 <= q < h) by (nonlinear_arith)
        requires
            i == w * q + r,
            0 <= r < w,
            0 <= i < w * h,
    ;
    assert(q <= w * h) by (nonlinear_arith)
        requires
            0 <= q < h,
            w > 0,
    ;
    assert(w * q == q * w) by (nonlinear_arith);
    assert(v.pos_of(i).row == q);
    assert(v.pos_of(i).col == r);
}

/// The position at row-major index `i`, for `i == row * width + col` with `col < width`.
proof fn lemma_pos_of_parts(v: BoardView, i: int, row: int, col: int)
    requires
        v.width > 0,
        0 <= row <= usize::MAX,
        0 <= col < v.width,
        i == row * v.width + col,
    ensures
        v.pos_of(i) == (CellPosition { row: row as usize, col: col as usize }),
{
    lemma_fundamental_div_mod_converse(i, v.width as int, row, col);
}

/// A step of `d` on a ring of `n` cells stays on the ring.
fn step(x: usize, d: i8, n: usize) -> (r: usize)
    requires
        x < n,
        -1 <= d <= 1,
    ensures
        r == wrap(x as int, d as int, n as int),
        r < n,
{
    if d < 0 {
        if x == 0 {
            n - 1
        } else {
            x - 1
        }
    } else if d > 0 {
        if x + 1 >= n {
            0
        } else {
            x + 1
        }
    } else {
        x
    }
}

impl CellBoard {
    /// The board is well formed: positive dimensions and one cell for each position.
    pub open spec fn wf(&self) -> bool {
        self@.wf()
    }

    /// An all-dead board of the given dimensions.
    pub fn new(width: usize, height: usize) -> (r: CellBoard)
        requires
            width > 0,
            height > 0,
            width * height <= usize::MAX,
        ensures
            r.wf(),
            r@.width == width,
            r@.height == height,
            r@.cells == Seq::new((width * height) as nat, |i: int| CellState::Dead),
    {
        let n: usize = width * height;
        let state = vec![CellState::Dead; n];
        let r = CellBoard { width, height, state };
        assert(r@.cells =~= Seq::new((width * height) as nat, |i: int| CellState::Dead));
        r
    }

    /// A board with the given cells, read row-major; refused unless there is one cell for
    /// each position.
    pub fn from_state(width: usize, height: usize, state: Vec<CellState>) -> (r: Result<
        CellBoard,
        BoardError,
    >)
        requires
            width > 0,
            height > 0,
        ensures
            state@.len() == width * height <==> r is Ok,
            r is Err ==> r == Err::<CellBoard, BoardError>(BoardError::DimensionMismatch),
            r matches Ok(b) ==> b.wf() && b@.width == width && b@.height == height && b@.cells
                == state@,
    {
        if state.len() / width != height || state.len() % width != 0 {
            proof {
                if state@.len() == width * height {
                    lemma_fundamental_div_mod_converse(
                        state@.len() as int,
                        width as int,
                        height as int,
                        0,
                    );
                }
            }
            return Err(BoardError::DimensionMismatch);
        }
        proof {
            let len = state@.len() as int;
            let w = width as int;
            vstd::arithmetic::div_mod::lemma_fundamental_div_mod(len, w);
            assert(len == w * height);
        }
        Ok(CellBoard { width, height, state })
    }

    /// An all-dead board of `width` by `height` with a pattern of `pattern_width` by
    /// `pattern_height` cells (`true` alive, row-major) written at its centre. Refused where
    /// the pattern is larger than the board in either dimension, or `pattern` does not hold
    /// one value per cell of it.
    pub fn with_centered_pattern(
        width: usize,
        height: usize,
        pattern: &[bool],
        pattern_width: usize,
        pattern_height: usize,
    ) -> (r: Result<CellBoard, BoardError>)
        requires
            width > 0,
            height > 0,
            width * height <= usize::MAX,
        ensures
            pattern_width > width || pattern_height > height ==> r == Err::<CellBoard, BoardError>(
                BoardError::PatchOutOfBounds,
            ),
            pattern_width <= width && pattern_height <= height && pattern@.len() != pattern_width
                * pattern_height ==> r == Err::<CellBoard, BoardError>(BoardError::DimensionMismatch),
            r is Ok <==> pattern_width <= width && pattern_height <= height && pattern@.len()
                == pattern_width * pattern_height,
            r matches Ok(b) ==> {
                &&& b.wf()
                &&& b@.width == width
                &&& b@.height == height
                &&& b@.cells == dead_board(width as nat, height as nat).patched(
                    centre_origin(
                        width as nat,
                        height as nat,
                        pattern_width as nat,
                        pattern_height as nat,
                    ),
                    pattern@,
                    pattern_width as nat,
                    pattern_height as nat,
                )
            },
    {
        if pattern_width > width || pattern_height > height {
            return Err(BoardError::PatchOutOfBounds);
        }
        let mut board = CellBoard::new(width, height);
        let origin = CellPosition {
            row: (height - pattern_height) / 2,
            col: (width - pattern_width) / 2,
        };
        assert(board@ == dead_board(width as nat, height as nat));
        match board.patch(origin, pattern, pattern_width, pattern_height) {
            Ok(()) => Ok(board),
            Err(e) => Err(e),
        }
    }

    pub fn width(&self) -> (r: usize)
        ensures
            r == self@.width,
    {
        self.width
    }

    pub fn height(&self) -> (r: usize)
        ensures
            r == self@.height,
    {
        self.height
    }

    fn index(&self, pos: CellPosition) -> (r: usize)
        requires
            self.wf(),
            self@.in_bounds(pos),
        ensures
            r == self@.index_of(pos),
            r < self@.cells.len(),
    {
        proof {
            lemma_index_in_range(self.width as int, self.height as int, pos.row as int, pos.col as int);
        }
        pos.row * self.width + pos.col
    }

    /// Whether the cell at `pos` is alive.
    pub fn alive(&self, pos: CellPosition) -> (r: bool)
        requires
            self.wf(),
            self@.in_bounds(pos),
        ensures
            r == self@.alive(pos),
    {
        let i = self.index(pos);
        match self.state[i] {
            CellState::Alive => true,
            CellState::Dead => false,
        }
    }

    /// The eight toroidal neighbours of `pos`, row by row from above, left to right.
    pub fn neighbours(&self, pos: CellPosition) -> (r: Vec<CellPosition>)
        requires
            self.wf(),
            self@.in_bounds(pos),
        ensures
            r@.len() == 8,
            forall|k: int| 0 <= k < 8 ==> #[trigger] r@[k] == self@.neighbour(pos, k),
            forall|k: int| 0 <= k < 8 ==> self@.in_bounds(#[trigger] r@[k]),
    {
        let mut r: Vec<CellPosition> = Vec::new();
        let mut k: usize = 0;
        while k < 8
            invariant
                self.wf(),
                self@.in_bounds(pos),
                k <= 8,
                r@.len() == k,
                forall|j: int| 0 <= j < k ==> #[trigger] r@[j] == self@.neighbour(pos, j),
                forall|j: int| 0 <= j < k ==> self@.in_bounds(#[trigger] r@[j]),
            decreases 8 - k,
        {
            let dr: i8 = if k < 3 {
                -1
            } else if k < 5 {
                0
            } else {
                1
            };
            let dc: i8 = if k == 0 || k == 3 || k == 5 {
                -1
            } else if k == 1 || k == 6 {
                0
            } else {
                1
            };
            let row = step(pos.row, dr, self.height);
            let col = step(pos.col, dc, self.width);
            r.push(CellPosition { row, col });
            k += 1;
        }
        r
    }

    /// How many of the neighbours of `pos` are alive.
    fn count_live_neighbours(&self, pos: CellPosition) -> (r: usize)
        requires
            self.wf(),
            self@.in_bounds(pos),
        ensures
            r == self@.live_neighbours(pos),
    {
        let ns = self.neighbours(pos);
        let mut n: usize = 0;
        let mut k: usize = 0;
        while k < 8
            invariant
                self.wf(),
                ns@.len() == 8,
                forall|j: int| 0 <= j < 8 ==> #[trigger] ns@[j] == self@.neighbour(pos, j),
                forall|j: int| 0 <= j < 8 ==> self@.in_bounds(#[trigger] ns@[j]),
                k <= 8,
                n <= k,
                n == self@.live_among(pos, k as int),
            decreases 8 - k,
        {
            if self.alive(ns[k]) {
                n += 1;
            }
            k += 1;
        }
        n
    }

    /// The next generation of every cell, and the changes from this one in row-major order.
    fn next_generation(&self) -> (r: (Vec<CellState>, Vec<(CellPosition, CellState)>))
        requires
            self.wf(),
        ensures
            r.0@ == self@.next_cells(),
            r.1@ == self@.delta(),
    {
        let n = self.state.len();
        let mut next: Vec<CellState> = Vec::new();
        let mut delta: Vec<(CellPosition, CellState)> = Vec::new();
        let mut i: usize = 0;
        let mut row: usize = 0;
        let mut col: usize = 0;
        while i < n
            invariant
                self.wf(),
                n == self@.cells.len(),
                i <= n,
                col < self.width,
                i == row * self.width + col,
                i < n ==> row < self.height,
                next@.len() == i,
                forall|j: int| 0 <= j < i ==> #[trigger] next@[j] == self@.next_state(self@.pos_of(j)),
                delta@ == self@.delta_upto(i as int),
            decreases n - i,
        {
            let pos = CellPosition { row, col };
            proof {
                lemma_pos_of_parts(self@, i as int, row as int, col as int);
            }
            let alive = self.alive(pos);
            let live = self.count_live_neighbours(pos);
            let s = if (alive && (live == 2 || live == 3)) || (!alive && live == 3) {
                CellState::Alive
            } else {
                CellState::Dead
            };
            next.push(s);
            if s != self.state[i] {
                delta.push((pos, s));
            }
            proof {
                let w = self.width as int;
                let h = self.height as int;
                assert((row + 1) * w == row * w + w) by (nonlinear_arith);
                if col + 1 == w && i + 1 < n {
                    assert(row + 1 < h) by (nonlinear_arith)
                        requires
                            i + 1 == (row + 1) * w,
                            i + 1 < w * h,
                            w > 0,
                    ;
                }
            }
            i += 1;
            col += 1;
            if col == self.width {
                col = 0;
                row += 1;
            }
        }
        assert(next@ =~= self@.next_cells());
        (next, delta)
    }

    /// Advances the board by one generation under Conway's rule, computed from the present
    /// generation for every cell at once, and returns the cells that changed, row-major.
    pub fn cycle(&mut self) -> (r: Vec<(CellPosition, CellState)>)
        requires
            old(self).wf(),
        ensures
            final(self).wf(),
            final(self)@.width == old(self)@.width,
            final(self)@.height == old(self)@.height,
            final(self)@.cells == old(self)@.next_cells(),
            r@ == old(self)@.delta(),
    {
        let (next, delta) = self.next_generation();
        self.state = next;
        delta
    }

    /// Writes a rectangle of cells, `patch_width` by `patch_height`, read row-major from
    /// `patch` (`true` is alive), with its top left cell at `origin`. Refused, with the board
    /// left as it was, where `origin` is off the board, the rectangle reaches past its edge,
    /// or `patch` does not hold one value per cell of the rectangle.
    pub fn patch(
        &mut self,
        origin: CellPosition,
        patch: &[bool],
        patch_width: usize,
        patch_height: usize,
    ) -> (r: Result<(), BoardError>)
        requires
            old(self).wf(),
        ensures
            r == old(self)@.patch_check(
                origin,
                patch_width as nat,
                patch_height as nat,
                patch@.len(),
            ),
            final(self).wf(),
            final(self)@.width == old(self)@.width,
            final(self)@.height == old(self)@.height,
            r is Ok ==> final(self)@.cells == old(self)@.patched(
                origin,
                patch@,
                patch_width as nat,
                patch_height as nat,
            ),
            r is Err ==> final(self)@ == old(self)@,
    {
        if origin.row >= self.height || origin.col >= self.width {
            return Err(BoardError::InvalidPosition);
        }
        if patch_width > self.width - origin.col || patch_height > self.height - origin.row {
            return Err(BoardError::PatchOutOfBounds);
        }
        proof {
            assert(patch_width * patch_height <= self.width * self.height) by (nonlinear_arith)
                requires
                    patch_width <= self.width,
                    patch_height <= self.height,
            ;
        }
        let total = patch_width * patch_height;
        if patch.len() != total {
            return Err(BoardError::DimensionMismatch);
        }
        let ghost v = self@;
        let ghost pw = patch_width as nat;
        let ghost ph = patch_height as nat;
        assert(self@.cells =~= v.patched_upto(origin, patch@, pw, ph, 0));
        assert(pw * ph > 0 ==> pw > 0 && ph > 0) by (nonlinear_arith);
        let mut k: usize = 0;
        let mut pr: usize = 0;
        let mut pc: usize = 0;
        while k < total
            invariant
                self.wf(),
                self@.width == v.width,
                self@.height == v.height,
                v.wf(),
                v.in_bounds(origin),
                origin.col + pw <= v.width,
                origin.row + ph <= v.height,
                pw == patch_width,
                ph == patch_height,
                total == pw * ph,
                patch@.len() == total,
                k <= total,
                k == pr * pw + pc,
                k < total ==> pc < pw && pr < ph,
                self@.cells == v.patched_upto(origin, patch@, pw, ph, k as int),
            decreases total - k,
        {
            let pos = CellPosition { row: origin.row + pr, col: origin.col + pc };
            let i = self.index(pos);
            let value = CellState::from_bool(patch[k]);
            self.state.set(i, value);
            proof {
                let w = v.width as int;
                let next = v.patched_upto(origin, patch@, pw, ph, k + 1);
                assert forall|j: int| 0 <= j < v.cells.len() implies #[trigger] self@.cells[j]
                    == next[j] by {
                    lemma_pos_of(v, j);
                    let p = v.pos_of(j);
                    let m = (p.row - origin.row) * pw + (p.col - origin.col);
                    if j == i {
                        lemma_pos_of_parts(v, j, pos.row as int, pos.col as int);
                        assert(m == k);
                    } else if in_patch(origin, pw, ph, p) && m == k {
                        lemma_fundamental_div_mod_converse(
                            k as int,
                            pw as int,
                            p.row - origin.row,
                            p.col - origin.col,
                        );
                        lemma_fundamental_div_mod_converse(k as int, pw as int, pr as int, pc as int);
                        assert(p == pos);
                    }
                }
                assert(self@.cells =~= next);
            }
            let ghost k0 = k as int;
            let ghost pr0 = pr as int;
            let ghost pc0 = pc as int;
            k += 1;
            pc += 1;
            if pc == patch_width {
                pc = 0;
                pr += 1;
            }
            proof {
                let t = total as int;
                assert(k == pr * pw + pc && (k < t ==> pc < pw && pr < ph)) by (nonlinear_arith)
                    requires
                        k == k0 + 1,
                        k0 == pr0 * pw + pc0,
                        0 <= pc0 < pw,
                        0 <= pr0 < ph,
                        pc0 + 1 == pw ==> pc == 0 && pr == pr0 + 1,
                        pc0 + 1 != pw ==> pc == pc0 + 1 && pr == pr0,
                        t == pw * ph,
                ;
            }
        }
        Ok(())
    }

    /// Writes one cell.
    pub fn set(&mut self, pos: CellPosition, state: CellState)
        requires
            old(self).wf(),
            old(self)@.in_bounds(pos),
        ensures
            final(self).wf(),
            final(self)@.width == old(self)@.width,
            final(self)@.height == old(self)@.height,
            final(self)@.cells == old(self)@.cells.update(old(self)@.index_of(pos), state),
    {
        let i = self.index(pos);
        self.state.set(i, state);
    }
}


/// Every neighbour of a cell lies on the board; stepping back along the opposite offset
/// returns to the cell; on a board at least two wide and two high no neighbour is the cell
/// itself; and a step past an edge lands on the opposite edge.
pub proof fn lemma_neighbours_on_torus(v: BoardView, p: CellPosition, k: int)
    requires
        v.wf(),
        v.in_bounds(p),
        0 <= k < 8,
    ensures
        v.in_bounds(v.neighbour(p, k)),
        v.neighbour(v.neighbour(p, k), 7 - k) == p,
        v.width >= 2 && v.height >= 2 ==> v.neighbour(p, k) != p,
        p.row == 0 && offset_row(k) == -1 ==> v.neighbour(p, k).row == v.height - 1,
        p.row == v.height - 1 && offset_row(k) == 1 ==> v.neighbour(p, k).row == 0,
        p.col == 0 && offset_col(k) == -1 ==> v.neighbour(p, k).col == v.width - 1,
        p.col == v.width - 1 && offset_col(k) == 1 ==> v.neighbour(p, k).col == 0,
{
    assert(v.width <= v.width * v.height && v.height <= v.width * v.height) by (nonlinear_arith)
        requires
            v.width > 0,
            v.height > 0,
    ;
}

/// On a board at least three wide and three high the eight neighbours of a cell are eight
/// different cells.
pub proof fn lemma_neighbours_distinct(v: BoardView, p: CellPosition, j: int, k: int)
    requires
        v.wf(),
        v.in_bounds(p),
        v.width >= 3,
        v.height >= 3,
        0 <= j < 8,
        0 <= k < 8,
        j != k,
    ensures
        v.neighbour(p, j) != v.neighbour(p, k),
{
    assert(v.width <= v.width * v.height && v.height <= v.width * v.height) by (nonlinear_arith)
        requires
            v.width > 0,
            v.height > 0,
    ;
}

/// The changes of a generation come in strictly increasing row-major order; each names a
/// cell of the board with its next state, which differs from its present one; and every cell
/// whose state changes is among them.
pub proof fn lemma_delta_row_major(v: BoardView)
    requires
        v.wf(),
    ensures
        forall|a: int, b: int|
            0 <= a < b < v.delta().len() ==> v.index_of(#[trigger] v.delta()[a].0) < v.index_of(
                #[trigger] v.delta()[b].0,
            ),
        forall|a: int|
            0 <= a < v.delta().len() ==> {
                let (q, s) = #[trigger] v.delta()[a];
                &&& v.in_bounds(q)
                &&& s == v.next_state(q)
                &&& s != v.cells[v.index_of(q)]
            },
        forall|i: int|
            0 <= i < v.cells.len() && #[trigger] v.next_cells()[i] != v.cells[i] ==> exists|a: int|
                0 <= a < v.delta().len() && #[trigger] v.delta()[a] == (v.pos_of(i), v.next_cells()[i]),
{
    lemma_delta_upto(v, v.cells.len() as int);
}

proof fn lemma_delta_upto(v: BoardView, n: int)
    requires
        v.wf(),
        0 <= n <= v.cells.len(),
    ensures
        forall|a: int|
            0 <= a < v.delta_upto(n).len() ==> {
                let (q, s) = #[trigger] v.delta_upto(n)[a];
                &&& v.in_bounds(q)
                &&& 0 <= v.index_of(q) < n
                &&& s == v.next_state(q)
                &&& s != v.cells[v.index_of(q)]
            },
        forall|a: int, b: int|
            0 <= a < b < v.delta_upto(n).len() ==> v.index_of(#[trigger] v.delta_upto(n)[a].0)
                < v.index_of(#[trigger] v.delta_upto(n)[b].0),
        forall|i: int|
            0 <= i < n && #[trigger] v.next_cells()[i] != v.cells[i] ==> exists|a: int|
                0 <= a < v.delta_upto(n).len() && #[trigger] v.delta_upto(n)[a] == (
                    v.pos_of(i),
                    v.next_cells()[i],
                ),
    decreases n,
{
    if n > 0 {
        lemma_delta_upto(v, n - 1);
        lemma_pos_of(v, n - 1);
        let rest = v.delta_upto(n - 1);
        let d = v.delta_upto(n);
        let p = v.pos_of(n - 1);
        assert forall|i: int|
            0 <= i < n && #[trigger] v.next_cells()[i] != v.cells[i] implies exists|a: int|
                0 <= a < d.len() && #[trigger] d[a] == (v.pos_of(i), v.next_cells()[i]) by {
            if i < n - 1 {
                let a = choose|a: int|
                    0 <= a < rest.len() && #[trigger] rest[a] == (v.pos_of(i), v.next_cells()[i]);
                assert(d[a] == rest[a]);
            } else {
                assert(d[rest.len() as int] == (p, v.next_state(p)));
            }
        }
    }
}

/// Writing a patch that reaches past the right edge is refused; one that ends exactly at the
/// right edge and fits in height is accepted, and leaves every cell outside its rectangle
/// as it was.
pub proof fn lemma_patch_right_edge(
    v: BoardView,
    origin: CellPosition,
    patch: Seq<bool>,
    pw: nat,
    ph: nat,
)
    requires
        v.wf(),
    ensures
        origin.col + pw > v.width ==> v.patch_check(origin, pw, ph, patch.len()) is Err,
        v.in_bounds(origin) && origin.col + pw == v.width && origin.row + ph <= v.height
            && patch.len() == pw * ph ==> {
            &&& v.patch_check(origin, pw, ph, patch.len()) is Ok
            &&& forall|i: int|
                0 <= i < v.cells.len() && !in_patch(origin, pw, ph, v.pos_of(i)) ==> #[trigger] v.patched(
                    origin,
                    patch,
                    pw,
                    ph,
                )[i] == v.cells[i]
        },
{
}


/// A text pattern that loads, written centred on a board of its own size, reads back cell
/// for cell: the cell at row `r`, column `c` is alive exactly where line `r` of the text has
/// an `X` at column `c`.
pub proof fn lemma_pattern_round_trip(text: Seq<u8>)
    requires
        first_error(lines(text)) is None,
        lines(text).len() > 0,
        pattern_width(lines(text)) > 0,
        pattern_width(lines(text)) * lines(text).len() <= usize::MAX,
    ensures
        ({
            let ls = lines(text);
            let w = pattern_width(ls);
            let h = ls.len();
            let b = BoardView {
                width: w,
                height: h,
                cells: dead_board(w, h).patched(centre_origin(w, h, w, h), pattern_cells(ls), w, h),
            };
            &&& b.wf()
            &&& forall|p: CellPosition| #[trigger] b.in_bounds(p) ==> b.alive(p) == (ls[p.row as int][p.col as int] == 88u8)
        }),
{
    let ls = lines(text);
    let w = pattern_width(ls);
    let h = ls.len();
    let d = dead_board(w, h);
    let b = BoardView {
        width: w,
        height: h,
        cells: d.patched(centre_origin(w, h, w, h), pattern_cells(ls), w, h),
    };
    lemma_loaded_cells(text);
    assert forall|p: CellPosition| #[trigger] b.in_bounds(p) implies b.alive(p) == (ls[p.row as int][p.col as int] == 88u8) by {
        let i = b.index_of(p);
        lemma_index_in_range(w as int, h as int, p.row as int, p.col as int);
        lemma_pos_of_parts(d, i, p.row as int, p.col as int);
    }
}

} // verus!
