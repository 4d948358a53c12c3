//! Board and piece state model together with the move engine: movement
//! legality, the state transition itself, and the exit test for the prisoner.

use vstd::prelude::*;

verus! {

/// A zero-based grid coordinate, bounded by the board dimensions.
#[derive(Clone, Copy, Debug, PartialEq, Eq, Structural)]
pub struct Point {
    pub x: u8,
    pub y: u8,
}

/// An axis-aligned segment of cells given by its inclusive endpoints.
/// `begin` is the lexicographically smaller corner in row-major scan order;
/// `horizontal` is derived from the endpoints.
#[derive(Clone, Copy, Debug, PartialEq, Eq, Structural)]
pub struct Piece {
    pub begin: Point,
    pub end: Point,
    pub horizontal: bool,
}

/// The occupancy grid: `matrix[y][x]` is `0` for an empty cell, or `k > 0`
/// when the cell lies in the footprint of the piece at array index `k - 1`.
#[derive(Debug)]
pub struct Board {
    pub matrix: Vec<Vec<i8>>,
}

/// A puzzle state: the occupancy grid, its dimensions, the pieces (index 0 is
/// the prisoner), which 1-based piece positions are disabled or have their
/// movement axis reversed, the exit side, and the exit cell computed at
/// construction time.
#[derive(Debug)]
pub struct Game {
    pub board: Board,
    pub width: usize,
    pub height: usize,
    pub pieces: Vec<Piece>,
    pub disabled_pieces: Vec<usize>,
    pub reversed_pieces: Vec<usize>,
    pub exit: bool,
    pub exit_point: Point,
}

/// The mathematical value of a `Game`, used by every contract in the crate.
#[verifier::ext_equal]
pub struct GameModel {
    pub board: Seq<Seq<i8>>,
    pub width: int,
    pub height: int,
    pub pieces: Seq<Piece>,
    pub disabled: Seq<usize>,
    pub reversed: Seq<usize>,
    pub exit: bool,
    pub exit_point: Point,
}

impl View for Board {
    type V = Seq<Seq<i8>>;

    open spec fn view(&self) -> Seq<Seq<i8>> {
        self.matrix@.map_values(|row: Vec<i8>| row@)
    }
}

impl View for Game {
    type V = GameModel;

    open spec fn view(&self) -> GameModel {
        GameModel {
            board: self.board@,
            width: self.width as int,
            height: self.height as int,
            pieces: self.pieces@,
            disabled: self.disabled_pieces@,
            reversed: self.reversed_pieces@,
            exit: self.exit,
            exit_point: self.exit_point,
        }
    }
}

/// Whether `(x, y)` lies in the footprint of `p`.
pub open spec fn in_piece(p: Piece, x: int, y: int) -> bool {
    &&& p.begin.x <= x <= p.end.x
    &&& p.begin.y <= y <= p.end.y
}

/// A piece is a well-formed axis-aligned segment: endpoints ordered on both
/// axes, equal on at least one of them, with `horizontal` matching the shape.
pub open spec fn piece_shape_ok(p: Piece) -> bool {
    &&& p.begin.x <= p.end.x
    &&& p.begin.y <= p.end.y
    &&& p.begin.x == p.end.x || p.begin.y == p.end.y
    &&& p.horizontal == (p.begin.y == p.end.y)
}

impl GameModel {
    /// The label of the cell at `(x, y)`.
    pub open spec fn cell(self, x: int, y: int) -> i8 {
        self.board[y][x]
    }

    /// `(x, y)` is a coordinate on the board.
    pub open spec fn on_board(self, x: int, y: int) -> bool {
        0 <= x < self.width && 0 <= y < self.height
    }

    /// The piece's footprint lies within the board.
    pub open spec fn piece_in_bounds(self, p: Piece) -> bool {
        p.end.x < self.width && p.end.y < self.height
    }

    /// Well-formedness of a state.  Dimensions and the piece count fit the
    /// signed 8-bit label domain; the grid is rectangular; every piece is a
    /// well-formed in-bounds segment; the grid labels are exactly the piece
    /// footprints (which also rules out overlap); the disabled and reversed
    /// sets name existing 1-based piece positions.
    pub open spec fn wf(self) -> bool {
        &&& 1 <= self.width <= 127
        &&& 1 <= self.height <= 127
        &&& self.board.len() == self.height
        &&& forall|y: int| 0 <= y < self.height ==> (#[trigger] self.board[y]).len() == self.width
        &&& self.pieces.len() <= 127
        &&& forall|i: int|
            0 <= i < self.pieces.len() ==> piece_shape_ok(#[trigger] self.pieces[i])
                && self.piece_in_bounds(self.pieces[i])
        &&& forall|i: int, x: int, y: int|
            0 <= i < self.pieces.len() && #[trigger] in_piece(self.pieces[i], x, y) ==> self.cell(
                x,
                y,
            ) as int == i + 1
        &&& forall|x: int, y: int|
            self.on_board(x, y) && #[trigger] self.cell(x, y) != 0 ==> 1 <= self.cell(x, y) as int
                <= self.pieces.len() && in_piece(self.pieces[self.cell(x, y) - 1], x, y)
        &&& forall|p: usize| self.disabled.contains(p) ==> 1 <= p <= self.pieces.len()
        &&& forall|p: usize| self.reversed.contains(p) ==> 1 <= p <= self.pieces.len()
    }
}

/// Whether `(x, y)` lies in the half-open rectangle `r = (x0, x1, y0, y1)`.
pub open spec fn in_rect(r: (int, int, int, int), x: int, y: int) -> bool {
    &&& r.0 <= x < r.1
    &&& r.2 <= y < r.3
}

/// The half-open rectangle of cells a piece newly enters when it travels
/// `steps` cells along the `horiz` axis: the `steps` cells beyond its leading
/// edge, spanning the piece's full extent on the cross axis.
pub open spec fn strip_rect(p: Piece, horiz: bool, dir: bool, steps: int) -> (int, int, int, int) {
    if horiz {
        if dir {
            (p.end.x + 1, p.end.x + 1 + steps, p.begin.y as int, p.end.y + 1)
        } else {
            (p.begin.x - steps, p.begin.x as int, p.begin.y as int, p.end.y + 1)
        }
    } else {
        if dir {
            (p.begin.x as int, p.end.x + 1, p.end.y + 1, p.end.y + 1 + steps)
        } else {
            (p.begin.x as int, p.end.x + 1, p.begin.y - steps, p.begin.y as int)
        }
    }
}

/// `p` translated by `steps` cells along the `horiz` axis, towards larger
/// coordinates when `dir` holds.  The stored orientation is untouched.
pub open spec fn translated(p: Piece, horiz: bool, dir: bool, steps: int) -> Piece {
    if horiz {
        if dir {
            Piece {
                begin: Point { x: (p.begin.x + steps) as u8, y: p.begin.y },
                end: Point { x: (p.end.x + steps) as u8, y: p.end.y },
                horizontal: p.horizontal,
            }
        } else {
            Piece {
                begin: Point { x: (p.begin.x - steps) as u8, y: p.begin.y },
                end: Point { x: (p.end.x - steps) as u8, y: p.end.y },
                horizontal: p.horizontal,
            }
        }
    } else {
        if dir {
            Piece {
                begin: Point { x: p.begin.x, y: (p.begin.y + steps) as u8 },
                end: Point { x: p.end.x, y: (p.end.y + steps) as u8 },
                horizontal: p.horizontal,
            }
        } else {
            Piece {
                begin: Point { x: p.begin.x, y: (p.begin.y - steps) as u8 },
                end: Point { x: p.end.x, y: (p.end.y - steps) as u8 },
                horizontal: p.horizontal,
            }
        }
    }
}

impl GameModel {
    /// The axis along which piece `i` travels: its natural axis, flipped when
    /// its 1-based position is in the reversed set.
    pub open spec fn eff_horizontal(self, i: int) -> bool {
        if self.reversed.contains((i + 1) as usize) {
            !self.pieces[i].horizontal
        } else {
            self.pieces[i].horizontal
        }
    }

    /// The travelled piece stays on the board.
    pub open spec fn move_in_bounds(self, i: int, dir: bool, steps: int) -> bool {
        let p = self.pieces[i];
        if self.eff_horizontal(i) {
            if dir {
                p.end.x + steps < self.width
            } else {
                steps <= p.begin.x
            }
        } else {
            if dir {
                p.end.y + steps < self.height
            } else {
                steps <= p.begin.y
            }
        }
    }

    /// Every newly entered cell is empty or already the piece's own.
    pub open spec fn strip_free(self, i: int, dir: bool, steps: int) -> bool {
        forall|x: int, y: int|
            #[trigger] in_rect(
                strip_rect(self.pieces[i], self.eff_horizontal(i), dir, steps),
                x,
                y,
            ) ==> self.cell(x, y) == 0 || self.cell(x, y) as int == i + 1
    }

    /// Legality of moving piece `i` by `steps` cells: the piece is not
    /// disabled, the move stays on the board, and the entered strip is free.
    pub open spec fn move_ok(self, i: int, dir: bool, steps: int) -> bool {
        &&& !self.disabled.contains((i + 1) as usize)
        &&& self.move_in_bounds(i, dir, steps)
        &&& self.strip_free(i, dir, steps)
    }

    /// The state after legally moving piece `i`: its old footprint is cleared,
    /// the piece is translated along its effective axis, and the new footprint
    /// is stamped with its label.
    pub open spec fn move_result(self, i: int, dir: bool, steps: int) -> GameModel {
        let p = self.pieces[i];
        let q = translated(p, self.eff_horizontal(i), dir, steps);
        GameModel {
            board: Seq::new(
                self.height as nat,
                |y: int|
                    Seq::new(
                        self.width as nat,
                        |x: int|
                            if in_piece(q, x, y) {
                                (i + 1) as i8
                            } else if in_piece(p, x, y) {
                                0i8
                            } else {
                                self.board[y][x]
                            },
                    ),
            ),
            pieces: self.pieces.update(i, q),
            ..self
        }
    }

    /// Every cell of `p`'s footprint is empty.
    pub open spec fn can_place(self, p: Piece) -> bool {
        forall|x: int, y: int| #[trigger] in_piece(p, x, y) ==> self.cell(x, y) == 0
    }

    /// The state after appending `piece`: it is stamped with the next label,
    /// whose position is recorded in the disabled or reversed set as asked.
    pub open spec fn add_result(self, piece: Piece, disabled: bool, reversed: bool) -> GameModel {
        let n = self.pieces.len() as int;
        GameModel {
            board: Seq::new(
                self.height as nat,
                |y: int|
                    Seq::new(
                        self.width as nat,
                        |x: int|
                            if in_piece(piece, x, y) {
                                (n + 1) as i8
                            } else {
                                self.board[y][x]
                            },
                    ),
            ),
            pieces: self.pieces.push(piece),
            disabled: if disabled {
                self.disabled.push((n + 1) as usize)
            } else {
                self.disabled
            },
            reversed: if reversed {
                self.reversed.push((n + 1) as usize)
            } else {
                self.reversed
            },
            ..self
        }
    }

    /// The prisoner's footprint touches the chosen board edge, so no cell
    /// lies between it and the edge: such a state is solved whatever else
    /// stands on the board.
    pub open spec fn prisoner_flush(self) -> bool {
        let p = self.pieces[0];
        if p.horizontal {
            if self.exit {
                p.end.x + 1 >= self.width
            } else {
                p.begin.x == 0
            }
        } else {
            if self.exit {
                p.end.y + 1 >= self.height
            } else {
                p.begin.y == 0
            }
        }
    }

    /// Every cell strictly between the prisoner's footprint and the chosen
    /// board edge, along the prisoner's natural axis, is empty.
    pub open spec fn exit_clear(self) -> bool {
        let p = self.pieces[0];
        if p.horizontal {
            if self.exit {
                forall|x: int|
                    p.end.x < x < self.width ==> #[trigger] self.cell(x, p.begin.y as int) == 0
            } else {
                forall|x: int|
                    0 <= x < p.begin.x ==> #[trigger] self.cell(x, p.begin.y as int) == 0
            }
        } else {
            if self.exit {
                forall|y: int|
                    p.end.y < y < self.height ==> #[trigger] self.cell(p.begin.x as int, y) == 0
            } else {
                forall|y: int|
                    0 <= y < p.begin.y ==> #[trigger] self.cell(p.begin.x as int, y) == 0
            }
        }
    }
}

impl Piece {
    /// Builds the segment with the given endpoints; the orientation is
    /// derived: a piece is horizontal exactly when its endpoints share a row
    /// (which includes every single-cell piece).
    pub fn new(begin: Point, end: Point) -> (p: Piece)
        ensures
            p.begin == begin,
            p.end == end,
            p.horizontal == (begin.y == end.y),
    {
        let horizontal = begin.y == end.y;
        Piece { begin, end, horizontal }
    }
}

/// Whether `t` occurs in `v`.
pub fn contains_pos(v: &Vec<usize>, t: usize) -> (r: bool)
    ensures
        r == v@.contains(t),
{
    let mut k: usize = 0;
    while k < v.len()
        invariant
            k <= v@.len(),
            forall|j: int| 0 <= j < k ==> v@[j] != t,
        decreases v@.len() - k,
    {
        if v[k] == t {
            return true;
        }
        k += 1;
    }
    false
}

/// Sets every cell of the half-open rectangle `[x0, x1) x [y0, y1)` to `val`.
#[verifier::loop_isolation(false)]
fn fill_rect(m: &mut Vec<Vec<i8>>, x0: usize, x1: usize, y0: usize, y1: usize, val: i8)
    requires
        x0 <= x1,
        y0 <= y1,
        y1 <= old(m)@.len(),
        forall|y: int| 0 <= y < old(m)@.len() ==> x1 <= (#[trigger] old(m)@[y])@.len(),
    ensures
        final(m)@.len() == old(m)@.len(),
        forall|y: int|
            0 <= y < final(m)@.len() ==> (#[trigger] final(m)@[y])@.len() == old(m)@[y]@.len(),
        forall|y: int, x: int|
            0 <= y < final(m)@.len() && 0 <= x < final(m)@[y]@.len()
                ==> #[trigger] final(m)@[y]@[x] == (if y0 <= y < y1 && x0 <= x < x1 {
                val
            } else {
                old(m)@[y]@[x]
            }),
{
    let mut y = y0;
    while y < y1
        invariant
            y0 <= y <= y1,
            m@.len() == old(m)@.len(),
            forall|j: int| 0 <= j < m@.len() ==> (#[trigger] m@[j])@.len() == old(m)@[j]@.len(),
            forall|j: int, x: int|
                0 <= j < m@.len() && 0 <= x < m@[j]@.len() ==> #[trigger] m@[j]@[x] == (if y0 <= j
                    < y && x0 <= x < x1 {
                    val
                } else {
                    old(m)@[j]@[x]
                }),
        decreases y1 - y,
    {
        let mut x = x0;
        while x < x1
            invariant
                x0 <= x <= x1,
                y0 <= y < y1,
                m@.len() == old(m)@.len(),
                forall|j: int| 0 <= j < m@.len() ==> (#[trigger] m@[j])@.len() == old(m)@[j]@.len(),
                forall|j: int, xx: int|
                    0 <= j < m@.len() && 0 <= xx < m@[j]@.len() ==> #[trigger] m@[j]@[xx] == (if (y0
                        <= j < y && x0 <= xx < x1) || (j == y && x0 <= xx < x) {
                        val
                    } else {
                        old(m)@[j]@[xx]
                    }),
            decreases x1 - x,
        {
            m[y][x] = val;
            x += 1;
        }
        y += 1;
    }
}


/// Whether every cell of the half-open rectangle `[x0, x1) x [y0, y1)` is
/// empty or carries the label `allow`.
#[verifier::loop_isolation(false)]
fn rect_free(m: &Vec<Vec<i8>>, x0: usize, x1: usize, y0: usize, y1: usize, allow: i8) -> (r: bool)
    requires
        x0 <= x1,
        y0 <= y1,
        y1 <= m@.len(),
        forall|y: int| 0 <= y < m@.len() ==> x1 <= (#[trigger] m@[y])@.len(),
    ensures
        r == forall|x: int, y: int|
            x0 <= x < x1 && y0 <= y < y1 ==> #[trigger] m@[y]@[x] == 0 || m@[y]@[x] == allow,
{
    let mut y = y0;
    while y < y1
        invariant
            y0 <= y <= y1,
            forall|xx: int, yy: int|
                x0 <= xx < x1 && y0 <= yy < y ==> #[trigger] m@[yy]@[xx] == 0 || m@[yy]@[xx]
                    == allow,
        decreases y1 - y,
    {
        let mut x = x0;
        while x < x1
            invariant
                x0 <= x <= x1,
                y0 <= y < y1,
                forall|xx: int, yy: int|
                    x0 <= xx < x1 && y0 <= yy < y ==> #[trigger] m@[yy]@[xx] == 0 || m@[yy]@[xx]
                        == allow,
                forall|xx: int|
                    x0 <= xx < x ==> #[trigger] m@[y as int]@[xx] == 0 || m@[y as int]@[xx]
                        == allow,
            decreases x1 - x,
        {
            let c = m[y][x];
            if c != 0 && c != allow {
                return false;
            }
            x += 1;
        }
        y += 1;
    }
    true
}

proof fn lemma_add_preserves_wf(m: GameModel, piece: Piece, disabled: bool, reversed: bool)
    requires
        m.wf(),
        piece_shape_ok(piece),
        m.piece_in_bounds(piece),
        m.can_place(piece),
        m.pieces.len() < 127,
    ensures
        m.add_result(piece, disabled, reversed).wf(),
{
    let n = m.pieces.len() as int;
    let a = m.add_result(piece, disabled, reversed);
    assert forall|i: int, x: int, y: int|
        0 <= i < a.pieces.len() && #[trigger] in_piece(a.pieces[i], x, y) implies a.cell(x, y)
        as int == i + 1 by {
        if i < n {
            assert(in_piece(m.pieces[i], x, y));
            assert(m.cell(x, y) as int == i + 1);
            assert(!in_piece(piece, x, y));
        } else {
            assert(a.pieces[i] == piece);
        }
    }
    assert forall|x: int, y: int| a.on_board(x, y) && #[trigger] a.cell(x, y) != 0 implies 1
        <= a.cell(x, y) as int <= a.pieces.len() && in_piece(
        a.pieces[a.cell(x, y) - 1],
        x,
        y,
    ) by {
        if in_piece(piece, x, y) {
            assert(a.cell(x, y) as int == n + 1);
            assert(a.pieces[n] == piece);
        } else {
            assert(a.cell(x, y) == m.cell(x, y));
            assert(in_piece(m.pieces[m.cell(x, y) - 1], x, y));
            assert(a.pieces[m.cell(x, y) - 1] == m.pieces[m.cell(x, y) - 1]);
        }
    }
    assert forall|p: usize| a.disabled.contains(p) implies 1 <= p <= a.pieces.len() by {
        let idx = choose|idx: int| 0 <= idx < a.disabled.len() && a.disabled[idx] == p;
        if idx < m.disabled.len() {
            assert(m.disabled.contains(p));
        }
    }
    assert forall|p: usize| a.reversed.contains(p) implies 1 <= p <= a.pieces.len() by {
        let idx = choose|idx: int| 0 <= idx < a.reversed.len() && a.reversed[idx] == p;
        if idx < m.reversed.len() {
            assert(m.reversed.contains(p));
        }
    }
}

impl Game {
    /// True iff every cell of the piece's footprint is currently empty, so the
    /// piece could be appended without overlap.  The state is not changed.
    pub fn check_can_add(&mut self, piece: Piece) -> (r: bool)
        requires
            old(self)@.wf(),
            piece_shape_ok(piece),
            old(self)@.piece_in_bounds(piece),
        ensures
            *final(self) == *old(self),
            r == old(self)@.can_place(piece),
    {
        proof {
            assert forall|y: int| 0 <= y < self.board.matrix@.len() implies (
            #[trigger] self.board.matrix@[y])@.len() == self@.width by {
                assert(self@.board[y] == self.board.matrix@[y]@);
            }
        }
        let r = rect_free(
            &self.board.matrix,
            piece.begin.x as usize,
            piece.end.x as usize + 1,
            piece.begin.y as usize,
            piece.end.y as usize + 1,
            0,
        );
        proof {
            if r {
                assert forall|x: int, y: int| #[trigger] in_piece(piece, x, y) implies self@.cell(
                    x,
                    y,
                ) == 0 by {
                    assert(self.board.matrix@[y]@[x] == 0 || self.board.matrix@[y]@[x] == 0);
                }
            } else {
                let (x, y) = choose|x: int, y: int|
                    piece.begin.x <= x < piece.end.x + 1 && piece.begin.y <= y < piece.end.y + 1
                        && !(#[trigger] self.board.matrix@[y]@[x] == 0 || self.board.matrix@[y]@[x]
                        == 0);
                assert(in_piece(piece, x, y));
                assert(self@.cell(x, y) != 0);
            }
        }
        r
    }

    /// Appends `piece`, records its 1-based position in the disabled and
    /// reversed sets as requested, and stamps its footprint on the board.
    /// The caller guarantees the footprint is free.
    pub fn add(&mut self, piece: Piece, disabled: bool, reversed: bool)
        requires
            old(self)@.wf(),
            piece_shape_ok(piece),
            old(self)@.piece_in_bounds(piece),
            old(self)@.can_place(piece),
            old(self)@.pieces.len() < 127,
        ensures
            final(self)@ == old(self)@.add_result(piece, disabled, reversed),
            final(self)@.wf(),
    {
        self.pieces.push(piece);
        let len = self.pieces.len();
        if disabled {
            self.disabled_pieces.push(len);
        }
        if reversed {
            self.reversed_pieces.push(len);
        }
        proof {
            assert forall|y: int| 0 <= y < self.board.matrix@.len() implies (
            #[trigger] self.board.matrix@[y])@.len() == old(self)@.width by {
                assert(old(self)@.board[y] == self.board.matrix@[y]@);
            }
        }
        fill_rect(
            &mut self.board.matrix,
            piece.begin.x as usize,
            piece.end.x as usize + 1,
            piece.begin.y as usize,
            piece.end.y as usize + 1,
            len as i8,
        );
        proof {
            let a = old(self)@.add_result(piece, disabled, reversed);
            assert forall|y: int| 0 <= y < self@.board.len() implies self@.board[y] =~= a.board[y]
                by {
                assert forall|x: int| 0 <= x < self@.board[y].len() implies self@.board[y][x]
                    == a.board[y][x] by {
                    assert(self@.board[y][x] == self.board.matrix@[y]@[x]);
                }
            }
            assert(self@.board =~= a.board);
            assert(self@ =~~= a);
            lemma_add_preserves_wf(old(self)@, piece, disabled, reversed);
        }
    }

    /// True iff the prisoner's path to the chosen board edge, along its
    /// natural axis, is entirely empty.
    pub fn can_exit(&self) -> (r: bool)
        requires
            self@.wf(),
            self@.pieces.len() >= 1,
        ensures
            r == self@.exit_clear(),
    {
        let p = self.pieces[0];
        let ghost b = self.board.matrix@;
        proof {
            assert forall|y: int| 0 <= y < b.len() implies (#[trigger] b[y])@.len()
                == self@.width by {
                assert(self@.board[y] == b[y]@);
            }
            assert forall|y: int| 0 <= y < b.len() implies #[trigger] self@.board[y] == b[y]@ by {}
        }
        if p.horizontal {
            let row = p.begin.y as usize;
            let r: bool;
            if self.exit {
                r = rect_free(&self.board.matrix, p.end.x as usize + 1, self.width, row, row + 1, 0);
                proof {
                    if r {
                        assert forall|x: int| p.end.x < x < self@.width implies #[trigger] self@.cell(
                            x,
                            p.begin.y as int,
                        ) == 0 by {
                            assert(b[row as int]@[x] == 0 || b[row as int]@[x] == 0);
                        }
                    } else {
                        let (x, y) = choose|x: int, y: int|
                            p.end.x + 1 <= x < self@.width && row <= y < row + 1 && !(#[trigger] b[y]@[x]
                                == 0 || b[y]@[x] == 0);
                        assert(self@.cell(x, p.begin.y as int) != 0);
                    }
                }
            } else {
                r = rect_free(&self.board.matrix, 0, p.begin.x as usize, row, row + 1, 0);
                proof {
                    if r {
                        assert forall|x: int| 0 <= x < p.begin.x implies #[trigger] self@.cell(
                            x,
                            p.begin.y as int,
                        ) == 0 by {
                            assert(b[row as int]@[x] == 0 || b[row as int]@[x] == 0);
                        }
                    } else {
                        let (x, y) = choose|x: int, y: int|
                            0 <= x < p.begin.x && row <= y < row + 1 && !(#[trigger] b[y]@[x] == 0
                                || b[y]@[x] == 0);
                        assert(self@.cell(x, p.begin.y as int) != 0);
                    }
                }
            }
            r
        } else {
            let col = p.begin.x as usize;
            let r: bool;
            if self.exit {
                r = rect_free(&self.board.matrix, col, col + 1, p.end.y as usize + 1, self.height, 0);
                proof {
                    if r {
                        assert forall|y: int| p.end.y < y < self@.height implies #[trigger] self@.cell(
                            p.begin.x as int,
                            y,
                        ) == 0 by {
                            assert(b[y]@[col as int] == 0 || b[y]@[col as int] == 0);
                        }
                    } else {
                        let (x, y) = choose|x: int, y: int|
                            col <= x < col + 1 && p.end.y + 1 <= y < self@.height && !(#[trigger] b[y]@[x]
                                == 0 || b[y]@[x] == 0);
                        assert(self@.cell(p.begin.x as int, y) != 0);
                    }
                }
            } else {
                r = rect_free(&self.board.matrix, col, col + 1, 0, p.begin.y as usize, 0);
                proof {
                    if r {
                        assert forall|y: int| 0 <= y < p.begin.y implies #[trigger] self@.cell(
                            p.begin.x as int,
                            y,
                        ) == 0 by {
                            assert(b[y]@[col as int] == 0 || b[y]@[col as int] == 0);
                        }
                    } else {
                        let (x, y) = choose|x: int, y: int|
                            col <= x < col + 1 && 0 <= y < p.begin.y && !(#[trigger] b[y]@[x] == 0
                                || b[y]@[x] == 0);
                        assert(self@.cell(p.begin.x as int, y) != 0);
                    }
                }
            }
            r
        }
    }
}


/// The result of a legal move is well-formed.
pub proof fn lemma_move_preserves_wf(m: GameModel, i: int, dir: bool, steps: int)
    requires
        m.wf(),
        0 <= i < m.pieces.len(),
        0 <= steps,
        m.move_ok(i, dir, steps),
    ensures
        m.move_result(i, dir, steps).wf(),
{
    let p = m.pieces[i];
    let h = m.eff_horizontal(i);
    let q = translated(p, h, dir, steps);
    let sr = strip_rect(p, h, dir, steps);
    let a = m.move_result(i, dir, steps);
    assert(piece_shape_ok(p) && m.piece_in_bounds(p));
    assert(piece_shape_ok(q) && m.piece_in_bounds(q));
    assert forall|x: int, y: int| #[trigger] in_piece(q, x, y) implies in_piece(p, x, y)
        || in_rect(sr, x, y) by {}
    assert forall|j: int, x: int, y: int|
        0 <= j < a.pieces.len() && #[trigger] in_piece(a.pieces[j], x, y) implies a.cell(x, y)
        as int == j + 1 by {
        if j == i {
            assert(a.pieces[j] == q);
            assert(a.cell(x, y) as int == i + 1);
        } else {
            assert(a.pieces[j] == m.pieces[j]);
            assert(in_piece(m.pieces[j], x, y));
            assert(m.cell(x, y) as int == j + 1);
            if in_piece(p, x, y) {
                assert(m.cell(x, y) as int == i + 1);
                assert(false);
            }
            if in_rect(sr, x, y) {
                assert(m.cell(x, y) == 0 || m.cell(x, y) as int == i + 1);
                assert(false);
            }
            assert(!in_piece(q, x, y));
            assert(a.cell(x, y) == m.cell(x, y));
        }
    }
    assert forall|x: int, y: int| a.on_board(x, y) && #[trigger] a.cell(x, y) != 0 implies 1
        <= a.cell(x, y) as int <= a.pieces.len() && in_piece(
        a.pieces[a.cell(x, y) - 1],
        x,
        y,
    ) by {
        if in_piece(q, x, y) {
            assert(a.cell(x, y) as int == i + 1);
            assert(a.pieces[i] == q);
        } else if in_piece(p, x, y) {
            assert(a.cell(x, y) == 0);
        } else {
            assert(a.cell(x, y) == m.cell(x, y));
            let j = m.cell(x, y) - 1;
            assert(in_piece(m.pieces[j], x, y));
            assert(j != i);
            assert(a.pieces[j] == m.pieces[j]);
        }
    }
}

impl Game {
    /// Attempts to relocate the piece at `piece_index` by `steps` cells along
    /// its effective axis, towards larger coordinates when `direction` holds.
    /// Fails, leaving the state untouched, when the piece is disabled, the
    /// move would leave the board, or another piece occupies the entered
    /// strip; on success the board and the piece are updated in place.
    #[verifier::rlimit(60)]
    pub fn move_piece(&mut self, piece_index: i8, direction: bool, steps: u8) -> (r: bool)
        requires
            old(self)@.wf(),
            0 <= piece_index as int,
            (piece_index as int) < old(self)@.pieces.len(),
        ensures
            r == old(self)@.move_ok(piece_index as int, direction, steps as int),
            r ==> final(self)@ == old(self)@.move_result(
                piece_index as int,
                direction,
                steps as int,
            ),
            r ==> final(self)@.wf(),
            !r ==> *final(self) == *old(self),
    {
        let i = piece_index as usize;
        let ghost gi = piece_index as int;
        if contains_pos(&self.disabled_pieces, i + 1) {
            return false;
        }
        let p = self.pieces[i];
        proof {
            assert(piece_shape_ok(p) && self@.piece_in_bounds(p));
        }
        let mut h = p.horizontal;
        if contains_pos(&self.reversed_pieces, i + 1) {
            h = !h;
        }
        proof {
            assert(h == self@.eff_horizontal(gi));
        }
        let mut x0: usize = 0;
        let mut x1: usize = 0;
        let mut y0: usize = 0;
        let mut y1: usize = 0;
        if h {
            if direction {
                if p.end.x as usize + steps as usize >= self.width {
                    return false;
                }
                x0 = p.end.x as usize + 1;
                x1 = p.end.x as usize + 1 + steps as usize;
                y0 = p.begin.y as usize;
                y1 = p.end.y as usize + 1;
            } else {
                if (p.begin.x as usize) < steps as usize {
                    return false;
                }
                x0 = p.begin.x as usize - steps as usize;
                x1 = p.begin.x as usize;
                y0 = p.begin.y as usize;
                y1 = p.end.y as usize + 1;
            }
        } else {
            if direction {
                if p.end.y as usize + steps as usize >= self.height {
                    return false;
                }
                x0 = p.begin.x as usize;
                x1 = p.end.x as usize + 1;
                y0 = p.end.y as usize + 1;
                y1 = p.end.y as usize + 1 + steps as usize;
            } else {
                if (p.begin.y as usize) < steps as usize {
                    return false;
                }
                x0 = p.begin.x as usize;
                x1 = p.end.x as usize + 1;
                y0 = p.begin.y as usize - steps as usize;
                y1 = p.begin.y as usize;
            }
        }
        proof {
            assert(strip_rect(p, h, direction, steps as int) == (
                x0 as int,
                x1 as int,
                y0 as int,
                y1 as int,
            ));
            assert(self@.move_in_bounds(gi, direction, steps as int));
            assert forall|y: int| 0 <= y < self.board.matrix@.len() implies (
            #[trigger] self.board.matrix@[y])@.len() == self@.width by {
                assert(self@.board[y] == self.board.matrix@[y]@);
            }
        }
        if !rect_free(&self.board.matrix, x0, x1, y0, y1, piece_index + 1) {
            proof {
                let (x, y) = choose|x: int, y: int|
                    x0 <= x < x1 && y0 <= y < y1 && !(#[trigger] self.board.matrix@[y]@[x] == 0
                        || self.board.matrix@[y]@[x] == piece_index + 1);
                assert(in_rect(strip_rect(p, h, direction, steps as int), x, y));
                assert(self@.cell(x, y) == self.board.matrix@[y]@[x]);
                assert(!self@.strip_free(gi, direction, steps as int));
            }
            return false;
        }
        proof {
            assert forall|x: int, y: int| #[trigger] in_rect(
                strip_rect(self@.pieces[gi], self@.eff_horizontal(gi), direction, steps as int),
                x,
                y,
            ) implies self@.cell(x, y) == 0 || self@.cell(x, y) as int == gi + 1 by {
                assert(self.board.matrix@[y]@[x] == 0 || self.board.matrix@[y]@[x] == piece_index
                    + 1);
                assert(self@.cell(x, y) == self.board.matrix@[y]@[x]);
            }
            assert(self@.move_ok(gi, direction, steps as int));
        }
        let mut q = p;
        if h {
            if direction {
                q.begin.x = q.begin.x + steps;
                q.end.x = q.end.x + steps;
            } else {
                q.begin.x = q.begin.x - steps;
                q.end.x = q.end.x - steps;
            }
        } else {
            if direction {
                q.begin.y = q.begin.y + steps;
                q.end.y = q.end.y + steps;
            } else {
                q.begin.y = q.begin.y - steps;
                q.end.y = q.end.y - steps;
            }
        }
        proof {
            assert(q == translated(p, h, direction, steps as int));
            assert(piece_shape_ok(q) && self@.piece_in_bounds(q));
        }
        fill_rect(
            &mut self.board.matrix,
            p.begin.x as usize,
            p.end.x as usize + 1,
            p.begin.y as usize,
            p.end.y as usize + 1,
            0,
        );
        self.pieces[i] = q;
        fill_rect(
            &mut self.board.matrix,
            q.begin.x as usize,
            q.end.x as usize + 1,
            q.begin.y as usize,
            q.end.y as usize + 1,
            piece_index + 1,
        );
        proof {
            let a = old(self)@.move_result(gi, direction, steps as int);
            assert forall|y: int| 0 <= y < self@.board.len() implies self@.board[y] =~= a.board[y]
                by {
                assert(self@.board[y] == self.board.matrix@[y]@);
                assert(old(self)@.board[y] == old(self).board.matrix@[y]@);
                assert forall|x: int| 0 <= x < self@.board[y].len() implies self@.board[y][x]
                    == a.board[y][x] by {
                    assert(self@.board[y][x] == self.board.matrix@[y]@[x]);
                    assert(old(self)@.board[y][x] == old(self).board.matrix@[y]@[x]);
                }
            }
            assert(self@.board =~= a.board);
            assert(self@ =~~= a);
            lemma_move_preserves_wf(old(self)@, gi, direction, steps as int);
        }
        true
    }
}


/// The exit cell: the far end of the prisoner's row or column, on the side
/// selected by `exit`, as computed at construction time.
pub open spec fn spec_exit_point(prisoner: Piece, width: int, height: int, exit: bool) -> Point {
    if prisoner.horizontal {
        if exit {
            Point { x: (width - 1) as u8, y: prisoner.begin.y }
        } else {
            Point { x: 0, y: prisoner.begin.y }
        }
    } else {
        if exit {
            Point { x: prisoner.begin.x, y: (height - 1) as u8 }
        } else {
            Point { x: prisoner.begin.x, y: 0 }
        }
    }
}

/// A copy of a vector of plain values.
fn clone_vec_copy<T: Copy>(v: &Vec<T>) -> (r: Vec<T>)
    ensures
        r@ == v@,
{
    let mut r: Vec<T> = Vec::new();
    let mut k: usize = 0;
    while k < v.len()
        invariant
            k <= v@.len(),
            r@.len() == k,
            forall|j: int| 0 <= j < k ==> r@[j] == v@[j],
        decreases v@.len() - k,
    {
        r.push(v[k]);
        k += 1;
    }
    proof {
        assert(r@ =~= v@);
    }
    r
}

impl Clone for Board {
    /// Deep copy: the new grid holds exactly the same labels.
    fn clone(&self) -> (r: Board)
        ensures
            r@ == self@,
    {
        let mut matrix: Vec<Vec<i8>> = Vec::new();
        let mut y: usize = 0;
        while y < self.matrix.len()
            invariant
                y <= self.matrix@.len(),
                matrix@.len() == y,
                forall|j: int| 0 <= j < y ==> (#[trigger] matrix@[j])@ == self.matrix@[j]@,
            decreases self.matrix@.len() - y,
        {
            let row = clone_vec_copy(&self.matrix[y]);
            matrix.push(row);
            y += 1;
        }
        let r = Board { matrix };
        proof {
            assert(r@ =~= self@);
        }
        r
    }
}

impl Clone for Game {
    /// Deep copy: the new state has the same mathematical value and shares
    /// no storage, so each copy can be explored on its own.
    fn clone(&self) -> (r: Game)
        ensures
            r@ == self@,
    {
        let r = Game {
            board: self.board.clone(),
            width: self.width,
            height: self.height,
            pieces: clone_vec_copy(&self.pieces),
            disabled_pieces: clone_vec_copy(&self.disabled_pieces),
            reversed_pieces: clone_vec_copy(&self.reversed_pieces),
            exit: self.exit,
            exit_point: self.exit_point,
        };
        proof {
            assert(r@ =~~= self@);
        }
        r
    }
}

impl Game {
    /// A fresh `width` by `height` board holding only the prisoner, which
    /// must escape over the edge selected by `exit`.
    pub fn new(width: usize, height: usize, prisoner: Piece, exit: bool) -> (g: Game)
        requires
            1 <= width <= 127,
            1 <= height <= 127,
            piece_shape_ok(prisoner),
            (prisoner.end.x as int) < width,
            (prisoner.end.y as int) < height,
        ensures
            g@.wf(),
            g@.width == width,
            g@.height == height,
            g@.exit == exit,
            g@.exit_point == spec_exit_point(prisoner, width as int, height as int, exit),
            g@.pieces == seq![prisoner],
            g@.disabled == Seq::<usize>::empty(),
            g@.reversed == Seq::<usize>::empty(),
            forall|x: int, y: int|
                g@.on_board(x, y) ==> #[trigger] g@.cell(x, y) == (if in_piece(prisoner, x, y) {
                    1i8
                } else {
                    0i8
                }),
    {
        let exit_point: Point;
        if prisoner.horizontal {
            if exit {
                exit_point = Point { x: width as u8 - 1, y: prisoner.begin.y };
            } else {
                exit_point = Point { x: 0, y: prisoner.begin.y };
            }
        } else {
            if exit {
                exit_point = Point { x: prisoner.begin.x, y: height as u8 - 1 };
            } else {
                exit_point = Point { x: prisoner.begin.x, y: 0 };
            }
        }
        let mut matrix: Vec<Vec<i8>> = Vec::new();
        let mut y: usize = 0;
        while y < height
            invariant
                y <= height,
                matrix@.len() == y,
                forall|j: int| 0 <= j < y ==> (#[trigger] matrix@[j])@.len() == width,
                forall|j: int, x: int|
                    0 <= j < y && 0 <= x < width ==> #[trigger] matrix@[j]@[x] == 0,
            decreases height - y,
        {
            let mut row: Vec<i8> = Vec::new();
            let mut x: usize = 0;
            while x < width
                invariant
                    x <= width,
                    row@.len() == x,
                    forall|k: int| 0 <= k < x ==> #[trigger] row@[k] == 0,
                decreases width - x,
            {
                row.push(0);
                x += 1;
            }
            matrix.push(row);
            y += 1;
        }
        let mut new_game = Game {
            board: Board { matrix },
            width,
            height,
            pieces: Vec::new(),
            disabled_pieces: Vec::new(),
            reversed_pieces: Vec::new(),
            exit,
            exit_point,
        };
        proof {
            assert forall|yy: int| 0 <= yy < height implies (#[trigger] new_game@.board[yy]).len()
                == width by {
                assert(new_game@.board[yy] == new_game.board.matrix@[yy]@);
            }
            assert forall|xx: int, yy: int|
                new_game@.on_board(xx, yy) implies #[trigger] new_game@.cell(xx, yy) == 0 by {
                assert(new_game@.board[yy] == new_game.board.matrix@[yy]@);
            }
            assert(new_game@.wf());
        }
        new_game.add(prisoner, false, false);
        proof {
            assert(new_game@.pieces =~= seq![prisoner]);
        }
        new_game
    }
}

/// For any piece whose 1-based position is in the disabled set, no move is
/// legal: `move_piece` fails for every direction and step count.
pub proof fn lemma_disabled_never_moves(m: GameModel, i: int, dir: bool, steps: int)
    requires
        m.disabled.contains((i + 1) as usize),
    ensures
        !m.move_ok(i, dir, steps),
{
}

/// Blocking is monotone in the distance: when a move of `j` cells is illegal,
/// every longer move of `k >= j` cells in the same direction is illegal too,
/// because its entered strip is a superset.
pub proof fn lemma_blocked_stays_blocked(m: GameModel, i: int, dir: bool, j: int, k: int)
    requires
        m.wf(),
        0 <= i < m.pieces.len(),
        0 <= j <= k,
        !m.move_ok(i, dir, j),
    ensures
        !m.move_ok(i, dir, k),
{
    if m.move_ok(i, dir, k) {
        assert(m.move_in_bounds(i, dir, j));
        assert forall|x: int, y: int|
            #[trigger] in_rect(
                strip_rect(m.pieces[i], m.eff_horizontal(i), dir, j),
                x,
                y,
            ) implies m.cell(x, y) == 0 || m.cell(x, y) as int == i + 1 by {
            assert(in_rect(strip_rect(m.pieces[i], m.eff_horizontal(i), dir, k), x, y));
        }
        assert(m.move_ok(i, dir, j));
    }
}

/// A legal move is reversible: after moving piece `i` by `steps` cells, the
/// opposite move of the same length is legal and restores the original state.
pub proof fn lemma_move_reversible(m: GameModel, i: int, dir: bool, steps: int)
    requires
        m.wf(),
        0 <= i < m.pieces.len(),
        0 <= steps,
        m.move_ok(i, dir, steps),
    ensures
        m.move_result(i, dir, steps).move_ok(i, !dir, steps),
        m.move_result(i, dir, steps).move_result(i, !dir, steps) == m,
{
    let p = m.pieces[i];
    let h = m.eff_horizontal(i);
    let q = translated(p, h, dir, steps);
    let a = m.move_result(i, dir, steps);
    let sr = strip_rect(p, h, dir, steps);
    let back = strip_rect(q, h, !dir, steps);
    assert(piece_shape_ok(p) && m.piece_in_bounds(p));
    assert(a.pieces[i] == q);
    assert(a.eff_horizontal(i) == h);
    assert(a.move_in_bounds(i, !dir, steps));
    assert forall|x: int, y: int| #[trigger] in_rect(back, x, y) implies a.cell(x, y) == 0
        || a.cell(x, y) as int == i + 1 by {
        assert(in_piece(p, x, y) || in_rect(sr, x, y));
        if !in_piece(q, x, y) && !in_piece(p, x, y) {
            assert(a.cell(x, y) == m.cell(x, y));
            assert(m.cell(x, y) == 0 || m.cell(x, y) as int == i + 1);
        }
    }
    assert(a.strip_free(i, !dir, steps));
    let b = a.move_result(i, !dir, steps);
    assert(translated(q, h, !dir, steps) == p);
    assert(b.pieces =~= m.pieces);
    assert forall|y: int| 0 <= y < m.height implies b.board[y] =~= m.board[y] by {
        assert forall|x: int| 0 <= x < m.width implies b.board[y][x] == m.board[y][x] by {
            if in_piece(p, x, y) {
                assert(m.cell(x, y) as int == i + 1);
            } else if in_piece(q, x, y) {
                assert(in_rect(sr, x, y));
                assert(m.cell(x, y) == 0 || m.cell(x, y) as int == i + 1);
                assert(m.cell(x, y) != 0 ==> in_piece(m.pieces[i], x, y));
                assert(m.cell(x, y) == 0);
            } else {
                assert(a.cell(x, y) == m.cell(x, y));
            }
        }
    }
    assert(b.board =~= m.board);
    assert(b =~~= m);
}


/// Membership in a pushed sequence: exactly the old members and the new one.
pub proof fn lemma_contains_push(s: Seq<usize>, v: usize, x: usize)
    ensures
        s.push(v).contains(x) <==> (s.contains(x) || x == v),
{
    if s.contains(x) {
        let i = choose|i: int| 0 <= i < s.len() && s[i] == x;
        assert(s.push(v)[i] == x);
    }
    assert(s.push(v)[s.len() as int] == v);
    if s.push(v).contains(x) && x != v {
        let i = choose|i: int| 0 <= i < s.push(v).len() && s.push(v)[i] == x;
        assert(s[i] == x);
    }
}


/// A legal move's distance is bounded by the board: it never reaches the
/// larger of the two dimensions.
pub proof fn lemma_move_ok_steps_bound(m: GameModel, i: int, dir: bool, steps: int)
    requires
        m.wf(),
        0 <= i < m.pieces.len(),
        m.move_ok(i, dir, steps),
    ensures
        steps < m.width || steps < m.height,
{
    assert(piece_shape_ok(m.pieces[i]) && m.piece_in_bounds(m.pieces[i]));
}

/// Within one game, the grid determines the pieces: two well-formed states
/// that agree on everything but their piece list, and whose boards are
/// equal, are equal outright, because each piece's footprint is exactly the
/// set of cells carrying its label.
pub proof fn lemma_board_determines_state(m1: GameModel, m2: GameModel)
    requires
        m1.wf(),
        m2.wf(),
        m1.board == m2.board,
        m1.width == m2.width,
        m1.height == m2.height,
        m1.exit == m2.exit,
        m1.exit_point == m2.exit_point,
        m1.pieces.len() == m2.pieces.len(),
        m1.disabled == m2.disabled,
        m1.reversed == m2.reversed,
    ensures
        m1 == m2,
{
    assert forall|i: int| 0 <= i < m1.pieces.len() implies m1.pieces[i] == m2.pieces[i] by {
        let p1 = m1.pieces[i];
        let p2 = m2.pieces[i];
        assert(piece_shape_ok(p1) && m1.piece_in_bounds(p1));
        assert(piece_shape_ok(p2) && m2.piece_in_bounds(p2));
        assert(in_piece(p1, p1.begin.x as int, p1.begin.y as int));
        assert(m1.cell(p1.begin.x as int, p1.begin.y as int) as int == i + 1);
        assert(m2.cell(p1.begin.x as int, p1.begin.y as int) as int == i + 1);
        assert(in_piece(p2, p1.begin.x as int, p1.begin.y as int));
        assert(in_piece(p1, p1.end.x as int, p1.end.y as int));
        assert(m2.cell(p1.end.x as int, p1.end.y as int) as int == i + 1);
        assert(in_piece(p2, p1.end.x as int, p1.end.y as int));
        assert(in_piece(p2, p2.begin.x as int, p2.begin.y as int));
        assert(m1.cell(p2.begin.x as int, p2.begin.y as int) as int == i + 1);
        assert(in_piece(p1, p2.begin.x as int, p2.begin.y as int));
        assert(in_piece(p2, p2.end.x as int, p2.end.y as int));
        assert(m1.cell(p2.end.x as int, p2.end.y as int) as int == i + 1);
        assert(in_piece(p1, p2.end.x as int, p2.end.y as int));
        assert(p1.begin == p2.begin && p1.end == p2.end);
        assert(p1.horizontal == p2.horizontal);
    }
    assert(m1.pieces =~= m2.pieces);
    assert(m1 =~~= m2);
}

} // verus!
