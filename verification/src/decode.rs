//! Decoding a raw occupancy grid into a `Game`: cells labeled `k > 0` are
//! grouped into pieces, the piece of label `1` becomes the prisoner, and a
//! malformed grid is rejected with an explicit error.

use vstd::prelude::*;

use crate::game::{
    contains_pos, in_piece, lemma_contains_push, piece_shape_ok, spec_exit_point, Game, Piece,
    Point,
};

verus! {

/// Why a raw grid cannot be decoded.
#[derive(Clone, Copy, Debug, PartialEq, Eq, Structural)]
pub enum DecodeError {
    /// The grid is empty or its rows have differing lengths.
    NotRectangular,
    /// A dimension exceeds the representable maximum of 127.
    TooLarge,
    /// A cell is negative, or the positive labels are not dense from 1.
    BadLabel,
    /// No cell carries the prisoner label 1.
    NoPrisoner,
    /// Some label's cells do not form one straight contiguous segment.
    BadSegment,
}

/// The mathematical value of a raw grid.
pub open spec fn grid_view(v: Seq<Vec<i8>>) -> Seq<Seq<i8>> {
    v.map_values(|row: Vec<i8>| row@)
}

/// The grid is nonempty and rectangular.
pub open spec fn grid_rect(g: Seq<Seq<i8>>) -> bool {
    &&& g.len() >= 1
    &&& g[0].len() >= 1
    &&& forall|y: int| 0 <= y < g.len() ==> (#[trigger] g[y]).len() == g[0].len()
}

/// Both dimensions fit the signed 8-bit label domain.
pub open spec fn grid_fits(g: Seq<Seq<i8>>) -> bool {
    g.len() <= 127 && g[0].len() <= 127
}

/// No cell is negative.
pub open spec fn grid_nonneg(g: Seq<Seq<i8>>) -> bool {
    forall|y: int, x: int|
        0 <= y < g.len() && 0 <= x < g[y].len() ==> (#[trigger] g[y][x]) >= 0
}

/// Some cell carries label `k`.
pub open spec fn has_label(g: Seq<Seq<i8>>, k: int) -> bool {
    exists|y: int, x: int|
        0 <= y < g.len() && 0 <= x < g[y].len() && (#[trigger] g[y][x]) as int == k
}

/// The footprint of `p` consists of exactly the cells labeled `k`.
pub open spec fn label_matches_piece(g: Seq<Seq<i8>>, k: int, p: Piece) -> bool {
    forall|y: int, x: int|
        0 <= y < g.len() && 0 <= x < g[y].len() ==> ((#[trigger] g[y][x]) as int == k <==> in_piece(
            p,
            x,
            y,
        ))
}

/// A decodable occupancy grid: nonempty, rectangular, within the size bound,
/// cells nonnegative, labels dense starting at the prisoner label 1, and each
/// label's cells one well-formed axis-aligned segment.
pub open spec fn grid_ok(g: Seq<Seq<i8>>) -> bool {
    &&& grid_rect(g)
    &&& grid_fits(g)
    &&& grid_nonneg(g)
    &&& has_label(g, 1)
    &&& forall|k: int| 2 <= k && #[trigger] has_label(g, k) ==> has_label(g, k - 1)
    &&& forall|k: int|
        1 <= k && #[trigger] has_label(g, k) ==> exists|p: Piece|
            piece_shape_ok(p) && (p.end.x as int) < g[0].len() && (p.end.y as int) < g.len()
                && label_matches_piece(g, k, p)
}

/// `(x1, y1)` comes strictly before `(x2, y2)` in row-major scan order.
pub open spec fn scan_lt(x1: int, y1: int, x2: int, y2: int) -> bool {
    y1 < y2 || (y1 == y2 && x1 < x2)
}

/// Labels dense up to some present label `m` are all present down to `k`.
proof fn lemma_dense_below(g: Seq<Seq<i8>>, k: int, m: int)
    requires
        forall|j: int| 2 <= j && #[trigger] has_label(g, j) ==> has_label(g, j - 1),
        has_label(g, m),
        1 <= k <= m,
    ensures
        has_label(g, k),
    decreases m - k,
{
    if k < m {
        lemma_dense_below(g, k, m - 1);
    }
}

/// The first cell carrying label `k`, in row-major scan order.
#[verifier::loop_isolation(false)]
fn find_first(m: &Vec<Vec<i8>>, k: i8) -> (r: Option<Point>)
    requires
        m@.len() <= 127,
        forall|y: int| 0 <= y < m@.len() ==> (#[trigger] m@[y])@.len() <= 127,
    ensures
        match r {
            Some(pt) => {
                &&& (pt.y as int) < m@.len()
                &&& (pt.x as int) < m@[pt.y as int]@.len()
                &&& m@[pt.y as int]@[pt.x as int] == k
                &&& forall|yy: int, xx: int|
                    0 <= yy < m@.len() && 0 <= xx < m@[yy]@.len() && scan_lt(
                        xx,
                        yy,
                        pt.x as int,
                        pt.y as int,
                    ) ==> (#[trigger] m@[yy]@[xx]) != k
            },
            None => forall|yy: int, xx: int|
                0 <= yy < m@.len() && 0 <= xx < m@[yy]@.len() ==> (#[trigger] m@[yy]@[xx]) != k,
        },
{
    let mut y: usize = 0;
    while y < m.len()
        invariant
            y <= m@.len(),
            forall|yy: int, xx: int|
                0 <= yy < y && 0 <= xx < m@[yy]@.len() ==> (#[trigger] m@[yy]@[xx]) != k,
        decreases m@.len() - y,
    {
        let mut x: usize = 0;
        while x < m[y].len()
            invariant
                y < m@.len(),
                x <= m@[y as int]@.len(),
                forall|yy: int, xx: int|
                    0 <= yy < y && 0 <= xx < m@[yy]@.len() ==> (#[trigger] m@[yy]@[xx]) != k,
                forall|xx: int| 0 <= xx < x ==> #[trigger] m@[y as int]@[xx] != k,
            decreases m@[y as int]@.len() - x,
        {
            if m[y][x] == k {
                return Some(Point { x: x as u8, y: y as u8 });
            }
            x += 1;
        }
        y += 1;
    }
    None
}

/// The last cell carrying label `k`, in row-major scan order.
#[verifier::loop_isolation(false)]
fn find_last(m: &Vec<Vec<i8>>, k: i8) -> (r: Option<Point>)
    requires
        m@.len() <= 127,
        forall|y: int| 0 <= y < m@.len() ==> (#[trigger] m@[y])@.len() <= 127,
    ensures
        match r {
            Some(pt) => {
                &&& (pt.y as int) < m@.len()
                &&& (pt.x as int) < m@[pt.y as int]@.len()
                &&& m@[pt.y as int]@[pt.x as int] == k
                &&& forall|yy: int, xx: int|
                    0 <= yy < m@.len() && 0 <= xx < m@[yy]@.len() && scan_lt(
                        pt.x as int,
                        pt.y as int,
                        xx,
                        yy,
                    ) ==> (#[trigger] m@[yy]@[xx]) != k
            },
            None => forall|yy: int, xx: int|
                0 <= yy < m@.len() && 0 <= xx < m@[yy]@.len() ==> (#[trigger] m@[yy]@[xx]) != k,
        },
{
    let mut y: usize = m.len();
    while y > 0
        invariant
            y <= m@.len(),
            forall|yy: int, xx: int|
                y <= yy < m@.len() && 0 <= xx < m@[yy]@.len() ==> (#[trigger] m@[yy]@[xx]) != k,
        decreases y,
    {
        y -= 1;
        let mut x: usize = m[y].len();
        while x > 0
            invariant
                y < m@.len(),
                x <= m@[y as int]@.len(),
                forall|yy: int, xx: int|
                    y < yy < m@.len() && 0 <= xx < m@[yy]@.len() ==> (#[trigger] m@[yy]@[xx]) != k,
                forall|xx: int| x <= xx < m@[y as int]@.len() ==> #[trigger] m@[y as int]@[xx] != k,
            decreases x,
        {
            x -= 1;
            if m[y][x] == k {
                return Some(Point { x: x as u8, y: y as u8 });
            }
        }
    }
    None
}

/// Whether every cell of the half-open rectangle carries label `k`.
#[verifier::loop_isolation(false)]
fn rect_all_label(m: &Vec<Vec<i8>>, x0: usize, x1: usize, y0: usize, y1: usize, k: i8) -> (r: bool)
    requires
        x0 <= x1,
        y0 <= y1,
        y1 <= m@.len(),
        forall|y: int| 0 <= y < m@.len() ==> x1 <= (#[trigger] m@[y])@.len(),
    ensures
        r == forall|x: int, y: int|
            x0 <= x < x1 && y0 <= y < y1 ==> #[trigger] m@[y]@[x] == k,
{
    let mut y = y0;
    while y < y1
        invariant
            y0 <= y <= y1,
            forall|xx: int, yy: int| x0 <= xx < x1 && y0 <= yy < y ==> #[trigger] m@[yy]@[xx] == k,
        decreases y1 - y,
    {
        let mut x = x0;
        while x < x1
            invariant
                x0 <= x <= x1,
                y0 <= y < y1,
                forall|xx: int, yy: int|
                    x0 <= xx < x1 && y0 <= yy < y ==> #[trigger] m@[yy]@[xx] == k,
                forall|xx: int| x0 <= xx < x ==> #[trigger] m@[y as int]@[xx] == k,
            decreases x1 - x,
        {
            if m[y][x] != k {
                return false;
            }
            x += 1;
        }
        y += 1;
    }
    true
}

/// Whether every cell carrying label `k` lies in the half-open rectangle.
#[verifier::loop_isolation(false)]
fn label_only_in_rect(
    m: &Vec<Vec<i8>>,
    x0: usize,
    x1: usize,
    y0: usize,
    y1: usize,
    k: i8,
) -> (r: bool)
    ensures
        r == forall|y: int, x: int|
            0 <= y < m@.len() && 0 <= x < m@[y]@.len() && (#[trigger] m@[y]@[x]) == k ==> (x0 <= x
                < x1 && y0 <= y < y1),
{
    let mut y: usize = 0;
    while y < m.len()
        invariant
            y <= m@.len(),
            forall|yy: int, xx: int|
                0 <= yy < y && 0 <= xx < m@[yy]@.len() && (#[trigger] m@[yy]@[xx]) == k ==> (x0
                    <= xx < x1 && y0 <= yy < y1),
        decreases m@.len() - y,
    {
        let mut x: usize = 0;
        while x < m[y].len()
            invariant
                y < m@.len(),
                x <= m@[y as int]@.len(),
                forall|yy: int, xx: int|
                    0 <= yy < y && 0 <= xx < m@[yy]@.len() && (#[trigger] m@[yy]@[xx]) == k ==> (x0
                        <= xx < x1 && y0 <= yy < y1),
                forall|xx: int|
                    0 <= xx < x && #[trigger] m@[y as int]@[xx] == k ==> (x0 <= xx < x1 && y0
                        <= y < y1),
            decreases m@[y as int]@.len() - x,
        {
            if m[y][x] == k {
                if !(x0 <= x && x < x1 && y0 <= y && y < y1) {
                    return false;
                }
            }
            x += 1;
        }
        y += 1;
    }
    true
}


/// The first and last label-`k` cells in scan order are the endpoints of the
/// segment whose footprint is exactly the label-`k` cells.
proof fn lemma_endpoints(g: Seq<Seq<i8>>, k: i8, p: Piece, b: Point, e: Point)
    requires
        grid_rect(g),
        piece_shape_ok(p),
        (p.end.x as int) < g[0].len(),
        (p.end.y as int) < g.len(),
        label_matches_piece(g, k as int, p),
        (b.y as int) < g.len(),
        (b.x as int) < g[b.y as int].len(),
        g[b.y as int][b.x as int] == k,
        forall|yy: int, xx: int|
            0 <= yy < g.len() && 0 <= xx < g[yy].len() && scan_lt(xx, yy, b.x as int, b.y as int)
                ==> (#[trigger] g[yy][xx]) != k,
        (e.y as int) < g.len(),
        (e.x as int) < g[e.y as int].len(),
        g[e.y as int][e.x as int] == k,
        forall|yy: int, xx: int|
            0 <= yy < g.len() && 0 <= xx < g[yy].len() && scan_lt(e.x as int, e.y as int, xx, yy)
                ==> (#[trigger] g[yy][xx]) != k,
    ensures
        b == p.begin,
        e == p.end,
{
    assert(in_piece(p, b.x as int, b.y as int));
    assert(in_piece(p, e.x as int, e.y as int));
    assert(in_piece(p, p.begin.x as int, p.begin.y as int));
    assert(in_piece(p, p.end.x as int, p.end.y as int));
    assert(g[p.begin.y as int][p.begin.x as int] as int == k as int);
    assert(g[p.end.y as int][p.end.x as int] as int == k as int);
    if scan_lt(p.begin.x as int, p.begin.y as int, b.x as int, b.y as int) {
        assert(g[p.begin.y as int][p.begin.x as int] != k);
        assert(false);
    }
    if scan_lt(e.x as int, e.y as int, p.end.x as int, p.end.y as int) {
        assert(g[p.end.y as int][p.end.x as int] != k);
        assert(false);
    }
    assert(b.x == p.begin.x && b.y == p.begin.y);
    assert(e.x == p.end.x && e.y == p.end.y);
}

/// Rejects negative cells and finds the largest label in the grid.
#[verifier::loop_isolation(false)]
fn scan_labels(array: &Vec<Vec<i8>>) -> (r: Result<i8, DecodeError>)
    requires
        grid_rect(grid_view(array@)),
        grid_fits(grid_view(array@)),
    ensures
        match r {
            Ok(maxl) => {
                let g = grid_view(array@);
                &&& maxl >= 0
                &&& grid_nonneg(g)
                &&& forall|y: int, x: int|
                    0 <= y < g.len() && 0 <= x < g[y].len() ==> (#[trigger] g[y][x]) <= maxl
                &&& maxl == 0 || has_label(g, maxl as int)
            },
            Err(e) => e == DecodeError::BadLabel && !grid_nonneg(grid_view(array@)),
        },
{
    let ghost g = grid_view(array@);
    proof {
        assert forall|y: int| 0 <= y < array@.len() implies #[trigger] g[y] == array@[y]@ by {}
        assert forall|y: int| 0 <= y < array@.len() implies (#[trigger] array@[y])@.len()
            == g[0].len() by {
            assert(g[y] == array@[y]@);
        }
    }
    let height = array.len();
    let width = array[0].len();
    let mut maxl: i8 = 0;
    let mut y: usize = 0;
    while y < height
        invariant
            y <= height,
            0 <= maxl,
            forall|j: int, x: int|
                0 <= j < y && 0 <= x < width ==> (#[trigger] g[j][x]) >= 0,
            forall|j: int, x: int|
                0 <= j < y && 0 <= x < width ==> (#[trigger] g[j][x]) <= maxl,
            maxl == 0 || exists|j: int, x: int|
                0 <= j < g.len() && 0 <= x < width && (#[trigger] g[j][x]) == maxl,
        decreases height - y,
    {
        let mut x: usize = 0;
        while x < width
            invariant
                y < height,
                x <= width,
                0 <= maxl,
                forall|j: int, xx: int|
                    0 <= j < y && 0 <= xx < width ==> (#[trigger] g[j][xx]) >= 0,
                forall|j: int, xx: int|
                    0 <= j < y && 0 <= xx < width ==> (#[trigger] g[j][xx]) <= maxl,
                forall|xx: int| 0 <= xx < x ==> (#[trigger] g[y as int][xx]) >= 0,
                forall|xx: int| 0 <= xx < x ==> (#[trigger] g[y as int][xx]) <= maxl,
                maxl == 0 || exists|j: int, xx: int|
                    0 <= j < g.len() && 0 <= xx < width && (#[trigger] g[j][xx]) == maxl,
            decreases width - x,
        {
            let c = array[y][x];
            if c < 0 {
                return Err(DecodeError::BadLabel);
            }
            if c > maxl {
                maxl = c;
            }
            x += 1;
        }
        y += 1;
    }
    Ok(maxl)
}

/// Builds, for each label `1..=maxl` in ascending order, the piece whose
/// footprint is exactly that label's cells, rejecting the grid when a label
/// is missing or its cells are not one straight segment.
#[verifier::loop_isolation(false)]
fn collect_pieces(array: &Vec<Vec<i8>>, maxl: i8) -> (r: Result<Vec<Piece>, DecodeError>)
    requires
        grid_rect(grid_view(array@)),
        grid_fits(grid_view(array@)),
        grid_nonneg(grid_view(array@)),
        1 <= maxl,
        has_label(grid_view(array@), maxl as int),
        forall|y: int, x: int|
            0 <= y < grid_view(array@).len() && 0 <= x < grid_view(array@)[y].len() ==> (
            #[trigger] grid_view(array@)[y][x]) <= maxl,
    ensures
        match r {
            Ok(pieces) => {
                let g = grid_view(array@);
                &&& pieces@.len() == maxl as int
                &&& forall|t: int|
                    0 <= t < pieces@.len() ==> piece_shape_ok(#[trigger] pieces@[t]) && (
                    pieces@[t].end.x as int) < g[0].len() && (pieces@[t].end.y as int) < g.len()
                        && label_matches_piece(g, t + 1, pieces@[t])
            },
            Err(e) => {
                let g = grid_view(array@);
                &&& (e == DecodeError::NoPrisoner ==> !has_label(g, 1))
                &&& (e == DecodeError::BadLabel ==> !(forall|j: int|
                    2 <= j && #[trigger] has_label(g, j) ==> has_label(g, j - 1)))
                &&& (e == DecodeError::BadSegment ==> has_label(g, 1) && !grid_ok(g))
                &&& (e == DecodeError::NoPrisoner || e == DecodeError::BadLabel || e
                    == DecodeError::BadSegment)
            },
        },
{
    let ghost g = grid_view(array@);
    proof {
        assert forall|y: int| 0 <= y < array@.len() implies #[trigger] g[y] == array@[y]@ by {}
        assert forall|y: int| 0 <= y < array@.len() implies (#[trigger] array@[y])@.len()
            == g[0].len() by {
            assert(g[y] == array@[y]@);
        }
    }
    let height = array.len();
    let width = array[0].len();
    let mut pieces: Vec<Piece> = Vec::new();
    let mut k: usize = 1;
    while k <= maxl as usize
        invariant
            1 <= k <= maxl as usize + 1,
            pieces@.len() == k - 1,
            k > 1 ==> has_label(g, 1),
            forall|t: int|
                0 <= t < k - 1 ==> piece_shape_ok(#[trigger] pieces@[t]) && (
                pieces@[t].end.x as int) < width && (pieces@[t].end.y as int) < height
                    && label_matches_piece(g, t + 1, pieces@[t]),
        decreases maxl as usize + 1 - k,
    {
        let kl = k as i8;
        match find_first(array, kl) {
            None => {
                if k == 1 {
                    proof {
                        assert(!has_label(g, 1));
                    }
                    return Err(DecodeError::NoPrisoner);
                } else {
                    proof {
                        assert(!has_label(g, k as int));
                        if forall|j: int| 2 <= j && #[trigger] has_label(g, j) ==> has_label(
                            g,
                            j - 1,
                        ) {
                            lemma_dense_below(g, k as int, maxl as int);
                        }
                    }
                    return Err(DecodeError::BadLabel);
                }
            },
            Some(b) => {
                proof {
                    assert(g[b.y as int][b.x as int] as int == k as int);
                    assert(has_label(g, k as int));
                }
                let e = match find_last(array, kl) {
                    Some(e) => e,
                    None => {
                        proof {
                            assert(false);
                        }
                        return Err(DecodeError::BadSegment);
                    },
                };
                if !(b.x == e.x || b.y == e.y) || b.x > e.x || b.y > e.y {
                    proof {
                        if grid_ok(g) {
                            let pp = choose|pp: Piece|
                                piece_shape_ok(pp) && (pp.end.x as int) < g[0].len() && (
                                pp.end.y as int) < g.len() && label_matches_piece(g, k as int, pp);
                            lemma_endpoints(g, kl, pp, b, e);
                            assert(false);
                        }
                    }
                    return Err(DecodeError::BadSegment);
                }
                let p = Piece::new(b, e);
                if !rect_all_label(
                    array,
                    b.x as usize,
                    e.x as usize + 1,
                    b.y as usize,
                    e.y as usize + 1,
                    kl,
                ) {
                    proof {
                        if grid_ok(g) {
                            let pp = choose|pp: Piece|
                                piece_shape_ok(pp) && (pp.end.x as int) < g[0].len() && (
                                pp.end.y as int) < g.len() && label_matches_piece(g, k as int, pp);
                            lemma_endpoints(g, kl, pp, b, e);
                            assert forall|x: int, y: int|
                                b.x as int <= x < e.x as int + 1 && b.y as int <= y < e.y as int
                                    + 1 implies (#[trigger] array@[y]@[x]) == kl by {
                                assert(in_piece(pp, x, y));
                                assert(g[y][x] as int == k as int);
                            }
                            assert(false);
                        }
                    }
                    return Err(DecodeError::BadSegment);
                }
                if !label_only_in_rect(
                    array,
                    b.x as usize,
                    e.x as usize + 1,
                    b.y as usize,
                    e.y as usize + 1,
                    kl,
                ) {
                    proof {
                        if grid_ok(g) {
                            let pp = choose|pp: Piece|
                                piece_shape_ok(pp) && (pp.end.x as int) < g[0].len() && (
                                pp.end.y as int) < g.len() && label_matches_piece(g, k as int, pp);
                            lemma_endpoints(g, kl, pp, b, e);
                            assert forall|y: int, x: int|
                                0 <= y < array@.len() && 0 <= x < array@[y]@.len() && (
                                #[trigger] array@[y]@[x]) == kl implies (b.x as int <= x < e.x as int
                                + 1 && b.y as int <= y < e.y as int + 1) by {
                                assert(g[y][x] as int == k as int);
                                assert(in_piece(pp, x, y));
                            }
                            assert(false);
                        }
                    }
                    return Err(DecodeError::BadSegment);
                }
                proof {
                    assert forall|y: int, x: int|
                        0 <= y < g.len() && 0 <= x < g[y].len() implies ((#[trigger] g[y][x]) as int
                        == k as int <==> in_piece(p, x, y)) by {
                        assert(g[y][x] == array@[y]@[x]);
                        if in_piece(p, x, y) {
                            assert(array@[y]@[x] == kl);
                        }
                        if g[y][x] as int == k as int {
                            assert(array@[y]@[x] == kl);
                        }
                    }
                    assert(label_matches_piece(g, k as int, p));
                }
                pieces.push(p);
            },
        }
        k += 1;
    }
    Ok(pieces)
}


/// Stamps the decoded pieces onto a fresh game in ascending label order,
/// carrying through the caller-supplied disabled and reversed position sets.
#[verifier::loop_isolation(false)]
#[verifier::rlimit(60)]
fn build_game(
    array: &Vec<Vec<i8>>,
    pieces: &Vec<Piece>,
    exit: bool,
    disabled_pieces: &Vec<usize>,
    reversed_pieces: &Vec<usize>,
) -> (g: Game)
    requires
        grid_rect(grid_view(array@)),
        grid_fits(grid_view(array@)),
        grid_nonneg(grid_view(array@)),
        1 <= pieces@.len() <= 127,
        forall|y: int, x: int|
            0 <= y < grid_view(array@).len() && 0 <= x < grid_view(array@)[y].len() ==> (
            #[trigger] grid_view(array@)[y][x]) as int <= pieces@.len(),
        forall|t: int|
            0 <= t < pieces@.len() ==> piece_shape_ok(#[trigger] pieces@[t]) && (
            pieces@[t].end.x as int) < grid_view(array@)[0].len() && (pieces@[t].end.y as int)
                < grid_view(array@).len() && label_matches_piece(
                grid_view(array@),
                t + 1,
                pieces@[t],
            ),
    ensures
        g@.wf(),
        g@.width == grid_view(array@)[0].len(),
        g@.height == grid_view(array@).len(),
        g@.exit == exit,
        g@.pieces == pieces@,
        g@.board == grid_view(array@),
        g@.exit_point == spec_exit_point(pieces@[0], g@.width, g@.height, exit),
        forall|pos: usize|
            #![trigger g@.disabled.contains(pos)]
            g@.disabled.contains(pos) <==> (2 <= pos <= pieces@.len()
                && disabled_pieces@.contains(pos)),
        forall|pos: usize|
            #![trigger g@.reversed.contains(pos)]
            g@.reversed.contains(pos) <==> (2 <= pos <= pieces@.len()
                && reversed_pieces@.contains(pos)),
{
    let ghost gv = grid_view(array@);
    proof {
        assert forall|y: int| 0 <= y < array@.len() implies #[trigger] gv[y] == array@[y]@ by {}
    }
    let height = array.len();
    let width = array[0].len();
    let prisoner = pieces[0];
    let mut game = Game::new(width, height, prisoner, exit);
    proof {
        assert(label_matches_piece(gv, 1, prisoner));
        assert forall|x: int, y: int| game@.on_board(x, y) implies (#[trigger] game@.cell(x, y))
            == (if 1 <= gv[y][x] as int && gv[y][x] as int <= 1 {
            gv[y][x]
        } else {
            0i8
        }) by {
            assert(gv[y][x] as int == 1 <==> in_piece(prisoner, x, y));
        }
    }
    let mut idx: usize = 1;
    while idx < pieces.len()
        invariant
            1 <= idx <= pieces@.len(),
            game@.wf(),
            game@.width == width,
            game@.height == height,
            game@.exit == exit,
            game@.exit_point == spec_exit_point(pieces@[0], width as int, height as int, exit),
            game@.pieces == pieces@.subrange(0, idx as int),
            forall|pos: usize|
                #![trigger game@.disabled.contains(pos)]
                game@.disabled.contains(pos) <==> (2 <= pos <= idx && disabled_pieces@.contains(
                    pos,
                )),
            forall|pos: usize|
                #![trigger game@.reversed.contains(pos)]
                game@.reversed.contains(pos) <==> (2 <= pos <= idx && reversed_pieces@.contains(
                    pos,
                )),
            forall|x: int, y: int|
                game@.on_board(x, y) ==> (#[trigger] game@.cell(x, y)) == (if 1 <= gv[y][x] as int
                    && gv[y][x] as int <= idx as int {
                    gv[y][x]
                } else {
                    0i8
                }),
        decreases pieces@.len() - idx,
    {
        let p = pieces[idx];
        let dis = contains_pos(disabled_pieces, idx + 1);
        let rev = contains_pos(reversed_pieces, idx + 1);
        proof {
            assert(piece_shape_ok(p));
            assert(label_matches_piece(gv, idx as int + 1, p));
            assert forall|x: int, y: int| #[trigger] in_piece(p, x, y) implies game@.cell(x, y)
                == 0 by {
                assert(gv[y][x] as int == idx as int + 1);
            }
            assert(game@.can_place(p));
        }
        let ghost prev = game@;
        game.add(p, dis, rev);
        proof {
            assert(game@ == prev.add_result(p, dis, rev));
            assert forall|pos: usize|
                #![trigger game@.disabled.contains(pos)]
                game@.disabled.contains(pos) <==> (2 <= pos <= idx + 1
                    && disabled_pieces@.contains(pos)) by {
                assert(prev.disabled.contains(pos) <==> (2 <= pos <= idx
                    && disabled_pieces@.contains(pos)));
                if dis {
                    assert(game@.disabled == prev.disabled.push((idx + 1) as usize));
                    lemma_contains_push(prev.disabled, (idx + 1) as usize, pos);
                } else {
                    assert(game@.disabled == prev.disabled);
                }
            }
            assert forall|pos: usize|
                #![trigger game@.reversed.contains(pos)]
                game@.reversed.contains(pos) <==> (2 <= pos <= idx + 1
                    && reversed_pieces@.contains(pos)) by {
                assert(prev.reversed.contains(pos) <==> (2 <= pos <= idx
                    && reversed_pieces@.contains(pos)));
                if rev {
                    assert(game@.reversed == prev.reversed.push((idx + 1) as usize));
                    lemma_contains_push(prev.reversed, (idx + 1) as usize, pos);
                } else {
                    assert(game@.reversed == prev.reversed);
                }
            }
            assert(game@.pieces =~= pieces@.subrange(0, idx as int + 1));
            assert forall|x: int, y: int| game@.on_board(x, y) implies (#[trigger] game@.cell(x, y))
                == (if 1 <= gv[y][x] as int && gv[y][x] as int <= idx as int + 1 {
                gv[y][x]
            } else {
                0i8
            }) by {
                assert(prev.cell(x, y) == (if 1 <= gv[y][x] as int && gv[y][x] as int
                    <= idx as int {
                    gv[y][x]
                } else {
                    0i8
                }));
                assert(gv[y][x] as int == idx as int + 1 <==> in_piece(p, x, y));
            }
        }
        idx += 1;
    }
    proof {
        assert(idx == pieces@.len());
        assert forall|pos: usize|
            #![trigger game@.disabled.contains(pos)]
            game@.disabled.contains(pos) <==> (2 <= pos <= pieces@.len()
                && disabled_pieces@.contains(pos)) by {}
        assert forall|pos: usize|
            #![trigger game@.reversed.contains(pos)]
            game@.reversed.contains(pos) <==> (2 <= pos <= pieces@.len()
                && reversed_pieces@.contains(pos)) by {}
        assert(game@.pieces =~= pieces@);
        assert forall|y: int| 0 <= y < height implies game@.board[y] =~= gv[y] by {
            assert forall|x: int| 0 <= x < width implies game@.board[y][x] == gv[y][x] by {
                assert(game@.cell(x, y) == (if 1 <= gv[y][x] as int && gv[y][x] as int
                    <= pieces@.len() {
                    gv[y][x]
                } else {
                    0i8
                }));
            }
        }
        assert(game@.board =~= gv);
    }
    game
}

impl Game {
    /// Decodes a raw occupancy grid: cells labeled `k > 0` become the piece
    /// at array index `k - 1`, label `1` the prisoner, and the caller's
    /// `disabled_pieces` and `reversed_pieces` sets are carried through for
    /// the non-prisoner positions they name.  Decoding succeeds exactly on
    /// well-formed grids (`grid_ok`); the decoded game's board then equals
    /// the input grid.  A malformed grid is reported as the first failure
    /// found: shape, size, labels, missing prisoner, then broken segments.
    #[verifier::loop_isolation(false)]
    pub fn array_to_game(
        array: Vec<Vec<i8>>,
        exit: bool,
        disabled_pieces: Vec<usize>,
        reversed_pieces: Vec<usize>,
    ) -> (r: Result<Game, DecodeError>)
        ensures
            r is Ok <==> grid_ok(grid_view(array@)),
            match r {
                Ok(g) => {
                    &&& g@.wf()
                    &&& g@.width == grid_view(array@)[0].len()
                    &&& g@.height == grid_view(array@).len()
                    &&& g@.exit == exit
                    &&& g@.pieces.len() >= 1
                    &&& g@.board == grid_view(array@)
                    &&& g@.exit_point == spec_exit_point(g@.pieces[0], g@.width, g@.height, exit)
                    &&& forall|pos: usize|
                        #![trigger g@.disabled.contains(pos)]
                        g@.disabled.contains(pos) <==> (2 <= pos <= g@.pieces.len()
                            && disabled_pieces@.contains(pos))
                    &&& forall|pos: usize|
                        #![trigger g@.reversed.contains(pos)]
                        g@.reversed.contains(pos) <==> (2 <= pos <= g@.pieces.len()
                            && reversed_pieces@.contains(pos))
                    &&& forall|k: int| (g@.pieces.len() as int) < k ==> !has_label(
                        grid_view(array@),
                        k,
                    )
                },
                Err(e) => {
                    let gv = grid_view(array@);
                    &&& (e == DecodeError::NotRectangular ==> !grid_rect(gv))
                    &&& (e == DecodeError::TooLarge ==> grid_rect(gv) && !grid_fits(gv))
                    &&& (e == DecodeError::BadLabel ==> grid_rect(gv) && grid_fits(gv) && (
                    !grid_nonneg(gv) || !(forall|j: int|
                        2 <= j && #[trigger] has_label(gv, j) ==> has_label(gv, j - 1))))
                    &&& (e == DecodeError::NoPrisoner ==> grid_rect(gv) && grid_fits(gv)
                        && grid_nonneg(gv) && !has_label(gv, 1))
                    &&& (e == DecodeError::BadSegment ==> grid_rect(gv) && grid_fits(gv)
                        && grid_nonneg(gv) && has_label(gv, 1) && !grid_ok(gv))
                },
            },
    {
        let ghost gv = grid_view(array@);
        proof {
            assert forall|y: int| 0 <= y < array@.len() implies #[trigger] gv[y] == array@[y]@ by {}
        }
        let height = array.len();
        if height == 0 {
            return Err(DecodeError::NotRectangular);
        }
        let width = array[0].len();
        if width == 0 {
            return Err(DecodeError::NotRectangular);
        }
        let mut y: usize = 1;
        while y < height
            invariant
                1 <= y <= height,
                forall|j: int| 0 <= j < y ==> (#[trigger] array@[j])@.len() == width,
            decreases height - y,
        {
            if array[y].len() != width {
                proof {
                    assert(gv[y as int].len() != gv[0].len());
                }
                return Err(DecodeError::NotRectangular);
            }
            y += 1;
        }
        proof {
            assert(grid_rect(gv));
        }
        if height > 127 || width > 127 {
            return Err(DecodeError::TooLarge);
        }
        let maxl = match scan_labels(&array) {
            Ok(m) => m,
            Err(e) => {
                return Err(e);
            },
        };
        if maxl == 0 {
            proof {
                assert(!has_label(gv, 1));
            }
            return Err(DecodeError::NoPrisoner);
        }
        let pieces = match collect_pieces(&array, maxl) {
            Ok(ps) => ps,
            Err(e) => {
                return Err(e);
            },
        };
        let game = build_game(&array, &pieces, exit, &disabled_pieces, &reversed_pieces);
        proof {
            assert forall|k: int| 2 <= k && #[trigger] has_label(gv, k) implies has_label(
                gv,
                k - 1,
            ) by {
                let (yy, xx) = choose|yy: int, xx: int|
                    0 <= yy < gv.len() && 0 <= xx < gv[yy].len() && (#[trigger] gv[yy][xx]) as int
                        == k;
                assert(k <= maxl as int);
                let q = pieces@[k - 2];
                assert(label_matches_piece(gv, k - 1, q));
                assert(in_piece(q, q.begin.x as int, q.begin.y as int));
                assert(gv[q.begin.y as int][q.begin.x as int] as int == k - 1);
            }
            assert forall|k: int| 1 <= k && #[trigger] has_label(gv, k) implies exists|p: Piece|
                piece_shape_ok(p) && (p.end.x as int) < gv[0].len() && (p.end.y as int) < gv.len()
                    && label_matches_piece(gv, k, p) by {
                let (yy, xx) = choose|yy: int, xx: int|
                    0 <= yy < gv.len() && 0 <= xx < gv[yy].len() && (#[trigger] gv[yy][xx]) as int
                        == k;
                assert(k <= maxl as int);
                let q = pieces@[k - 1];
                assert(piece_shape_ok(q) && (q.end.x as int) < gv[0].len() && (q.end.y as int)
                    < gv.len() && label_matches_piece(gv, k, q));
            }
            let p0 = pieces@[0];
            assert(in_piece(p0, p0.begin.x as int, p0.begin.y as int));
            assert(gv[p0.begin.y as int][p0.begin.x as int] as int == 1);
            assert(has_label(gv, 1));
            assert(grid_ok(gv));
            assert forall|k: int| (game@.pieces.len() as int) < k implies !has_label(gv, k) by {
                if has_label(gv, k) {
                    let (yy, xx) = choose|yy: int, xx: int|
                        0 <= yy < gv.len() && 0 <= xx < gv[yy].len() && (
                        #[trigger] gv[yy][xx]) as int == k;
                }
            }
        }
        Ok(game)
    }

    /// Parses a bracketed, comma-separated board literal such as
    /// `"[[1, 1, 0], [0, 2, 2]]"` and decodes the grid with empty disabled
    /// and reversed sets.  Whitespace is ignored everywhere, even inside a
    /// number, as if it had been stripped before parsing.  Numbers must fit
    /// signed 8 bits.  This is a convenience wrapper around `array_to_game`:
    /// its contract promises only the shape of a success — a well-formed
    /// game over a well-formed occupancy grid — and leaves the relation
    /// between the input text and the decoded grid unspecified.
    #[verifier::loop_isolation(false)]
    pub fn string_to_game(game_str: &str, exit: bool) -> (r: Result<Game, DecodeError>)
        ensures
            match r {
                Ok(g) => {
                    &&& g@.wf()
                    &&& g@.pieces.len() >= 1
                    &&& g@.exit == exit
                    &&& grid_ok(g@.board)
                    &&& forall|pos: usize| !(#[trigger] g@.disabled.contains(pos))
                    &&& forall|pos: usize| !(#[trigger] g@.reversed.contains(pos))
                },
                Err(e) => true,
            },
    {
        let b = game_str.as_bytes();
        let mut grid: Vec<Vec<i8>> = Vec::new();
        let mut row: Vec<i8> = Vec::new();
        let mut acc: i16 = 0;
        let mut has_num = false;
        let mut neg = false;
        let mut depth: usize = 0;
        let mut i: usize = 0;
        while i < b.len()
            invariant
                i <= b@.len(),
                0 <= acc <= 128,
            decreases b@.len() - i,
        {
            let c = b[i];
            if c == 91 {  // '['
                if has_num || depth >= 2 {
                    return Err(DecodeError::NotRectangular);
                }
                depth += 1;
            } else if c == 93 {  // ']'
                if depth == 0 {
                    return Err(DecodeError::NotRectangular);
                }
                if depth == 2 {
                    if has_num {
                        match finish_number(acc, neg) {
                            Ok(v) => row.push(v),
                            Err(e) => {
                                return Err(e);
                            },
                        }
                        acc = 0;
                        has_num = false;
                        neg = false;
                    }
                    grid.push(row);
                    row = Vec::new();
                }
                depth -= 1;
            } else if c == 44 {  // ','
                if depth == 2 {
                    if !has_num {
                        return Err(DecodeError::BadLabel);
                    }
                    match finish_number(acc, neg) {
                        Ok(v) => row.push(v),
                        Err(e) => {
                            return Err(e);
                        },
                    }
                    acc = 0;
                    has_num = false;
                    neg = false;
                } else if depth != 1 {
                    return Err(DecodeError::NotRectangular);
                }
            } else if c == 45 {  // '-'
                if depth != 2 || has_num || neg {
                    return Err(DecodeError::BadLabel);
                }
                neg = true;
            } else if 48 <= c && c <= 57 {  // digit
                if depth != 2 {
                    return Err(DecodeError::NotRectangular);
                }
                if acc > 12 {
                    return Err(DecodeError::BadLabel);
                }
                acc = acc * 10 + (c - 48) as i16;
                if acc > 128 {
                    return Err(DecodeError::BadLabel);
                }
                has_num = true;
            } else if c == 32 || c == 9 || c == 10 || c == 13 {  // whitespace
            } else {
                return Err(DecodeError::BadLabel);
            }
            i += 1;
        }
        if depth != 0 {
            return Err(DecodeError::NotRectangular);
        }
        Game::array_to_game(grid, exit, Vec::new(), Vec::new())
    }
}

/// Turns an accumulated magnitude and sign into a signed 8-bit label.
fn finish_number(acc: i16, neg: bool) -> (r: Result<i8, DecodeError>)
    requires
        0 <= acc <= 128,
{
    if neg {
        if acc > 128 {
            return Err(DecodeError::BadLabel);
        }
        Ok((0 - acc) as i8)
    } else {
        if acc > 127 {
            return Err(DecodeError::BadLabel);
        }
        Ok(acc as i8)
    }
}

} // verus!
