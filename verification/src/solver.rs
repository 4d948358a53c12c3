//! Breadth-first search over puzzle states.  `solve` proves solvability and
//! returns one reachable solved state; `extra_solve` additionally
//! reconstructs the whole solution path through an arena of parent handles.

use std::collections::VecDeque;
use vstd::prelude::*;

use crate::game::{
    lemma_board_determines_state, lemma_move_ok_steps_bound, lemma_move_preserves_wf, Board, Game,
    GameModel,
};

verus! {

/// One legal transition between states: some piece travels some positive
/// number of cells in one direction.
pub open spec fn step(m1: GameModel, m2: GameModel) -> bool {
    exists|i: int, dir: bool, steps: int|
        0 <= i < m1.pieces.len() && 1 <= steps && #[trigger] m1.move_ok(i, dir, steps) && m2
            == m1.move_result(i, dir, steps)
}

/// `b` arises from `a` by exactly `n` legal transitions.
pub open spec fn reach_n(a: GameModel, b: GameModel, n: nat) -> bool
    decreases n,
{
    if n == 0 {
        a == b
    } else {
        exists|mid: GameModel| reach_n(a, mid, (n - 1) as nat) && #[trigger] step(mid, b)
    }
}

/// `b` arises from `a` by some finite sequence of legal transitions.
pub open spec fn reachable(a: GameModel, b: GameModel) -> bool {
    exists|n: nat| reach_n(a, b, n)
}

/// One legal transition never changes the board's dimensions, the exit, the
/// number of pieces, or the disabled and reversed sets: play only rearranges
/// the pieces.
pub proof fn lemma_step_preserves_frame(a: GameModel, b: GameModel)
    requires
        step(a, b),
    ensures
        b.width == a.width,
        b.height == a.height,
        b.exit == a.exit,
        b.exit_point == a.exit_point,
        b.pieces.len() == a.pieces.len(),
        b.disabled == a.disabled,
        b.reversed == a.reversed,
{
    let (i, dir, steps) = choose|i: int, dir: bool, steps: int|
        0 <= i < a.pieces.len() && 1 <= steps && #[trigger] a.move_ok(i, dir, steps) && b
            == a.move_result(i, dir, steps);
}

proof fn lemma_reach_n_preserves_frame(a: GameModel, b: GameModel, n: nat)
    requires
        reach_n(a, b, n),
    ensures
        b.width == a.width,
        b.height == a.height,
        b.exit == a.exit,
        b.exit_point == a.exit_point,
        b.pieces.len() == a.pieces.len(),
        b.disabled == a.disabled,
        b.reversed == a.reversed,
    decreases n,
{
    if n != 0 {
        let mid = choose|mid: GameModel|
            reach_n(a, mid, (n - 1) as nat) && #[trigger] step(mid, b);
        lemma_reach_n_preserves_frame(a, mid, (n - 1) as nat);
        lemma_step_preserves_frame(mid, b);
    }
}

/// Any state reached by legal play keeps the board's dimensions, the exit,
/// the number of pieces, and the disabled and reversed sets of the state it
/// started from.
pub proof fn lemma_reachable_preserves_frame(a: GameModel, b: GameModel)
    requires
        reachable(a, b),
    ensures
        b.width == a.width,
        b.height == a.height,
        b.exit == a.exit,
        b.exit_point == a.exit_point,
        b.pieces.len() == a.pieces.len(),
        b.disabled == a.disabled,
        b.reversed == a.reversed,
{
    let n = choose|n: nat| reach_n(a, b, n);
    lemma_reach_n_preserves_frame(a, b, n);
}

/// Legal play preserves well-formedness.
pub proof fn lemma_step_preserves_wf(a: GameModel, b: GameModel)
    requires
        a.wf(),
        step(a, b),
    ensures
        b.wf(),
{
    let (i, dir, steps) = choose|i: int, dir: bool, steps: int|
        0 <= i < a.pieces.len() && 1 <= steps && #[trigger] a.move_ok(i, dir, steps) && b
            == a.move_result(i, dir, steps);
    lemma_move_preserves_wf(a, i, dir, steps);
}

proof fn lemma_reach_n_preserves_wf(a: GameModel, b: GameModel, n: nat)
    requires
        a.wf(),
        reach_n(a, b, n),
    ensures
        b.wf(),
    decreases n,
{
    if n != 0 {
        let mid = choose|mid: GameModel| reach_n(a, mid, (n - 1) as nat) && #[trigger] step(mid, b);
        lemma_reach_n_preserves_wf(a, mid, (n - 1) as nat);
        lemma_step_preserves_wf(mid, b);
    }
}

/// Any state reached by legal play from a well-formed state is well-formed.
pub proof fn lemma_reachable_preserves_wf(a: GameModel, b: GameModel)
    requires
        a.wf(),
        reachable(a, b),
    ensures
        b.wf(),
{
    let n = choose|n: nat| reach_n(a, b, n);
    lemma_reach_n_preserves_wf(a, b, n);
}

/// Some state reachable from `init` is solved.
pub open spec fn solvable(init: GameModel) -> bool {
    exists|m: GameModel| reachable(init, m) && (#[trigger] m.exit_clear())
}

/// The boards of all states reachable from `init` fit in at most
/// `VISITED_CAP` distinct layouts.
pub open spec fn boards_within_cap(init: GameModel) -> bool {
    exists|s: Set<Seq<Seq<i8>>>|
        (#[trigger] s.finite()) && s.len() <= VISITED_CAP && (forall|m: GameModel|
            reachable(init, m) ==> s.contains(#[trigger] m.board))
}

/// The board `b` occurs in the visited list.
pub open spec fn board_seen(checked: Seq<Board>, b: Seq<Seq<i8>>) -> bool {
    exists|c: int| 0 <= c < checked.len() && (#[trigger] checked[c])@ == b
}

/// Every visited board belongs to some reachable, unsolved state.
spec fn checked_sound(init: GameModel, checked: Seq<Board>) -> bool {
    forall|c: int|
        0 <= c < checked.len() ==> exists|m: GameModel|
            reachable(init, m) && !m.exit_clear() && m.board == (#[trigger] checked[c])@
}

/// The visited boards are pairwise distinct.
spec fn checked_distinct(checked: Seq<Board>) -> bool {
    forall|c1: int, c2: int|
        0 <= c1 < c2 < checked.len() ==> (#[trigger] checked[c1])@ != (#[trigger] checked[c2])@
}

/// The frontier holds a state with value `m`.
spec fn frontier_has(q: Seq<Game>, m: GameModel) -> bool {
    exists|k: int| 0 <= k < q.len() && (#[trigger] q[k])@ == m
}

/// Every legal move out of a reachable state whose board was visited leads
/// to a state whose board was visited or which waits on the frontier.
spec fn closed_under_step(init: GameModel, checked: Seq<Board>, q: Seq<Game>) -> bool {
    forall|m: GameModel, m2: GameModel|
        reachable(init, m) && board_seen(checked, #[trigger] m.board) && #[trigger] step(m, m2)
            ==> board_seen(checked, m2.board) || frontier_has(q, m2)
}

/// With an empty frontier, the visited boards cover every reachable state.
proof fn lemma_closed_covers(init: GameModel, checked: Seq<Board>, m: GameModel, n: nat)
    requires
        init.wf(),
        board_seen(checked, init.board),
        closed_under_step(init, checked, Seq::<Game>::empty()),
        reach_n(init, m, n),
    ensures
        board_seen(checked, m.board),
    decreases n,
{
    if n != 0 {
        let mid = choose|mid: GameModel| reach_n(init, mid, (n - 1) as nat) && #[trigger] step(mid, m);
        lemma_closed_covers(init, checked, mid, (n - 1) as nat);
        assert(reach_n(init, mid, (n - 1) as nat));
        assert(reachable(init, mid));
        assert(board_seen(checked, m.board) || frontier_has(Seq::<Game>::empty(), m));
    }
}

/// An exhausted frontier proves unsolvability: the visited boards then cover
/// every reachable state, and none of them is solved.
proof fn lemma_exhausted_unsolvable(init: GameModel, checked: Seq<Board>)
    requires
        init.wf(),
        board_seen(checked, init.board),
        closed_under_step(init, checked, Seq::<Game>::empty()),
        checked_sound(init, checked),
    ensures
        !solvable(init),
{
    if solvable(init) {
        let m = choose|m: GameModel| reachable(init, m) && (#[trigger] m.exit_clear());
        let n = choose|n: nat| reach_n(init, m, n);
        lemma_closed_covers(init, checked, m, n);
        let c = choose|c: int| 0 <= c < checked.len() && (#[trigger] checked[c])@ == m.board;
        let m2 = choose|m2: GameModel|
            reachable(init, m2) && !m2.exit_clear() && m2.board == (#[trigger] checked[c])@;
        lemma_reachable_preserves_wf(init, m);
        lemma_reachable_preserves_wf(init, m2);
        lemma_reachable_preserves_frame(init, m);
        lemma_reachable_preserves_frame(init, m2);
        lemma_board_determines_state(m, m2);
        assert(false);
    }
}

/// Distinct values that all lie in a finite set bound its size from below.
proof fn lemma_distinct_in_set(bs: Seq<Seq<Seq<i8>>>, s: Set<Seq<Seq<i8>>>)
    requires
        forall|c1: int, c2: int| 0 <= c1 < c2 < bs.len() ==> #[trigger] bs[c1] != #[trigger] bs[c2],
        forall|c: int| 0 <= c < bs.len() ==> s.contains(#[trigger] bs[c]),
        s.finite(),
    ensures
        s.len() >= bs.len(),
    decreases bs.len(),
{
    if bs.len() > 0 {
        let last = bs[bs.len() - 1];
        let bs2 = bs.drop_last();
        let s2 = s.remove(last);
        assert(forall|c: int| 0 <= c < bs2.len() ==> #[trigger] bs2[c] == bs[c]);
        lemma_distinct_in_set(bs2, s2);
        assert(s.contains(last));
        assert(s2.len() == s.len() - 1);
    }
}

/// More than `VISITED_CAP` distinct reachable boards rule out any cover of
/// at most `VISITED_CAP` layouts.
proof fn lemma_many_boards(init: GameModel, checked: Seq<Board>)
    requires
        checked_sound(init, checked),
        checked_distinct(checked),
        checked.len() > VISITED_CAP,
    ensures
        !boards_within_cap(init),
{
    if boards_within_cap(init) {
        let s = choose|s: Set<Seq<Seq<i8>>>|
            (#[trigger] s.finite()) && s.len() <= VISITED_CAP && (forall|m: GameModel|
                reachable(init, m) ==> s.contains(#[trigger] m.board));
        let bs = checked.map_values(|b: Board| b@);
        assert forall|c: int| 0 <= c < bs.len() implies s.contains(#[trigger] bs[c]) by {
            assert(bs[c] == checked[c]@);
            let m = choose|m: GameModel|
                reachable(init, m) && !m.exit_clear() && m.board == (#[trigger] checked[c])@;
            assert(s.contains(m.board));
        }
        assert forall|c1: int, c2: int|
            0 <= c1 < c2 < bs.len() implies #[trigger] bs[c1] != #[trigger] bs[c2] by {
            assert(bs[c1] == checked[c1]@ && bs[c2] == checked[c2]@);
        }
        lemma_distinct_in_set(bs, s);
        assert(false);
    }
}

/// Every state is reachable from itself.
pub proof fn lemma_reachable_refl(a: GameModel)
    ensures
        reachable(a, a),
{
    assert(reach_n(a, a, 0));
}

/// Reachability extends along a further legal transition.
pub proof fn lemma_reachable_step(a: GameModel, b: GameModel, c: GameModel)
    requires
        reachable(a, b),
        step(b, c),
    ensures
        reachable(a, c),
{
    let n = choose|n: nat| reach_n(a, b, n);
    assert(reach_n(a, c, n + 1));
}

/// The most distinct board layouts either search expands before giving up.
/// The cap trades completeness for bounded memory: hitting it is not a proof
/// of unsolvability, and the contracts of both searches name it for exactly
/// that reason.  The value is a deliberate choice: hard instances of
/// six-by-six boards need several thousand expansions (the trickiest
/// reference scenario needs just under six thousand), so a cap near a
/// thousand would make the search give up on boards it is expected to
/// solve; this value leaves those instances ample room while still bounding
/// a runaway search.
pub const VISITED_CAP: usize = 100000;

/// An explored state together with the arena handle of the state it was
/// expanded from; the root carries no parent.
pub struct Node {
    pub game: Game,
    pub last: Option<usize>,
}

/// Whether `game`'s grid already occurs in `vec`, comparing grids cell by
/// cell; which pieces produce the labels is irrelevant.
pub fn game_in(game: &Game, vec: &Vec<Board>) -> (r: bool)
    ensures
        r == exists|k: int| 0 <= k < vec@.len() && (#[trigger] vec@[k])@ == game.board@,
{
    let mut k: usize = 0;
    while k < vec.len()
        invariant
            k <= vec@.len(),
            forall|j: int| 0 <= j < k ==> (#[trigger] vec@[j])@ != game.board@,
        decreases vec@.len() - k,
    {
        if boards_equal(&vec[k], &game.board) {
            return true;
        }
        k += 1;
    }
    false
}

/// Whether two rows hold the same labels.
fn rows_equal(a: &Vec<i8>, b: &Vec<i8>) -> (r: bool)
    ensures
        r == (a@ == b@),
{
    if a.len() != b.len() {
        return false;
    }
    let mut k: usize = 0;
    while k < a.len()
        invariant
            k <= a@.len(),
            a@.len() == b@.len(),
            forall|j: int| 0 <= j < k ==> a@[j] == b@[j],
        decreases a@.len() - k,
    {
        if a[k] != b[k] {
            return false;
        }
        k += 1;
    }
    proof {
        assert(a@ =~= b@);
    }
    true
}

/// Whether two boards hold the same grid.
fn boards_equal(a: &Board, b: &Board) -> (r: bool)
    ensures
        r == (a@ == b@),
{
    if a.matrix.len() != b.matrix.len() {
        proof {
            assert(a@.len() != b@.len());
        }
        return false;
    }
    let mut y: usize = 0;
    while y < a.matrix.len()
        invariant
            y <= a.matrix@.len(),
            a.matrix@.len() == b.matrix@.len(),
            forall|j: int| 0 <= j < y ==> (#[trigger] a.matrix@[j])@ == b.matrix@[j]@,
        decreases a.matrix@.len() - y,
    {
        if !rows_equal(&a.matrix[y], &b.matrix[y]) {
            proof {
                assert(a@[y as int] == a.matrix@[y as int]@);
                assert(b@[y as int] == b.matrix@[y as int]@);
                assert(a@[y as int] != b@[y as int]);
            }
            return false;
        }
        y += 1;
    }
    proof {
        assert forall|j: int| 0 <= j < a@.len() implies a@[j] == b@[j] by {
            assert(a.matrix@[j]@ == b.matrix@[j]@);
        }
        assert(a@ =~= b@);
    }
    true
}

/// Membership in the frontier survives a push.
proof fn lemma_frontier_push(q: Seq<Game>, g: Game, m: GameModel)
    requires
        frontier_has(q, m),
    ensures
        frontier_has(q.push(g), m),
{
    let k = choose|k: int| 0 <= k < q.len() && (#[trigger] q[k])@ == m;
    assert(q.push(g)[k]@ == m);
}

/// Returns the frontier extended with a clone of `game` moved by every
/// legal `(piece, direction, steps)` combination, relying on monotone
/// blocking to stop each distance scan at the first illegal distance.
#[verifier::loop_isolation(false)]
#[verifier::rlimit(100)]
fn enqueue_successors(
    queue: VecDeque<Game>,
    game: &Game,
    max_steps: usize,
    Ghost(init): Ghost<GameModel>,
) -> (r: VecDeque<Game>)
    requires
        game@.wf(),
        game@.pieces.len() >= 1,
        reachable(init, game@),
        game@.width <= max_steps,
        game@.height <= max_steps,
        max_steps <= 127,
        forall|k: int|
            0 <= k < queue@.len() ==> (#[trigger] queue@[k])@.wf() && queue@[k]@.pieces.len() >= 1
                && reachable(init, queue@[k]@),
    ensures
        forall|k: int|
            0 <= k < r@.len() ==> (#[trigger] r@[k])@.wf() && r@[k]@.pieces.len() >= 1
                && reachable(init, r@[k]@),
        forall|m: GameModel| #[trigger] frontier_has(queue@, m) ==> frontier_has(r@, m),
        forall|pi: int, dir: bool, st: int|
            0 <= pi < game@.pieces.len() && 1 <= st && #[trigger] game@.move_ok(pi, dir, st)
                ==> frontier_has(r@, game@.move_result(pi, dir, st)),
        r@.len() >= queue@.len(),
        forall|k: int| 0 <= k < queue@.len() ==> #[trigger] r@[k] == queue@[k],
        forall|k: int| queue@.len() <= k < r@.len() ==> step(game@, (#[trigger] r@[k])@),
{
    let mut q = queue;
    let mut i: usize = 0;
    while i < game.pieces.len()
        invariant
            i <= game@.pieces.len(),
            forall|k: int|
                0 <= k < q@.len() ==> (#[trigger] q@[k])@.wf() && q@[k]@.pieces.len() >= 1
                    && reachable(init, q@[k]@),
            forall|m: GameModel| #[trigger] frontier_has(queue@, m) ==> frontier_has(q@, m),
            forall|pi: int, dir: bool, st: int|
                0 <= pi < i && 1 <= st && #[trigger] game@.move_ok(pi, dir, st) ==> frontier_has(
                    q@,
                    game@.move_result(pi, dir, st),
                ),
            q@.len() >= queue@.len(),
            forall|k: int| 0 <= k < queue@.len() ==> #[trigger] q@[k] == queue@[k],
            forall|k: int| queue@.len() <= k < q@.len() ==> step(game@, (#[trigger] q@[k])@),
        decreases game@.pieces.len() - i,
    {
        q = enqueue_direction(q, game, i, true, max_steps, Ghost(init));
        q = enqueue_direction(q, game, i, false, max_steps, Ghost(init));
        i += 1;
    }
    q
}

/// Returns the frontier extended with a clone of `game` whose piece `i` has
/// moved by every legal distance in direction `dir`.
#[verifier::loop_isolation(false)]
#[verifier::rlimit(100)]
fn enqueue_direction(
    queue: VecDeque<Game>,
    game: &Game,
    i: usize,
    dir: bool,
    max_steps: usize,
    Ghost(init): Ghost<GameModel>,
) -> (r: VecDeque<Game>)
    requires
        game@.wf(),
        game@.pieces.len() >= 1,
        i < game@.pieces.len(),
        reachable(init, game@),
        game@.width <= max_steps,
        game@.height <= max_steps,
        max_steps <= 127,
        forall|k: int|
            0 <= k < queue@.len() ==> (#[trigger] queue@[k])@.wf() && queue@[k]@.pieces.len() >= 1
                && reachable(init, queue@[k]@),
    ensures
        forall|k: int|
            0 <= k < r@.len() ==> (#[trigger] r@[k])@.wf() && r@[k]@.pieces.len() >= 1
                && reachable(init, r@[k]@),
        forall|m: GameModel| #[trigger] frontier_has(queue@, m) ==> frontier_has(r@, m),
        forall|st: int|
            1 <= st && #[trigger] game@.move_ok(i as int, dir, st) ==> frontier_has(
                r@,
                game@.move_result(i as int, dir, st),
            ),
        r@.len() >= queue@.len(),
        forall|k: int| 0 <= k < queue@.len() ==> #[trigger] r@[k] == queue@[k],
        forall|k: int| queue@.len() <= k < r@.len() ==> step(game@, (#[trigger] r@[k])@),
{
    let mut q = queue;
    let mut j: usize = 1;
    let mut blocked = false;
    while !blocked && j < max_steps
        invariant
            1 <= j <= max_steps,
            q@.len() >= queue@.len(),
            forall|k: int| 0 <= k < queue@.len() ==> #[trigger] q@[k] == queue@[k],
            forall|k: int| queue@.len() <= k < q@.len() ==> step(game@, (#[trigger] q@[k])@),
            forall|k: int|
                0 <= k < q@.len() ==> (#[trigger] q@[k])@.wf() && q@[k]@.pieces.len() >= 1
                    && reachable(init, q@[k]@),
            forall|m: GameModel| #[trigger] frontier_has(queue@, m) ==> frontier_has(q@, m),
            !blocked ==> forall|st: int|
                1 <= st < j ==> #[trigger] game@.move_ok(i as int, dir, st) && frontier_has(
                    q@,
                    game@.move_result(i as int, dir, st),
                ),
            blocked ==> forall|st: int|
                1 <= st && #[trigger] game@.move_ok(i as int, dir, st) ==> frontier_has(
                    q@,
                    game@.move_result(i as int, dir, st),
                ),
        decreases max_steps - j, 1int - (if blocked { 1int } else { 0int }),
    {
        let ghost q0 = q@;
        let ghost j0 = j;
        let mut pos_game = game.clone();
        if pos_game.move_piece(i as i8, dir, j as u8) {
            let ghost newm = pos_game@;
            proof {
                assert(game@.move_ok(i as int, dir, j as int));
                assert(newm == game@.move_result(i as int, dir, j0 as int));
                assert(step(game@, pos_game@));
                lemma_reachable_step(init, game@, pos_game@);
            }
            q.push_back(pos_game);
            j += 1;
            proof {
                assert forall|m: GameModel| #[trigger] frontier_has(q0, m) implies frontier_has(
                    q@,
                    m,
                ) by {
                    let k = choose|k: int| 0 <= k < q0.len() && (#[trigger] q0[k])@ == m;
                    assert(q@[k]@ == m);
                }
                assert(q@[q@.len() - 1]@ == newm);
                assert(frontier_has(q@, newm));
                assert forall|st: int| 1 <= st < j implies #[trigger] game@.move_ok(
                    i as int,
                    dir,
                    st,
                ) && frontier_has(q@, game@.move_result(i as int, dir, st)) by {
                    if st < j0 {
                        assert(game@.move_ok(i as int, dir, st));
                        assert(frontier_has(q0, game@.move_result(i as int, dir, st)));
                    } else {
                        assert(st == j0);
                        assert(newm == game@.move_result(i as int, dir, st));
                    }
                }
            }
        } else {
            proof {
                assert forall|st: int|
                    1 <= st && #[trigger] game@.move_ok(i as int, dir, st) implies frontier_has(
                    q@,
                    game@.move_result(i as int, dir, st),
                ) by {
                    if st >= j {
                        crate::game::lemma_blocked_stays_blocked(
                            game@,
                            i as int,
                            dir,
                            j as int,
                            st,
                        );
                    }
                }
            }
            blocked = true;
        }
    }
    proof {
        if !blocked {
            assert forall|st: int|
                1 <= st && #[trigger] game@.move_ok(i as int, dir, st) implies frontier_has(
                q@,
                game@.move_result(i as int, dir, st),
            ) by {
                lemma_move_ok_steps_bound(game@, i as int, dir, st);
            }
        }
    }
    q
}

/// The frontier holds `m` at recorded depth at most `bound`.
spec fn entry_at(q: Seq<Game>, ds: Seq<nat>, m: GameModel, bound: int) -> bool {
    exists|k: int| 0 <= k < q.len() && (#[trigger] q[k])@ == m && ds[k] <= bound
}

/// One more transition extends an exact-depth reach.
proof fn lemma_reach_n_step(a: GameModel, b: GameModel, c: GameModel, n: nat)
    requires
        reach_n(a, b, n),
        step(b, c),
    ensures
        reach_n(a, c, n + 1),
{
    assert(reach_n(a, c, (n + 1) as nat));
}

/// A state whose board was visited is not solved: the visited witness has
/// the same board, so by determinism it is the same state.
proof fn lemma_seen_not_solved(init: GameModel, checked: Seq<Board>, m: GameModel)
    requires
        init.wf(),
        checked_sound(init, checked),
        reachable(init, m),
        board_seen(checked, m.board),
    ensures
        !m.exit_clear(),
{
    let c = choose|c: int| 0 <= c < checked.len() && (#[trigger] checked[c])@ == m.board;
    let m2 = choose|m2: GameModel|
        reachable(init, m2) && !m2.exit_clear() && m2.board == (#[trigger] checked[c])@;
    lemma_reachable_preserves_wf(init, m);
    lemma_reachable_preserves_wf(init, m2);
    lemma_reachable_preserves_frame(init, m);
    lemma_reachable_preserves_frame(init, m2);
    lemma_board_determines_state(m, m2);
}

/// Dropping a frontier head whose board was already visited keeps the
/// depth-indexed coverage: states no deeper than the new head are visited or
/// waiting, and every move out of a visited state stays covered.
#[verifier::rlimit(100)]
proof fn lemma_depths_after_skip(
    init: GameModel,
    checked: Seq<Board>,
    q0: Seq<Game>,
    ds0: Seq<nat>,
    q1: Seq<Game>,
    ds1: Seq<nat>,
    g: GameModel,
)
    requires
        q0.len() >= 1,
        ds0.len() == q0.len(),
        q1 == q0.subrange(1, q0.len() as int),
        ds1 == ds0.subrange(1, ds0.len() as int),
        q0[0]@ == g,
        board_seen(checked, g.board),
        forall|k: int| 0 <= k < q0.len() ==> reach_n(init, (#[trigger] q0[k])@, ds0[k]),
        forall|k1: int, k2: int|
            0 <= k1 <= k2 < q0.len() ==> (#[trigger] ds0[k1]) <= (#[trigger] ds0[k2]),
        forall|k: int| 0 <= k < q0.len() ==> (#[trigger] ds0[k]) <= ds0[0] + 1,
        forall|m: GameModel, n: nat|
            #[trigger] reach_n(init, m, n) && n <= ds0[0] ==> board_seen(checked, m.board)
                || entry_at(q0, ds0, m, n as int),
        forall|m: GameModel, n: nat, m2: GameModel|
            #[trigger] reach_n(init, m, n) && board_seen(checked, m.board) && #[trigger] step(
                m,
                m2,
            ) ==> board_seen(checked, m2.board) || entry_at(q0, ds0, m2, n + 1 as int),
    ensures
        forall|k: int| 0 <= k < q1.len() ==> reach_n(init, (#[trigger] q1[k])@, ds1[k]),
        forall|k1: int, k2: int|
            0 <= k1 <= k2 < q1.len() ==> (#[trigger] ds1[k1]) <= (#[trigger] ds1[k2]),
        forall|k: int| 0 <= k < q1.len() ==> (#[trigger] ds1[k]) <= ds1[0] + 1,
        forall|m: GameModel, n: nat, m2: GameModel|
            #[trigger] reach_n(init, m, n) && board_seen(checked, m.board) && #[trigger] step(
                m,
                m2,
            ) ==> board_seen(checked, m2.board) || entry_at(q1, ds1, m2, n + 1 as int),
        q1.len() > 0 ==> forall|m: GameModel, n: nat|
            #[trigger] reach_n(init, m, n) && n <= ds1[0] ==> board_seen(checked, m.board)
                || entry_at(q1, ds1, m, n as int),
{
    let d0 = ds0[0];
    assert forall|m: GameModel, n: nat, m2: GameModel|
        #[trigger] reach_n(init, m, n) && board_seen(checked, m.board) && #[trigger] step(
            m,
            m2,
        ) implies board_seen(checked, m2.board) || entry_at(q1, ds1, m2, n + 1 as int) by {
        assert(board_seen(checked, m2.board) || entry_at(q0, ds0, m2, n + 1 as int));
        if entry_at(q0, ds0, m2, n + 1 as int) {
            let k = choose|k: int| 0 <= k < q0.len() && (#[trigger] q0[k])@ == m2 && ds0[k] <= n
                + 1;
            if k == 0 {
                assert(m2 == g);
            } else {
                assert(q1[k - 1]@ == m2 && ds1[k - 1] <= n + 1);
            }
        }
    }
    if q1.len() > 0 {
        assert forall|m: GameModel, n: nat|
            #[trigger] reach_n(init, m, n) && n <= ds1[0] implies board_seen(checked, m.board)
            || entry_at(q1, ds1, m, n as int) by {
            if n <= d0 {
                assert(board_seen(checked, m.board) || entry_at(q0, ds0, m, n as int));
                if entry_at(q0, ds0, m, n as int) {
                    let k = choose|k: int|
                        0 <= k < q0.len() && (#[trigger] q0[k])@ == m && ds0[k] <= n;
                    if k == 0 {
                        assert(m == g);
                    } else {
                        assert(q1[k - 1]@ == m && ds1[k - 1] <= n);
                    }
                }
            } else {
                assert(ds1[0] == ds0[1] <= d0 + 1);
                assert(n == d0 + 1);
                let mid = choose|mid: GameModel|
                    reach_n(init, mid, (n - 1) as nat) && #[trigger] step(mid, m);
                assert(reach_n(init, mid, d0));
                assert(board_seen(checked, mid.board)) by {
                    assert(board_seen(checked, mid.board) || entry_at(q0, ds0, mid, d0 as int));
                    if entry_at(q0, ds0, mid, d0 as int) {
                        let k = choose|k: int|
                            0 <= k < q0.len() && (#[trigger] q0[k])@ == mid && ds0[k] <= d0;
                        if k > 0 {
                            assert(ds0[1] <= ds0[k]);
                            assert(false);
                        }
                        assert(mid == g);
                    }
                }
                assert(board_seen(checked, m.board) || entry_at(q1, ds1, m, d0 + 1 as int));
            }
        }
    }
}

/// Expanding a frontier head keeps the depth-indexed coverage: the head's
/// board joins the visited list at its true minimal depth, and its
/// successors wait at the next depth.
#[verifier::rlimit(100)]
proof fn lemma_depths_after_expand(
    init: GameModel,
    checked0: Seq<Board>,
    checked1: Seq<Board>,
    q0: Seq<Game>,
    ds0: Seq<nat>,
    qmid: Seq<Game>,
    q1: Seq<Game>,
    ds1: Seq<nat>,
    g: GameModel,
)
    requires
        init.wf(),
        q0.len() >= 1,
        ds0.len() == q0.len(),
        qmid == q0.subrange(1, q0.len() as int),
        q0[0]@ == g,
        reach_n(init, g, ds0[0]),
        !board_seen(checked0, g.board),
        checked1.len() == checked0.len() + 1,
        forall|c: int| 0 <= c < checked0.len() ==> #[trigger] checked1[c] == checked0[c],
        checked1[checked1.len() - 1]@ == g.board,
        forall|k: int| 0 <= k < q0.len() ==> reach_n(init, (#[trigger] q0[k])@, ds0[k]),
        forall|k1: int, k2: int|
            0 <= k1 <= k2 < q0.len() ==> (#[trigger] ds0[k1]) <= (#[trigger] ds0[k2]),
        forall|k: int| 0 <= k < q0.len() ==> (#[trigger] ds0[k]) <= ds0[0] + 1,
        forall|m: GameModel, n: nat|
            #[trigger] reach_n(init, m, n) && n <= ds0[0] ==> board_seen(checked0, m.board)
                || entry_at(q0, ds0, m, n as int),
        forall|m: GameModel, n: nat, m2: GameModel|
            #[trigger] reach_n(init, m, n) && board_seen(checked0, m.board) && #[trigger] step(
                m,
                m2,
            ) ==> board_seen(checked0, m2.board) || entry_at(q0, ds0, m2, n + 1 as int),
        q1.len() >= qmid.len(),
        forall|k: int| 0 <= k < qmid.len() ==> #[trigger] q1[k] == qmid[k],
        forall|k: int| qmid.len() <= k < q1.len() ==> step(g, (#[trigger] q1[k])@),
        forall|pi: int, dir: bool, st: int|
            0 <= pi < g.pieces.len() && 1 <= st && #[trigger] g.move_ok(pi, dir, st)
                ==> frontier_has(q1, g.move_result(pi, dir, st)),
        ds1 == ds0.subrange(1, ds0.len() as int).add(
            Seq::new((q1.len() - qmid.len()) as nat, |t: int| (ds0[0] + 1) as nat),
        ),
    ensures
        ds1.len() == q1.len(),
        forall|k: int| 0 <= k < q1.len() ==> reach_n(init, (#[trigger] q1[k])@, ds1[k]),
        forall|k1: int, k2: int|
            0 <= k1 <= k2 < q1.len() ==> (#[trigger] ds1[k1]) <= (#[trigger] ds1[k2]),
        forall|k: int| 0 <= k < q1.len() ==> (#[trigger] ds1[k]) <= ds1[0] + 1,
        forall|n: nat| #[trigger] reach_n(init, g, n) ==> n >= ds0[0],
        forall|m: GameModel, n: nat, m2: GameModel|
            #[trigger] reach_n(init, m, n) && board_seen(checked1, m.board) && #[trigger] step(
                m,
                m2,
            ) ==> board_seen(checked1, m2.board) || entry_at(q1, ds1, m2, n + 1 as int),
        q1.len() > 0 ==> forall|m: GameModel, n: nat|
            #[trigger] reach_n(init, m, n) && n <= ds1[0] ==> board_seen(checked1, m.board)
                || entry_at(q1, ds1, m, n as int),
{
    let d0 = ds0[0];
    assert(board_seen(checked1, g.board));
    assert forall|b: Seq<Seq<i8>>| board_seen(checked0, b) implies board_seen(checked1, b) by {
        let c = choose|c: int| 0 <= c < checked0.len() && (#[trigger] checked0[c])@ == b;
        assert(checked1[c]@ == b);
    }
    assert forall|n: nat| #[trigger] reach_n(init, g, n) implies n >= d0 by {
        if n < d0 {
            assert(board_seen(checked0, g.board) || entry_at(q0, ds0, g, n as int));
            if entry_at(q0, ds0, g, n as int) {
                let k = choose|k: int| 0 <= k < q0.len() && (#[trigger] q0[k])@ == g && ds0[k] <= n;
                assert(ds0[0] <= ds0[k]);
                assert(false);
            }
            assert(false);
        }
    }
    assert forall|k: int| 0 <= k < q1.len() implies reach_n(init, (#[trigger] q1[k])@, ds1[k]) by {
        if k < qmid.len() {
            assert(q1[k] == q0[k + 1] && ds1[k] == ds0[k + 1]);
        } else {
            assert(step(g, q1[k]@));
            assert(ds1[k] == d0 + 1);
            lemma_reach_n_step(init, g, q1[k]@, d0);
        }
    }
    assert forall|k1: int, k2: int|
        0 <= k1 <= k2 < q1.len() implies (#[trigger] ds1[k1]) <= (#[trigger] ds1[k2]) by {
        if k2 < qmid.len() {
            assert(ds1[k1] == ds0[k1 + 1] && ds1[k2] == ds0[k2 + 1]);
        } else if k1 < qmid.len() {
            assert(ds1[k1] == ds0[k1 + 1] <= d0 + 1 && ds1[k2] == d0 + 1);
        } else {
            assert(ds1[k1] == d0 + 1 && ds1[k2] == d0 + 1);
        }
    }
    assert forall|k: int| 0 <= k < q1.len() implies (#[trigger] ds1[k]) <= ds1[0] + 1 by {
        assert(ds1[0] >= d0);
        if k < qmid.len() {
            assert(ds1[k] == ds0[k + 1] <= d0 + 1);
        } else {
            assert(ds1[k] == d0 + 1);
        }
    }
    assert forall|m: GameModel, n: nat, m2: GameModel|
        #[trigger] reach_n(init, m, n) && board_seen(checked1, m.board) && #[trigger] step(
            m,
            m2,
        ) implies board_seen(checked1, m2.board) || entry_at(q1, ds1, m2, n + 1 as int) by {
        if board_seen(checked0, m.board) {
            assert(board_seen(checked0, m2.board) || entry_at(q0, ds0, m2, n + 1 as int));
            if entry_at(q0, ds0, m2, n + 1 as int) {
                let k = choose|k: int|
                    0 <= k < q0.len() && (#[trigger] q0[k])@ == m2 && ds0[k] <= n + 1;
                if k == 0 {
                    assert(m2 == g);
                } else {
                    assert(q1[k - 1]@ == m2 && ds1[k - 1] <= n + 1);
                }
            }
        } else {
            let c = choose|c: int| 0 <= c < checked1.len() && (#[trigger] checked1[c])@ == m.board;
            if c < checked0.len() {
                assert(checked0[c]@ == m.board);
            }
            assert(m.board == g.board);
            assert(reachable(init, m) && reachable(init, g));
            lemma_reachable_preserves_wf(init, m);
            lemma_reachable_preserves_wf(init, g);
            lemma_reachable_preserves_frame(init, m);
            lemma_reachable_preserves_frame(init, g);
            lemma_board_determines_state(m, g);
            assert(n >= d0);
            let (pi, pdir, pst) = choose|pi: int, pdir: bool, pst: int|
                0 <= pi < m.pieces.len() && 1 <= pst && #[trigger] m.move_ok(pi, pdir, pst) && m2
                    == m.move_result(pi, pdir, pst);
            assert(frontier_has(q1, g.move_result(pi, pdir, pst)));
            let k = choose|k: int| 0 <= k < q1.len() && (#[trigger] q1[k])@ == m2;
            assert(ds1[k] <= d0 + 1 <= n + 1);
        }
    }
    if q1.len() > 0 {
        assert forall|m: GameModel, n: nat|
            #[trigger] reach_n(init, m, n) && n <= ds1[0] implies board_seen(checked1, m.board)
            || entry_at(q1, ds1, m, n as int) by {
            if n <= d0 {
                assert(board_seen(checked0, m.board) || entry_at(q0, ds0, m, n as int));
                if entry_at(q0, ds0, m, n as int) {
                    let k = choose|k: int|
                        0 <= k < q0.len() && (#[trigger] q0[k])@ == m && ds0[k] <= n;
                    if k == 0 {
                        assert(m == g);
                    } else {
                        assert(q1[k - 1]@ == m && ds1[k - 1] <= n);
                    }
                }
            } else {
                assert(n == d0 + 1);
                let mid = choose|mid: GameModel|
                    reach_n(init, mid, (n - 1) as nat) && #[trigger] step(mid, m);
                assert(reach_n(init, mid, d0));
                assert(board_seen(checked1, mid.board)) by {
                    assert(board_seen(checked0, mid.board) || entry_at(q0, ds0, mid, d0 as int));
                    if entry_at(q0, ds0, mid, d0 as int) {
                        let k = choose|k: int|
                            0 <= k < q0.len() && (#[trigger] q0[k])@ == mid && ds0[k] <= d0;
                        if k > 0 {
                            assert(ds1[0] == ds0[1] <= ds0[k]);
                            assert(false);
                        }
                        assert(mid == g);
                    }
                }
                assert(board_seen(checked1, m.board) || entry_at(q1, ds1, m, d0 + 1 as int));
            }
        }
    }
}

/// Breadth-first search for a solved state.  A `Some` result is a
/// well-formed state, reachable from `initial_game` by legal moves, in which
/// the prisoner can exit, and it lies at minimal depth: it is reachable in
/// at most as many transitions as any solved state.  An already-solved
/// input is returned unchanged.  `None` only when no reachable state is
/// solved (the frontier was exhausted) or more than `VISITED_CAP` distinct
/// reachable board layouts exist (the cap was hit); the latter makes `None`
/// a heuristic answer, not a proof of unsolvability.
#[verifier::loop_isolation(false)]
#[verifier::rlimit(100)]
pub fn solve(initial_game: &Game) -> (r: Option<Game>)
    requires
        initial_game@.wf(),
        initial_game@.pieces.len() >= 1,
    ensures
        match r {
            Some(g) => {
                &&& g@.wf()
                &&& g@.pieces.len() >= 1
                &&& g@.exit_clear()
                &&& reachable(initial_game@, g@)
                &&& g@.width == initial_game@.width
                &&& g@.height == initial_game@.height
                &&& g@.exit == initial_game@.exit
                &&& g@.pieces.len() == initial_game@.pieces.len()
                &&& g@.disabled == initial_game@.disabled
                &&& g@.reversed == initial_game@.reversed
                &&& forall|n: nat, m: GameModel|
                    #[trigger] reach_n(initial_game@, m, n) && m.exit_clear() ==> exists|k: nat|
                        k <= n && reach_n(initial_game@, g@, k)
            },
            None => !solvable(initial_game@) || !boards_within_cap(initial_game@),
        },
        initial_game@.exit_clear() ==> (r matches Some(g) && g@ == initial_game@),
{
    if initial_game.can_exit() {
        proof {
            lemma_reachable_refl(initial_game@);
            assert(reach_n(initial_game@, initial_game@, 0));
            assert forall|n: nat, m: GameModel|
                #[trigger] reach_n(initial_game@, m, n) && m.exit_clear() implies exists|k: nat|
                    k <= n && reach_n(initial_game@, initial_game@, k) by {
                assert(0 <= n && reach_n(initial_game@, initial_game@, 0));
            }
        }
        return Some(initial_game.clone());
    }
    let mut checked: Vec<Board> = Vec::new();
    let mut queue: VecDeque<Game> = VecDeque::new();
    let max_steps = if initial_game.width > initial_game.height {
        initial_game.width
    } else {
        initial_game.height
    };
    queue.push_back(initial_game.clone());
    let ghost mut ds: Seq<nat> = seq![0nat];
    proof {
        lemma_reachable_refl(initial_game@);
        assert(queue@[0]@ == initial_game@);
        assert(frontier_has(queue@, initial_game@));
        assert(reach_n(initial_game@, queue@[0]@, ds[0]));
    }
    while queue.len() != 0
        invariant
            checked@.len() <= VISITED_CAP + 1,
            forall|k: int|
                0 <= k < queue@.len() ==> (#[trigger] queue@[k])@.wf() && queue@[k]@.pieces.len()
                    >= 1 && reachable(initial_game@, queue@[k]@),
            checked_sound(initial_game@, checked@),
            checked_distinct(checked@),
            board_seen(checked@, initial_game@.board) || frontier_has(queue@, initial_game@),
            closed_under_step(initial_game@, checked@, queue@),
            ds.len() == queue@.len(),
            forall|k: int|
                0 <= k < queue@.len() ==> reach_n(
                    initial_game@,
                    (#[trigger] queue@[k])@,
                    ds[k],
                ),
            forall|k1: int, k2: int|
                0 <= k1 <= k2 < queue@.len() ==> (#[trigger] ds[k1]) <= (#[trigger] ds[k2]),
            forall|k: int| 0 <= k < queue@.len() ==> (#[trigger] ds[k]) <= ds[0] + 1,
            queue@.len() > 0 ==> forall|m: GameModel, n: nat|
                #[trigger] reach_n(initial_game@, m, n) && n <= ds[0] ==> board_seen(
                    checked@,
                    m.board,
                ) || entry_at(queue@, ds, m, n as int),
            forall|m: GameModel, n: nat, m2: GameModel|
                #[trigger] reach_n(initial_game@, m, n) && board_seen(checked@, m.board)
                    && #[trigger] step(m, m2) ==> board_seen(checked@, m2.board) || entry_at(
                    queue@,
                    ds,
                    m2,
                    n + 1 as int,
                ),
        decreases VISITED_CAP + 1 - checked@.len(), queue@.len(),
    {
        let ghost q0 = queue@;
        let ghost ds0 = ds;
        let ghost d0 = ds[0];
        let game = queue.pop_front().unwrap();
        proof {
            assert(q0[0] == game);
            ds = ds0.subrange(1, ds0.len() as int);
        }
        if checked.len() > VISITED_CAP {
            proof {
                lemma_many_boards(initial_game@, checked@);
            }
            return None;
        }
        if game.can_exit() {
            proof {
                lemma_reachable_preserves_frame(initial_game@, game@);
                assert(reach_n(initial_game@, game@, d0));
                assert forall|n: nat, m: GameModel|
                    #[trigger] reach_n(initial_game@, m, n) && m.exit_clear() implies exists|
                    k: nat|
                    k <= n && reach_n(initial_game@, game@, k) by {
                    if n < d0 {
                        assert(board_seen(checked@, m.board) || entry_at(q0, ds0, m, n as int));
                        if entry_at(q0, ds0, m, n as int) {
                            let k = choose|k: int|
                                0 <= k < q0.len() && (#[trigger] q0[k])@ == m && ds0[k] <= n;
                            assert(ds0[0] <= ds0[k]);
                            assert(false);
                        }
                        assert(reachable(initial_game@, m));
                        lemma_seen_not_solved(initial_game@, checked@, m);
                        assert(false);
                    }
                    assert(d0 <= n && reach_n(initial_game@, game@, d0));
                }
            }
            return Some(game);
        } else if !game_in(&game, &checked) {
            let ghost checked0 = checked@;
            checked.push(game.board.clone());
            proof {
                assert(checked@[checked@.len() - 1]@ == game@.board);
                assert(board_seen(checked@, game@.board));
                assert forall|b: Seq<Seq<i8>>| board_seen(checked0, b) implies board_seen(
                    checked@,
                    b,
                ) by {
                    let c = choose|c: int| 0 <= c < checked0.len() && (#[trigger] checked0[c])@ == b;
                    assert(checked@[c]@ == b);
                }
                if frontier_has(q0, initial_game@) {
                    let k = choose|k: int| 0 <= k < q0.len() && (#[trigger] q0[k])@ == initial_game@;
                    if k == 0 {
                        assert(game@ == initial_game@);
                        assert(board_seen(checked@, initial_game@.board));
                    } else {
                        assert(queue@[k - 1]@ == initial_game@);
                        assert(frontier_has(queue@, initial_game@));
                    }
                }
                lemma_reachable_preserves_frame(initial_game@, game@);
            }
            let ghost qmid = queue@;
            queue = enqueue_successors(queue, &game, max_steps, Ghost(initial_game@));
            proof {
                ds = ds0.subrange(1, ds0.len() as int).add(
                    Seq::new((queue@.len() - qmid.len()) as nat, |t: int| (d0 + 1) as nat),
                );
                lemma_depths_after_expand(
                    initial_game@,
                    checked0,
                    checked@,
                    q0,
                    ds0,
                    qmid,
                    queue@,
                    ds,
                    game@,
                );
                if frontier_has(qmid, initial_game@) {
                    assert(frontier_has(queue@, initial_game@));
                }
                assert forall|m: GameModel, m2: GameModel|
                    reachable(initial_game@, m) && board_seen(checked@, #[trigger] m.board)
                        && #[trigger] step(m, m2) implies board_seen(checked@, m2.board)
                    || frontier_has(queue@, m2) by {
                    if board_seen(checked0, m.board) {
                        assert(board_seen(checked0, m2.board) || frontier_has(q0, m2));
                        if !board_seen(checked0, m2.board) {
                            let k = choose|k: int| 0 <= k < q0.len() && (#[trigger] q0[k])@ == m2;
                            if k == 0 {
                                assert(m2 == game@);
                                assert(board_seen(checked@, m2.board));
                            } else {
                                assert(qmid[k - 1]@ == m2);
                                assert(frontier_has(qmid, m2));
                                assert(frontier_has(queue@, m2));
                            }
                        }
                    } else {
                        let c = choose|c: int|
                            0 <= c < checked@.len() && (#[trigger] checked@[c])@ == m.board;
                        if c < checked0.len() {
                            assert(checked0[c]@ == m.board);
                        }
                        assert(m.board == game@.board);
                        lemma_reachable_preserves_wf(initial_game@, m);
                        lemma_reachable_preserves_wf(initial_game@, game@);
                        lemma_reachable_preserves_frame(initial_game@, m);
                        lemma_board_determines_state(m, game@);
                        let (pi, pdir, pst) = choose|pi: int, pdir: bool, pst: int|
                            0 <= pi < m.pieces.len() && 1 <= pst && #[trigger] m.move_ok(
                                pi,
                                pdir,
                                pst,
                            ) && m2 == m.move_result(pi, pdir, pst);
                        assert(frontier_has(queue@, game@.move_result(pi, pdir, pst)));
                    }
                }
            }
        } else {
            proof {
                assert(board_seen(checked@, game@.board));
                lemma_depths_after_skip(initial_game@, checked@, q0, ds0, queue@, ds, game@);
                assert forall|m: GameModel, m2: GameModel|
                    reachable(initial_game@, m) && board_seen(checked@, #[trigger] m.board)
                        && #[trigger] step(m, m2) implies board_seen(checked@, m2.board)
                    || frontier_has(queue@, m2) by {
                    assert(board_seen(checked@, m2.board) || frontier_has(q0, m2));
                    if frontier_has(q0, m2) {
                        let k = choose|k: int| 0 <= k < q0.len() && (#[trigger] q0[k])@ == m2;
                        if k == 0 {
                            assert(m2 == game@);
                        } else {
                            assert(queue@[k - 1]@ == m2);
                        }
                    }
                }
                if frontier_has(q0, initial_game@) && !frontier_has(queue@, initial_game@) {
                    let k = choose|k: int| 0 <= k < q0.len() && (#[trigger] q0[k])@ == initial_game@;
                    if k == 0 {
                        assert(board_seen(checked@, initial_game@.board));
                    } else {
                        assert(queue@[k - 1]@ == initial_game@);
                    }
                }
            }
        }
    }
    proof {
        assert(board_seen(checked@, initial_game@.board));
        assert(closed_under_step(initial_game@, checked@, Seq::<Game>::empty())) by {
            assert forall|m: GameModel, m2: GameModel|
                reachable(initial_game@, m) && board_seen(checked@, #[trigger] m.board)
                    && #[trigger] step(m, m2) implies board_seen(checked@, m2.board)
                || frontier_has(Seq::<Game>::empty(), m2) by {
                assert(board_seen(checked@, m2.board) || frontier_has(queue@, m2));
            }
        }
        lemma_exhausted_unsolvable(initial_game@, checked@);
    }
    None
}

/// The arena is consistent: every explored state is well formed and
/// reachable from the initial state, the root holds the initial state, and
/// every other node's state arises from its parent's by one legal move.
pub open spec fn nodes_ok(nodes: Seq<Node>, init: GameModel) -> bool {
    forall|n: int|
        0 <= n < nodes.len() ==> (#[trigger] nodes[n]).game@.wf() && nodes[n].game@.pieces.len()
            >= 1 && reachable(init, nodes[n].game@) && (match nodes[n].last {
            Option::None => nodes[n].game@ == init,
            Option::Some(p) => p < n && step(nodes[p as int].game@, nodes[n].game@),
        })
}

/// The number of transitions recorded for an arena state: the length of its
/// parent chain.
pub open spec fn node_depth(nodes: Seq<Node>, n: int) -> nat
    decreases n,
{
    if 0 <= n < nodes.len() {
        match nodes[n].last {
            Option::None => 0,
            Option::Some(p) => if p < n {
                node_depth(nodes, p as int) + 1
            } else {
                0
            },
        }
    } else {
        0
    }
}

/// A node's recorded depth depends only on the arena prefix up to it.
proof fn lemma_node_depth_stable(nodes0: Seq<Node>, nodes1: Seq<Node>, n: int)
    requires
        nodes1.len() >= nodes0.len(),
        forall|k: int| 0 <= k < nodes0.len() ==> #[trigger] nodes1[k] == nodes0[k],
        0 <= n < nodes0.len(),
    ensures
        node_depth(nodes1, n) == node_depth(nodes0, n),
    decreases n,
{
    assert(nodes1[n] == nodes0[n]);
    match nodes0[n].last {
        Option::None => {},
        Option::Some(p) => {
            if p < n {
                lemma_node_depth_stable(nodes0, nodes1, p as int);
            }
        },
    }
}

/// The frontier holds a handle, at recorded depth at most `bound`, to an
/// arena state with value `m`.
spec fn entry_at_idx(nodes: Seq<Node>, q: Seq<usize>, m: GameModel, bound: int) -> bool {
    exists|k: int|
        0 <= k < q.len() && (#[trigger] q[k]) < nodes.len() && nodes[q[k] as int].game@ == m
            && node_depth(nodes, q[k] as int) <= bound
}

/// The frontier holds a handle to an arena state with value `m`.
spec fn idx_frontier_has(nodes: Seq<Node>, q: Seq<usize>, m: GameModel) -> bool {
    exists|k: int|
        0 <= k < q.len() && (#[trigger] q[k]) < nodes.len() && nodes[q[k] as int].game@ == m
}

/// Every legal move out of a reachable state whose board was visited leads
/// to a state whose board was visited or which waits on the frontier.
spec fn closed_under_step_idx(
    init: GameModel,
    checked: Seq<Board>,
    nodes: Seq<Node>,
    q: Seq<usize>,
) -> bool {
    forall|m: GameModel, m2: GameModel|
        reachable(init, m) && board_seen(checked, #[trigger] m.board) && #[trigger] step(m, m2)
            ==> board_seen(checked, m2.board) || idx_frontier_has(nodes, q, m2)
}

/// Two successive frontier extensions compose: all entries beyond the
/// original frontier are handles to fresh children of the same parent.
proof fn lemma_children_chain(
    bn: Seq<Node>,
    mn: Seq<Node>,
    en: Seq<Node>,
    bq: Seq<usize>,
    mq: Seq<usize>,
    eq: Seq<usize>,
    idx: usize,
    g: GameModel,
)
    requires
        bn.len() <= mn.len() <= en.len(),
        forall|k: int| 0 <= k < mn.len() ==> #[trigger] en[k] == mn[k],
        mq.len() >= bq.len(),
        forall|k: int| 0 <= k < bq.len() ==> #[trigger] mq[k] == bq[k],
        forall|k: int|
            bq.len() <= k < mq.len() ==> bn.len() <= (#[trigger] mq[k]) && (mq[k] as int)
                < mn.len() && mn[mq[k] as int].last == Option::<usize>::Some(idx) && step(
                g,
                mn[mq[k] as int].game@,
            ),
        eq.len() >= mq.len(),
        forall|k: int| 0 <= k < mq.len() ==> #[trigger] eq[k] == mq[k],
        forall|k: int|
            mq.len() <= k < eq.len() ==> mn.len() <= (#[trigger] eq[k]) && (eq[k] as int)
                < en.len() && en[eq[k] as int].last == Option::<usize>::Some(idx) && step(
                g,
                en[eq[k] as int].game@,
            ),
    ensures
        eq.len() >= bq.len(),
        forall|k: int| 0 <= k < bq.len() ==> #[trigger] eq[k] == bq[k],
        forall|k: int|
            bq.len() <= k < eq.len() ==> bn.len() <= (#[trigger] eq[k]) && (eq[k] as int)
                < en.len() && en[eq[k] as int].last == Option::<usize>::Some(idx) && step(
                g,
                en[eq[k] as int].game@,
            ),
{
    assert forall|k: int|
        bq.len() <= k < eq.len() implies bn.len() <= (#[trigger] eq[k]) && (eq[k] as int)
        < en.len() && en[eq[k] as int].last == Option::<usize>::Some(idx) && step(
        g,
        en[eq[k] as int].game@,
    ) by {
        if k < mq.len() {
            assert(eq[k] == mq[k]);
            assert(en[mq[k] as int] == mn[mq[k] as int]);
        }
    }
}

/// Returns the arena and frontier extended with the state at `idx` moved by
/// every legal `(piece, direction, steps)` combination, each new node linked
/// back to `idx`.
#[verifier::loop_isolation(false)]
#[verifier::rlimit(100)]
fn expand(
    nodes: Vec<Node>,
    queue: VecDeque<usize>,
    idx: usize,
    max_steps: usize,
    Ghost(init): Ghost<GameModel>,
) -> (r: (Vec<Node>, VecDeque<usize>))
    requires
        idx < nodes@.len(),
        max_steps <= 127,
        nodes@[idx as int].game@.width <= max_steps,
        nodes@[idx as int].game@.height <= max_steps,
        nodes_ok(nodes@, init),
        forall|q: int| 0 <= q < queue@.len() ==> (#[trigger] queue@[q]) < nodes@.len(),
    ensures
        r.0@.len() >= nodes@.len(),
        forall|n: int| 0 <= n < nodes@.len() ==> #[trigger] r.0@[n] == nodes@[n],
        nodes_ok(r.0@, init),
        forall|q: int| 0 <= q < r.1@.len() ==> (#[trigger] r.1@[q]) < r.0@.len(),
        forall|m: GameModel|
            #[trigger] idx_frontier_has(nodes@, queue@, m) ==> idx_frontier_has(r.0@, r.1@, m),
        forall|pi: int, dir: bool, st: int|
            0 <= pi < nodes@[idx as int].game@.pieces.len() && 1 <= st
                && #[trigger] nodes@[idx as int].game@.move_ok(pi, dir, st) ==> idx_frontier_has(
                r.0@,
                r.1@,
                nodes@[idx as int].game@.move_result(pi, dir, st),
            ),
        r.1@.len() >= queue@.len(),
        forall|k: int| 0 <= k < queue@.len() ==> #[trigger] r.1@[k] == queue@[k],
        forall|k: int|
            queue@.len() <= k < r.1@.len() ==> nodes@.len() <= (#[trigger] r.1@[k]) && (
            r.1@[k] as int) < r.0@.len() && r.0@[r.1@[k] as int].last == Option::<usize>::Some(idx)
                && step(nodes@[idx as int].game@, r.0@[r.1@[k] as int].game@),
{
    let ghost nodes0 = nodes@;
    let ghost queue0 = queue@;
    let game = nodes[idx].game.clone();
    let mut nd = nodes;
    let mut q = queue;
    let mut i: usize = 0;
    while i < game.pieces.len()
        invariant
            i <= game@.pieces.len(),
            idx < nd@.len(),
            nd@.len() >= nodes0.len(),
            game@ == nodes0[idx as int].game@,
            forall|n: int| 0 <= n < nodes0.len() ==> #[trigger] nd@[n] == nodes0[n],
            nodes_ok(nd@, init),
            forall|qk: int| 0 <= qk < q@.len() ==> (#[trigger] q@[qk]) < nd@.len(),
            forall|m: GameModel|
                #[trigger] idx_frontier_has(nodes0, queue0, m) ==> idx_frontier_has(nd@, q@, m),
            forall|pi: int, dir: bool, st: int|
                0 <= pi < i && 1 <= st && #[trigger] game@.move_ok(pi, dir, st)
                    ==> idx_frontier_has(nd@, q@, game@.move_result(pi, dir, st)),
            q@.len() >= queue0.len(),
            forall|k: int| 0 <= k < queue0.len() ==> #[trigger] q@[k] == queue0[k],
            forall|k: int|
                queue0.len() <= k < q@.len() ==> nodes0.len() <= (#[trigger] q@[k]) && (
                q@[k] as int) < nd@.len() && nd@[q@[k] as int].last == Option::<usize>::Some(idx)
                    && step(game@, nd@[q@[k] as int].game@),
        decreases game@.pieces.len() - i,
    {
        let ghost nprev = nd@;
        let ghost qprev = q@;
        let rr = expand_direction(nd, q, idx, &game, i, true, max_steps, Ghost(init));
        nd = rr.0;
        q = rr.1;
        proof {
            lemma_children_chain(nodes0, nprev, nd@, queue0, qprev, q@, idx, game@);
        }
        let ghost nprev = nd@;
        let ghost qprev = q@;
        let rr = expand_direction(nd, q, idx, &game, i, false, max_steps, Ghost(init));
        nd = rr.0;
        q = rr.1;
        proof {
            lemma_children_chain(nodes0, nprev, nd@, queue0, qprev, q@, idx, game@);
        }
        i += 1;
    }
    (nd, q)
}

/// Returns the arena and frontier extended with the state at `idx` whose
/// piece `i` has moved by every legal distance in direction `dir`.
#[verifier::loop_isolation(false)]
#[verifier::rlimit(100)]
fn expand_direction(
    nodes: Vec<Node>,
    queue: VecDeque<usize>,
    idx: usize,
    game: &Game,
    i: usize,
    dir: bool,
    max_steps: usize,
    Ghost(init): Ghost<GameModel>,
) -> (r: (Vec<Node>, VecDeque<usize>))
    requires
        idx < nodes@.len(),
        game@ == nodes@[idx as int].game@,
        i < game@.pieces.len(),
        max_steps <= 127,
        game@.width <= max_steps,
        game@.height <= max_steps,
        nodes_ok(nodes@, init),
        forall|q: int| 0 <= q < queue@.len() ==> (#[trigger] queue@[q]) < nodes@.len(),
    ensures
        r.0@.len() >= nodes@.len(),
        forall|n: int| 0 <= n < nodes@.len() ==> #[trigger] r.0@[n] == nodes@[n],
        nodes_ok(r.0@, init),
        forall|q: int| 0 <= q < r.1@.len() ==> (#[trigger] r.1@[q]) < r.0@.len(),
        forall|m: GameModel|
            #[trigger] idx_frontier_has(nodes@, queue@, m) ==> idx_frontier_has(r.0@, r.1@, m),
        forall|st: int|
            1 <= st && #[trigger] game@.move_ok(i as int, dir, st) ==> idx_frontier_has(
                r.0@,
                r.1@,
                game@.move_result(i as int, dir, st),
            ),
        r.1@.len() >= queue@.len(),
        forall|k: int| 0 <= k < queue@.len() ==> #[trigger] r.1@[k] == queue@[k],
        forall|k: int|
            queue@.len() <= k < r.1@.len() ==> nodes@.len() <= (#[trigger] r.1@[k]) && (
            r.1@[k] as int) < r.0@.len() && r.0@[r.1@[k] as int].last == Option::<usize>::Some(idx)
                && step(game@, r.0@[r.1@[k] as int].game@),
{
    let ghost nodes0 = nodes@;
    let ghost queue0 = queue@;
    let mut nd = nodes;
    let mut q = queue;
    let mut j: usize = 1;
    let mut blocked = false;
    while !blocked && j < max_steps
        invariant
            1 <= j <= max_steps,
            idx < nd@.len(),
            nd@.len() >= nodes0.len(),
            forall|n: int| 0 <= n < nodes0.len() ==> #[trigger] nd@[n] == nodes0[n],
            nodes_ok(nd@, init),
            forall|qk: int| 0 <= qk < q@.len() ==> (#[trigger] q@[qk]) < nd@.len(),
            forall|m: GameModel|
                #[trigger] idx_frontier_has(nodes0, queue0, m) ==> idx_frontier_has(nd@, q@, m),
            !blocked ==> forall|st: int|
                1 <= st < j ==> #[trigger] game@.move_ok(i as int, dir, st) && idx_frontier_has(
                    nd@,
                    q@,
                    game@.move_result(i as int, dir, st),
                ),
            blocked ==> forall|st: int|
                1 <= st && #[trigger] game@.move_ok(i as int, dir, st) ==> idx_frontier_has(
                    nd@,
                    q@,
                    game@.move_result(i as int, dir, st),
                ),
            q@.len() >= queue0.len(),
            forall|k: int| 0 <= k < queue0.len() ==> #[trigger] q@[k] == queue0[k],
            forall|k: int|
                queue0.len() <= k < q@.len() ==> nodes0.len() <= (#[trigger] q@[k]) && (
                q@[k] as int) < nd@.len() && nd@[q@[k] as int].last == Option::<usize>::Some(idx)
                    && step(game@, nd@[q@[k] as int].game@),
        decreases max_steps - j, 1int - (if blocked { 1int } else { 0int }),
    {
        let ghost nd0 = nd@;
        let ghost q0 = q@;
        let ghost j0 = j;
        let mut pos_game = game.clone();
        if pos_game.move_piece(i as i8, dir, j as u8) {
            let ghost newm = pos_game@;
            proof {
                assert(game@.move_ok(i as int, dir, j as int));
                assert(newm == game@.move_result(i as int, dir, j0 as int));
                assert(step(nd@[idx as int].game@, pos_game@));
                lemma_reachable_step(init, nd@[idx as int].game@, pos_game@);
            }
            nd.push(Node { game: pos_game, last: Some(idx) });
            let fresh = nd.len() - 1;
            q.push_back(fresh);
            j += 1;
            proof {
                assert(nd@[fresh as int].game@ == newm);
                assert(nd@[fresh as int].last == Option::<usize>::Some(idx));
                assert forall|n: int|
                    0 <= n < nd@.len() implies (#[trigger] nd@[n]).game@.wf()
                    && nd@[n].game@.pieces.len() >= 1 && reachable(init, nd@[n].game@) && (
                match nd@[n].last {
                    Option::None => nd@[n].game@ == init,
                    Option::Some(p) => p < n && step(nd@[p as int].game@, nd@[n].game@),
                }) by {
                    if n < nd0.len() {
                        assert(nd@[n] == nd0[n]);
                    }
                }
                assert forall|m: GameModel|
                    #[trigger] idx_frontier_has(nodes0, queue0, m) implies idx_frontier_has(
                    nd@,
                    q@,
                    m,
                ) by {
                    if idx_frontier_has(nd0, q0, m) {
                        let k = choose|k: int|
                            0 <= k < q0.len() && (#[trigger] q0[k]) < nd0.len() && nd0[q0[k] as int].game@
                                == m;
                        assert(q@[k] == q0[k]);
                        assert(nd@[q0[k] as int] == nd0[q0[k] as int]);
                    }
                }
                assert(q@[q@.len() - 1] == fresh);
                assert(idx_frontier_has(nd@, q@, newm));
                assert forall|st: int| 1 <= st < j implies #[trigger] game@.move_ok(
                    i as int,
                    dir,
                    st,
                ) && idx_frontier_has(nd@, q@, game@.move_result(i as int, dir, st)) by {
                    if st < j0 {
                        assert(game@.move_ok(i as int, dir, st));
                        assert(idx_frontier_has(nd0, q0, game@.move_result(i as int, dir, st)));
                        let k = choose|k: int|
                            0 <= k < q0.len() && (#[trigger] q0[k]) < nd0.len() && nd0[q0[k] as int].game@
                                == game@.move_result(i as int, dir, st);
                        assert(q@[k] == q0[k]);
                        assert(nd@[q0[k] as int] == nd0[q0[k] as int]);
                    } else {
                        assert(st == j0);
                        assert(newm == game@.move_result(i as int, dir, st));
                    }
                }
            }
        } else {
            proof {
                assert forall|st: int|
                    1 <= st && #[trigger] game@.move_ok(i as int, dir, st) implies idx_frontier_has(
                    nd@,
                    q@,
                    game@.move_result(i as int, dir, st),
                ) by {
                    if st >= j {
                        crate::game::lemma_blocked_stays_blocked(
                            game@,
                            i as int,
                            dir,
                            j as int,
                            st,
                        );
                    }
                }
            }
            blocked = true;
        }
    }
    proof {
        if !blocked {
            assert forall|st: int|
                1 <= st && #[trigger] game@.move_ok(i as int, dir, st) implies idx_frontier_has(
                nd@,
                q@,
                game@.move_result(i as int, dir, st),
            ) by {
                lemma_move_ok_steps_bound(game@, i as int, dir, st);
            }
        }
    }
    (nd, q)
}

/// The same states in the opposite order.
fn reverse_games(rev: Vec<Game>) -> (path: Vec<Game>)
    ensures
        path@.len() == rev@.len(),
        forall|t: int| 0 <= t < path@.len() ==> #[trigger] path@[t] == rev@[rev@.len() - 1 - t],
{
    let ghost rev0 = rev@;
    let mut rev = rev;
    let mut path: Vec<Game> = Vec::new();
    while rev.len() > 0
        invariant
            rev@.len() <= rev0.len(),
            path@.len() + rev@.len() == rev0.len(),
            forall|t: int| 0 <= t < rev@.len() ==> #[trigger] rev@[t] == rev0[t],
            forall|t: int|
                0 <= t < path@.len() ==> #[trigger] path@[t] == rev0[rev0.len() - 1 - t],
        decreases rev@.len(),
    {
        let g = rev.pop().unwrap();
        path.push(g);
    }
    path
}

/// Dropping a frontier head whose board was already visited keeps the
/// depth-indexed coverage over the arena.
#[verifier::rlimit(100)]
proof fn lemma_idx_depths_after_skip(
    init: GameModel,
    checked: Seq<Board>,
    nodes: Seq<Node>,
    q0: Seq<usize>,
    q1: Seq<usize>,
    g: GameModel,
)
    requires
        q0.len() >= 1,
        q1 == q0.subrange(1, q0.len() as int),
        q0[0] < nodes.len(),
        nodes[q0[0] as int].game@ == g,
        board_seen(checked, g.board),
        forall|k: int| 0 <= k < q0.len() ==> (#[trigger] q0[k]) < nodes.len(),
        forall|k: int|
            0 <= k < q0.len() ==> reach_n(
                init,
                nodes[(#[trigger] q0[k]) as int].game@,
                node_depth(nodes, q0[k] as int),
            ),
        forall|k1: int, k2: int|
            0 <= k1 <= k2 < q0.len() ==> node_depth(nodes, (#[trigger] q0[k1]) as int)
                <= node_depth(nodes, (#[trigger] q0[k2]) as int),
        forall|k: int|
            0 <= k < q0.len() ==> node_depth(nodes, (#[trigger] q0[k]) as int) <= node_depth(
                nodes,
                q0[0] as int,
            ) + 1,
        forall|m: GameModel, n: nat|
            #[trigger] reach_n(init, m, n) && n <= node_depth(nodes, q0[0] as int) ==> board_seen(
                checked,
                m.board,
            ) || entry_at_idx(nodes, q0, m, n as int),
        forall|m: GameModel, n: nat, m2: GameModel|
            #[trigger] reach_n(init, m, n) && board_seen(checked, m.board) && #[trigger] step(
                m,
                m2,
            ) ==> board_seen(checked, m2.board) || entry_at_idx(nodes, q0, m2, n + 1 as int),
    ensures
        forall|k: int|
            0 <= k < q1.len() ==> reach_n(
                init,
                nodes[(#[trigger] q1[k]) as int].game@,
                node_depth(nodes, q1[k] as int),
            ),
        forall|k1: int, k2: int|
            0 <= k1 <= k2 < q1.len() ==> node_depth(nodes, (#[trigger] q1[k1]) as int)
                <= node_depth(nodes, (#[trigger] q1[k2]) as int),
        forall|k: int|
            0 <= k < q1.len() ==> node_depth(nodes, (#[trigger] q1[k]) as int) <= node_depth(
                nodes,
                q1[0] as int,
            ) + 1,
        forall|m: GameModel, n: nat, m2: GameModel|
            #[trigger] reach_n(init, m, n) && board_seen(checked, m.board) && #[trigger] step(
                m,
                m2,
            ) ==> board_seen(checked, m2.board) || entry_at_idx(nodes, q1, m2, n + 1 as int),
        q1.len() > 0 ==> forall|m: GameModel, n: nat|
            #[trigger] reach_n(init, m, n) && n <= node_depth(nodes, q1[0] as int) ==> board_seen(
                checked,
                m.board,
            ) || entry_at_idx(nodes, q1, m, n as int),
{
    let d0 = node_depth(nodes, q0[0] as int);
    assert forall|m: GameModel, n: nat, m2: GameModel|
        #[trigger] reach_n(init, m, n) && board_seen(checked, m.board) && #[trigger] step(
            m,
            m2,
        ) implies board_seen(checked, m2.board) || entry_at_idx(nodes, q1, m2, n + 1 as int) by {
        assert(board_seen(checked, m2.board) || entry_at_idx(nodes, q0, m2, n + 1 as int));
        if entry_at_idx(nodes, q0, m2, n + 1 as int) {
            let k = choose|k: int|
                0 <= k < q0.len() && (#[trigger] q0[k]) < nodes.len() && nodes[q0[k] as int].game@
                    == m2 && node_depth(nodes, q0[k] as int) <= n + 1;
            if k == 0 {
                assert(m2 == g);
            } else {
                assert(q1[k - 1] == q0[k]);
            }
        }
    }
    if q1.len() > 0 {
        assert forall|m: GameModel, n: nat|
            #[trigger] reach_n(init, m, n) && n <= node_depth(nodes, q1[0] as int) implies
            board_seen(checked, m.board) || entry_at_idx(nodes, q1, m, n as int) by {
            if n <= d0 {
                assert(board_seen(checked, m.board) || entry_at_idx(nodes, q0, m, n as int));
                if entry_at_idx(nodes, q0, m, n as int) {
                    let k = choose|k: int|
                        0 <= k < q0.len() && (#[trigger] q0[k]) < nodes.len()
                            && nodes[q0[k] as int].game@ == m && node_depth(nodes, q0[k] as int)
                            <= n;
                    if k == 0 {
                        assert(m == g);
                    } else {
                        assert(q1[k - 1] == q0[k]);
                    }
                }
            } else {
                assert(q1[0] == q0[1]);
                assert(node_depth(nodes, q1[0] as int) <= d0 + 1);
                assert(n == d0 + 1);
                let mid = choose|mid: GameModel|
                    reach_n(init, mid, (n - 1) as nat) && #[trigger] step(mid, m);
                assert(reach_n(init, mid, d0));
                assert(board_seen(checked, mid.board)) by {
                    assert(board_seen(checked, mid.board) || entry_at_idx(
                        nodes,
                        q0,
                        mid,
                        d0 as int,
                    ));
                    if entry_at_idx(nodes, q0, mid, d0 as int) {
                        let k = choose|k: int|
                            0 <= k < q0.len() && (#[trigger] q0[k]) < nodes.len()
                                && nodes[q0[k] as int].game@ == mid && node_depth(
                                nodes,
                                q0[k] as int,
                            ) <= d0;
                        if k > 0 {
                            assert(node_depth(nodes, q0[1] as int) <= node_depth(
                                nodes,
                                q0[k] as int,
                            ));
                            assert(false);
                        }
                        assert(mid == g);
                    }
                }
                assert(board_seen(checked, m.board) || entry_at_idx(nodes, q1, m, d0 + 1 as int));
            }
        }
    }
}

/// Expanding a frontier head keeps the depth-indexed coverage over the
/// arena: the head's board joins the visited list at its minimal depth and
/// its fresh children wait at the next depth.
#[verifier::rlimit(100)]
proof fn lemma_idx_depths_after_expand(
    init: GameModel,
    checked0: Seq<Board>,
    checked1: Seq<Board>,
    nodes0: Seq<Node>,
    nodes1: Seq<Node>,
    q0: Seq<usize>,
    qmid: Seq<usize>,
    q1: Seq<usize>,
    idx: usize,
    g: GameModel,
)
    requires
        init.wf(),
        q0.len() >= 1,
        q0[0] == idx,
        qmid == q0.subrange(1, q0.len() as int),
        idx < nodes0.len(),
        nodes0[idx as int].game@ == g,
        !board_seen(checked0, g.board),
        checked1.len() == checked0.len() + 1,
        forall|c: int| 0 <= c < checked0.len() ==> #[trigger] checked1[c] == checked0[c],
        checked1[checked1.len() - 1]@ == g.board,
        forall|k: int| 0 <= k < q0.len() ==> (#[trigger] q0[k]) < nodes0.len(),
        forall|k: int|
            0 <= k < q0.len() ==> reach_n(
                init,
                nodes0[(#[trigger] q0[k]) as int].game@,
                node_depth(nodes0, q0[k] as int),
            ),
        forall|k1: int, k2: int|
            0 <= k1 <= k2 < q0.len() ==> node_depth(nodes0, (#[trigger] q0[k1]) as int)
                <= node_depth(nodes0, (#[trigger] q0[k2]) as int),
        forall|k: int|
            0 <= k < q0.len() ==> node_depth(nodes0, (#[trigger] q0[k]) as int) <= node_depth(
                nodes0,
                q0[0] as int,
            ) + 1,
        forall|m: GameModel, n: nat|
            #[trigger] reach_n(init, m, n) && n <= node_depth(nodes0, q0[0] as int)
                ==> board_seen(checked0, m.board) || entry_at_idx(nodes0, q0, m, n as int),
        forall|m: GameModel, n: nat, m2: GameModel|
            #[trigger] reach_n(init, m, n) && board_seen(checked0, m.board) && #[trigger] step(
                m,
                m2,
            ) ==> board_seen(checked0, m2.board) || entry_at_idx(nodes0, q0, m2, n + 1 as int),
        nodes1.len() >= nodes0.len(),
        forall|n: int| 0 <= n < nodes0.len() ==> #[trigger] nodes1[n] == nodes0[n],
        q1.len() >= qmid.len(),
        forall|k: int| 0 <= k < qmid.len() ==> #[trigger] q1[k] == qmid[k],
        forall|k: int|
            qmid.len() <= k < q1.len() ==> nodes0.len() <= (#[trigger] q1[k]) && (q1[k] as int)
                < nodes1.len() && nodes1[q1[k] as int].last == Option::<usize>::Some(idx) && step(
                g,
                nodes1[q1[k] as int].game@,
            ),
        forall|pi: int, dir: bool, st: int|
            0 <= pi < g.pieces.len() && 1 <= st && #[trigger] g.move_ok(pi, dir, st)
                ==> idx_frontier_has(nodes1, q1, g.move_result(pi, dir, st)),
    ensures
        forall|k: int| 0 <= k < q1.len() ==> (#[trigger] q1[k]) < nodes1.len(),
        forall|k: int|
            0 <= k < q1.len() ==> reach_n(
                init,
                nodes1[(#[trigger] q1[k]) as int].game@,
                node_depth(nodes1, q1[k] as int),
            ),
        forall|k1: int, k2: int|
            0 <= k1 <= k2 < q1.len() ==> node_depth(nodes1, (#[trigger] q1[k1]) as int)
                <= node_depth(nodes1, (#[trigger] q1[k2]) as int),
        forall|k: int|
            0 <= k < q1.len() ==> node_depth(nodes1, (#[trigger] q1[k]) as int) <= node_depth(
                nodes1,
                q1[0] as int,
            ) + 1,
        forall|m: GameModel, n: nat, m2: GameModel|
            #[trigger] reach_n(init, m, n) && board_seen(checked1, m.board) && #[trigger] step(
                m,
                m2,
            ) ==> board_seen(checked1, m2.board) || entry_at_idx(nodes1, q1, m2, n + 1 as int),
        q1.len() > 0 ==> forall|m: GameModel, n: nat|
            #[trigger] reach_n(init, m, n) && n <= node_depth(nodes1, q1[0] as int)
                ==> board_seen(checked1, m.board) || entry_at_idx(nodes1, q1, m, n as int),
{
    let d0 = node_depth(nodes0, q0[0] as int);
    assert(board_seen(checked1, g.board));
    assert forall|b: Seq<Seq<i8>>| board_seen(checked0, b) implies board_seen(checked1, b) by {
        let c = choose|c: int| 0 <= c < checked0.len() && (#[trigger] checked0[c])@ == b;
        assert(checked1[c]@ == b);
    }
    assert forall|k: int| 0 <= k < q0.len() implies node_depth(nodes1, (#[trigger] q0[k]) as int)
        == node_depth(nodes0, q0[k] as int) by {
        lemma_node_depth_stable(nodes0, nodes1, q0[k] as int);
    }
    assert(node_depth(nodes1, idx as int) == d0);
    assert forall|k: int|
        qmid.len() <= k < q1.len() implies node_depth(nodes1, (#[trigger] q1[k]) as int) == d0
        + 1 by {
        assert(nodes1[q1[k] as int].last == Option::<usize>::Some(idx));
        assert(idx < q1[k]);
        assert(node_depth(nodes1, q1[k] as int) == node_depth(nodes1, idx as int) + 1);
    }
    assert(reach_n(init, g, d0));
    assert forall|n: nat| #[trigger] reach_n(init, g, n) implies n >= d0 by {
        if n < d0 {
            assert(board_seen(checked0, g.board) || entry_at_idx(nodes0, q0, g, n as int));
            if entry_at_idx(nodes0, q0, g, n as int) {
                let k = choose|k: int|
                    0 <= k < q0.len() && (#[trigger] q0[k]) < nodes0.len()
                        && nodes0[q0[k] as int].game@ == g && node_depth(nodes0, q0[k] as int)
                        <= n;
                assert(node_depth(nodes0, q0[0] as int) <= node_depth(nodes0, q0[k] as int));
                assert(false);
            }
            assert(false);
        }
    }
    assert forall|k: int|
        0 <= k < q1.len() implies (#[trigger] q1[k]) < nodes1.len() && reach_n(
        init,
        nodes1[q1[k] as int].game@,
        node_depth(nodes1, q1[k] as int),
    ) && node_depth(nodes1, q1[k] as int) <= d0 + 1 by {
        if k < qmid.len() {
            assert(q1[k] == q0[k + 1]);
            assert(nodes1[q1[k] as int] == nodes0[q1[k] as int]);
            assert(node_depth(nodes1, q1[k] as int) == node_depth(nodes0, q0[k + 1] as int));
        } else {
            assert(step(g, nodes1[q1[k] as int].game@));
            lemma_reach_n_step(init, g, nodes1[q1[k] as int].game@, d0);
        }
    }
    assert forall|k1: int, k2: int|
        0 <= k1 <= k2 < q1.len() implies node_depth(nodes1, (#[trigger] q1[k1]) as int)
        <= node_depth(nodes1, (#[trigger] q1[k2]) as int) by {
        if k2 < qmid.len() {
            assert(node_depth(nodes1, q1[k1] as int) == node_depth(nodes0, q0[k1 + 1] as int));
            assert(node_depth(nodes1, q1[k2] as int) == node_depth(nodes0, q0[k2 + 1] as int));
        } else if k1 < qmid.len() {
            assert(node_depth(nodes1, q1[k1] as int) == node_depth(nodes0, q0[k1 + 1] as int)
                <= d0 + 1);
        }
    }
    assert forall|k: int|
        0 <= k < q1.len() implies node_depth(nodes1, (#[trigger] q1[k]) as int) <= node_depth(
        nodes1,
        q1[0] as int,
    ) + 1 by {
        assert(node_depth(nodes1, q1[0] as int) >= d0);
    }
    assert forall|m: GameModel, n: nat, m2: GameModel|
        #[trigger] reach_n(init, m, n) && board_seen(checked1, m.board) && #[trigger] step(
            m,
            m2,
        ) implies board_seen(checked1, m2.board) || entry_at_idx(nodes1, q1, m2, n + 1 as int) by {
        if board_seen(checked0, m.board) {
            assert(board_seen(checked0, m2.board) || entry_at_idx(nodes0, q0, m2, n + 1 as int));
            if entry_at_idx(nodes0, q0, m2, n + 1 as int) {
                let k = choose|k: int|
                    0 <= k < q0.len() && (#[trigger] q0[k]) < nodes0.len()
                        && nodes0[q0[k] as int].game@ == m2 && node_depth(nodes0, q0[k] as int)
                        <= n + 1;
                if k == 0 {
                    assert(m2 == g);
                } else {
                    assert(q1[k - 1] == q0[k]);
                    assert(nodes1[q0[k] as int] == nodes0[q0[k] as int]);
                }
            }
        } else {
            let c = choose|c: int| 0 <= c < checked1.len() && (#[trigger] checked1[c])@ == m.board;
            if c < checked0.len() {
                assert(checked0[c]@ == m.board);
            }
            assert(m.board == g.board);
            assert(reachable(init, m) && reachable(init, g));
            lemma_reachable_preserves_wf(init, m);
            lemma_reachable_preserves_wf(init, g);
            lemma_reachable_preserves_frame(init, m);
            lemma_reachable_preserves_frame(init, g);
            lemma_board_determines_state(m, g);
            assert(n >= d0);
            let (pi, pdir, pst) = choose|pi: int, pdir: bool, pst: int|
                0 <= pi < m.pieces.len() && 1 <= pst && #[trigger] m.move_ok(pi, pdir, pst) && m2
                    == m.move_result(pi, pdir, pst);
            assert(idx_frontier_has(nodes1, q1, g.move_result(pi, pdir, pst)));
            let k = choose|k: int|
                0 <= k < q1.len() && (#[trigger] q1[k]) < nodes1.len()
                    && nodes1[q1[k] as int].game@ == m2;
            assert(node_depth(nodes1, q1[k] as int) <= d0 + 1 <= n + 1);
        }
    }
    if q1.len() > 0 {
        assert forall|m: GameModel, n: nat|
            #[trigger] reach_n(init, m, n) && n <= node_depth(nodes1, q1[0] as int) implies
            board_seen(checked1, m.board) || entry_at_idx(nodes1, q1, m, n as int) by {
            if n <= d0 {
                assert(board_seen(checked0, m.board) || entry_at_idx(nodes0, q0, m, n as int));
                if entry_at_idx(nodes0, q0, m, n as int) {
                    let k = choose|k: int|
                        0 <= k < q0.len() && (#[trigger] q0[k]) < nodes0.len()
                            && nodes0[q0[k] as int].game@ == m && node_depth(nodes0, q0[k] as int)
                            <= n;
                    if k == 0 {
                        assert(m == g);
                    } else {
                        assert(q1[k - 1] == q0[k]);
                        assert(nodes1[q0[k] as int] == nodes0[q0[k] as int]);
                    }
                }
            } else {
                assert(node_depth(nodes1, q1[0] as int) <= d0 + 1);
                assert(n == d0 + 1);
                let mid = choose|mid: GameModel|
                    reach_n(init, mid, (n - 1) as nat) && #[trigger] step(mid, m);
                assert(reach_n(init, mid, d0));
                assert(board_seen(checked1, mid.board)) by {
                    assert(board_seen(checked0, mid.board) || entry_at_idx(
                        nodes0,
                        q0,
                        mid,
                        d0 as int,
                    ));
                    if entry_at_idx(nodes0, q0, mid, d0 as int) {
                        let k = choose|k: int|
                            0 <= k < q0.len() && (#[trigger] q0[k]) < nodes0.len()
                                && nodes0[q0[k] as int].game@ == mid && node_depth(
                                nodes0,
                                q0[k] as int,
                            ) <= d0;
                        if k > 0 {
                            assert(q1[0] == q0[1]);
                            assert(node_depth(nodes1, q1[0] as int) == node_depth(
                                nodes0,
                                q0[1] as int,
                            ));
                            assert(node_depth(nodes0, q0[1] as int) <= node_depth(
                                nodes0,
                                q0[k] as int,
                            ));
                            assert(false);
                        }
                        assert(mid == g);
                    }
                }
                assert(board_seen(checked1, m.board) || entry_at_idx(
                    nodes1,
                    q1,
                    m,
                    d0 + 1 as int,
                ));
            }
        }
    }
}

/// Walks the parent handles back from the goal node at `idx`, collecting the
/// states from the goal down to the root.
#[verifier::loop_isolation(false)]
#[verifier::rlimit(100)]
#[verifier::spinoff_prover]
fn walk_parents(nodes: &Vec<Node>, idx: usize, Ghost(init): Ghost<GameModel>) -> (rev: Vec<Game>)
    requires
        idx < nodes@.len(),
        nodes@[idx as int].game@.exit_clear(),
        nodes_ok(nodes@, init),
    ensures
        rev@.len() >= 1,
        rev@.len() == node_depth(nodes@, idx as int) + 1,
        rev@[0]@.exit_clear(),
        rev@[rev@.len() - 1]@ == init,
        forall|t: int|
            0 <= t < rev@.len() ==> (#[trigger] rev@[t])@.wf() && rev@[t]@.pieces.len() >= 1,
        forall|t: int| 0 <= t < rev@.len() - 1 ==> step(#[trigger] rev@[t + 1]@, rev@[t]@),
{
    let mut rev: Vec<Game> = Vec::new();
    rev.push(nodes[idx].game.clone());
    let mut cur: usize = idx;
    while nodes[cur].last.is_some()
        invariant
            cur < nodes@.len(),
            rev@.len() >= 1,
            rev@.len() + node_depth(nodes@, cur as int) == node_depth(nodes@, idx as int) + 1,
            rev@[0]@.exit_clear(),
            rev@[rev@.len() - 1]@ == nodes@[cur as int].game@,
            forall|t: int|
                0 <= t < rev@.len() ==> (#[trigger] rev@[t])@.wf() && rev@[t]@.pieces.len() >= 1,
            forall|t: int| 0 <= t < rev@.len() - 1 ==> step(#[trigger] rev@[t + 1]@, rev@[t]@),
        decreases cur,
    {
        let p = nodes[cur].last.unwrap();
        cur = p;
        rev.push(nodes[cur].game.clone());
    }
    rev
}

/// Returns the solution path ending at the goal node `idx` in forward order,
/// from the initial state to the goal.
fn build_path(nodes: &Vec<Node>, idx: usize, Ghost(init): Ghost<GameModel>) -> (path: Vec<Game>)
    requires
        idx < nodes@.len(),
        nodes@[idx as int].game@.exit_clear(),
        nodes_ok(nodes@, init),
    ensures
        path@.len() >= 1,
        path@.len() == node_depth(nodes@, idx as int) + 1,
        path@[0]@ == init,
        path@[path@.len() - 1]@.exit_clear(),
        forall|k: int|
            0 <= k < path@.len() ==> (#[trigger] path@[k])@.wf() && path@[k]@.pieces.len() >= 1,
        forall|k: int| 0 <= k < path@.len() - 1 ==> step(path@[k]@, #[trigger] path@[k + 1]@),
{
    let rev = walk_parents(nodes, idx, Ghost(init));
    let ghost rev0 = rev@;
    let path = reverse_games(rev);
    proof {
        assert(path@[0] == rev0[rev0.len() - 1]);
        assert(path@[path@.len() - 1] == rev0[0]);
        assert forall|k: int| 0 <= k < path@.len() - 1 implies step(
            path@[k]@,
            #[trigger] path@[k + 1]@,
        ) by {
            let t = rev0.len() - 2 - k;
            assert(path@[k] == rev0[t + 1]);
            assert(path@[k + 1] == rev0[t]);
            assert(step(rev0[t + 1]@, rev0[t]@));
        }
    }
    path
}

/// Dropping the frontier's head keeps the search closed when the head's
/// board has been visited.
proof fn lemma_skip_keeps_closed(
    init: GameModel,
    checked: Seq<Board>,
    nodes: Seq<Node>,
    q0: Seq<usize>,
    q1: Seq<usize>,
    model: GameModel,
)
    requires
        q0.len() >= 1,
        q1 == q0.subrange(1, q0.len() as int),
        q0[0] < nodes.len(),
        nodes[q0[0] as int].game@ == model,
        board_seen(checked, model.board),
        closed_under_step_idx(init, checked, nodes, q0),
    ensures
        closed_under_step_idx(init, checked, nodes, q1),
        idx_frontier_has(nodes, q0, init) ==> (board_seen(checked, init.board)
            || idx_frontier_has(nodes, q1, init)),
{
    assert forall|m: GameModel, m2: GameModel|
        reachable(init, m) && board_seen(checked, #[trigger] m.board) && #[trigger] step(
        m,
        m2,
    ) implies board_seen(checked, m2.board) || idx_frontier_has(nodes, q1, m2) by {
        assert(board_seen(checked, m2.board) || idx_frontier_has(nodes, q0, m2));
        if idx_frontier_has(nodes, q0, m2) {
            let k = choose|k: int|
                0 <= k < q0.len() && (#[trigger] q0[k]) < nodes.len() && nodes[q0[k] as int].game@
                    == m2;
            if k == 0 {
                assert(m2 == model);
            } else {
                assert(q1[k - 1] == q0[k]);
            }
        }
    }
    if idx_frontier_has(nodes, q0, init) {
        let k = choose|k: int|
            0 <= k < q0.len() && (#[trigger] q0[k]) < nodes.len() && nodes[q0[k] as int].game@
                == init;
        if k == 0 {
            assert(init == model);
        } else {
            assert(q1[k - 1] == q0[k]);
        }
    }
}

/// Expanding the frontier's head keeps the search closed once its board is
/// visited and all its successors wait on the frontier.
proof fn lemma_expand_keeps_closed(
    init: GameModel,
    checked0: Seq<Board>,
    checked1: Seq<Board>,
    nmid: Seq<Node>,
    nodes1: Seq<Node>,
    q0: Seq<usize>,
    qmid: Seq<usize>,
    q1: Seq<usize>,
    idx: usize,
    model: GameModel,
)
    requires
        init.wf(),
        q0.len() >= 1,
        q0[0] == idx,
        qmid == q0.subrange(1, q0.len() as int),
        idx < nmid.len(),
        nmid[idx as int].game@ == model,
        model.wf(),
        reachable(init, model),
        checked1.len() == checked0.len() + 1,
        forall|c: int| 0 <= c < checked0.len() ==> #[trigger] checked1[c] == checked0[c],
        checked1[checked1.len() - 1]@ == model.board,
        closed_under_step_idx(init, checked0, nmid, q0),
        nodes1.len() >= nmid.len(),
        forall|n: int| 0 <= n < nmid.len() ==> #[trigger] nodes1[n] == nmid[n],
        forall|m: GameModel|
            #[trigger] idx_frontier_has(nmid, qmid, m) ==> idx_frontier_has(nodes1, q1, m),
        forall|pi: int, dir: bool, st: int|
            0 <= pi < model.pieces.len() && 1 <= st && #[trigger] model.move_ok(pi, dir, st)
                ==> idx_frontier_has(nodes1, q1, model.move_result(pi, dir, st)),
    ensures
        closed_under_step_idx(init, checked1, nodes1, q1),
        idx_frontier_has(nmid, q0, init) ==> (board_seen(checked1, init.board)
            || idx_frontier_has(nodes1, q1, init)),
{
    assert forall|m: GameModel, m2: GameModel|
        reachable(init, m) && board_seen(checked1, #[trigger] m.board) && #[trigger] step(
        m,
        m2,
    ) implies board_seen(checked1, m2.board) || idx_frontier_has(nodes1, q1, m2) by {
        if board_seen(checked0, m.board) {
            assert(board_seen(checked0, m2.board) || idx_frontier_has(nmid, q0, m2));
            if board_seen(checked0, m2.board) {
                let c = choose|c: int|
                    0 <= c < checked0.len() && (#[trigger] checked0[c])@ == m2.board;
                assert(checked1[c]@ == m2.board);
            } else {
                let k = choose|k: int|
                    0 <= k < q0.len() && (#[trigger] q0[k]) < nmid.len()
                        && nmid[q0[k] as int].game@ == m2;
                if k == 0 {
                    assert(m2 == model);
                    assert(board_seen(checked1, m2.board));
                } else {
                    assert(qmid[k - 1] == q0[k]);
                    assert(idx_frontier_has(nmid, qmid, m2));
                }
            }
        } else {
            let c = choose|c: int| 0 <= c < checked1.len() && (#[trigger] checked1[c])@ == m.board;
            if c < checked0.len() {
                assert(checked0[c]@ == m.board);
            }
            assert(m.board == model.board);
            lemma_reachable_preserves_wf(init, m);
            lemma_reachable_preserves_frame(init, m);
            lemma_reachable_preserves_frame(init, model);
            lemma_board_determines_state(m, model);
            let (pi, pdir, pst) = choose|pi: int, pdir: bool, pst: int|
                0 <= pi < m.pieces.len() && 1 <= pst && #[trigger] m.move_ok(pi, pdir, pst) && m2
                    == m.move_result(pi, pdir, pst);
            assert(idx_frontier_has(nodes1, q1, model.move_result(pi, pdir, pst)));
        }
    }
    if idx_frontier_has(nmid, q0, init) {
        let k = choose|k: int|
            0 <= k < q0.len() && (#[trigger] q0[k]) < nmid.len() && nmid[q0[k] as int].game@
                == init;
        if k == 0 {
            assert(init == model);
            assert(board_seen(checked1, init.board));
        } else {
            assert(qmid[k - 1] == q0[k]);
            assert(idx_frontier_has(nmid, qmid, init));
        }
    }
}

/// Appending the board of a reachable unsolved state keeps the visited list
/// sound.
proof fn lemma_checked_push_sound(
    init: GameModel,
    checked0: Seq<Board>,
    checked1: Seq<Board>,
    model: GameModel,
)
    requires
        checked_sound(init, checked0),
        checked1.len() == checked0.len() + 1,
        forall|c: int| 0 <= c < checked0.len() ==> #[trigger] checked1[c] == checked0[c],
        checked1[checked1.len() - 1]@ == model.board,
        reachable(init, model),
        !model.exit_clear(),
    ensures
        checked_sound(init, checked1),
{
    assert forall|c: int|
        0 <= c < checked1.len() implies exists|m: GameModel|
        reachable(init, m) && !m.exit_clear() && m.board == (#[trigger] checked1[c])@ by {
        if c < checked0.len() {
            assert(checked1[c] == checked0[c]);
        } else {
            assert(checked1[c]@ == model.board);
        }
    }
}

/// An exhausted handle frontier proves unsolvability.
proof fn lemma_exhausted_unsolvable_idx(
    init: GameModel,
    checked: Seq<Board>,
    nodes: Seq<Node>,
    q: Seq<usize>,
)
    requires
        init.wf(),
        q.len() == 0,
        board_seen(checked, init.board),
        closed_under_step_idx(init, checked, nodes, q),
        checked_sound(init, checked),
    ensures
        !solvable(init),
{
    assert(closed_under_step(init, checked, Seq::<Game>::empty())) by {
        assert forall|m: GameModel, m2: GameModel|
            reachable(init, m) && board_seen(checked, #[trigger] m.board) && #[trigger] step(
            m,
            m2,
        ) implies board_seen(checked, m2.board) || frontier_has(Seq::<Game>::empty(), m2) by {
            assert(board_seen(checked, m2.board) || idx_frontier_has(nodes, q, m2));
        }
    }
    lemma_exhausted_unsolvable(init, checked);
}

/// Breadth-first search that also reconstructs the solution path.  A `Some`
/// result is the sequence of states from `initial_game` to a solved state
/// inclusive, each consecutive pair related by one legal move, and it is a
/// shortest solution: no state solvable in fewer transitions is reachable.
/// An already-solved input yields the one-state path.  The search keeps the
/// explored states in an arena and follows parent handles backwards from
/// the goal.  As in `solve`, `None` only when no reachable state is solved
/// or more than `VISITED_CAP` distinct reachable board layouts exist; the
/// latter makes `None` a heuristic answer, not a proof of unsolvability.
#[verifier::loop_isolation(false)]
#[verifier::rlimit(100)]
pub fn extra_solve(initial_game: &Game) -> (r: Option<Vec<Game>>)
    requires
        initial_game@.wf(),
        initial_game@.pieces.len() >= 1,
    ensures
        match r {
            Some(path) => {
                &&& path@.len() >= 1
                &&& path@[0]@ == initial_game@
                &&& path@[path@.len() - 1]@.exit_clear()
                &&& forall|k: int|
                    0 <= k < path@.len() ==> (#[trigger] path@[k])@.wf()
                        && path@[k]@.pieces.len() >= 1
                &&& forall|k: int|
                    0 <= k < path@.len() - 1 ==> step(path@[k]@, #[trigger] path@[k + 1]@)
                &&& forall|n: nat, m: GameModel|
                    n < path@.len() - 1 && #[trigger] reach_n(initial_game@, m, n)
                        ==> !m.exit_clear()
            },
            None => !solvable(initial_game@) || !boards_within_cap(initial_game@),
        },
        initial_game@.exit_clear() ==> (r matches Some(path) && path@.len() == 1),
{
    if initial_game.can_exit() {
        let mut path: Vec<Game> = Vec::new();
        path.push(initial_game.clone());
        return Some(path);
    }
    let mut nodes: Vec<Node> = Vec::new();
    let mut checked: Vec<Board> = Vec::new();
    let mut queue: VecDeque<usize> = VecDeque::new();
    let max_steps = if initial_game.width > initial_game.height {
        initial_game.width
    } else {
        initial_game.height
    };
    nodes.push(Node { game: initial_game.clone(), last: None });
    queue.push_back(0);
    proof {
        lemma_reachable_refl(initial_game@);
        assert(queue@[0] == 0usize);
        assert(nodes@[0].game@ == initial_game@);
        assert(idx_frontier_has(nodes@, queue@, initial_game@));
        assert(node_depth(nodes@, 0) == 0);
        assert(reach_n(initial_game@, initial_game@, 0));
    }
    while queue.len() != 0
        invariant
            checked@.len() <= VISITED_CAP + 1,
            nodes@.len() >= 1,
            nodes_ok(nodes@, initial_game@),
            forall|q: int| 0 <= q < queue@.len() ==> (#[trigger] queue@[q]) < nodes@.len(),
            checked_sound(initial_game@, checked@),
            checked_distinct(checked@),
            board_seen(checked@, initial_game@.board) || idx_frontier_has(
                nodes@,
                queue@,
                initial_game@,
            ),
            closed_under_step_idx(initial_game@, checked@, nodes@, queue@),
            forall|k: int|
                0 <= k < queue@.len() ==> reach_n(
                    initial_game@,
                    nodes@[(#[trigger] queue@[k]) as int].game@,
                    node_depth(nodes@, queue@[k] as int),
                ),
            forall|k1: int, k2: int|
                0 <= k1 <= k2 < queue@.len() ==> node_depth(
                    nodes@,
                    (#[trigger] queue@[k1]) as int,
                ) <= node_depth(nodes@, (#[trigger] queue@[k2]) as int),
            forall|k: int|
                0 <= k < queue@.len() ==> node_depth(nodes@, (#[trigger] queue@[k]) as int)
                    <= node_depth(nodes@, queue@[0] as int) + 1,
            queue@.len() > 0 ==> forall|m: GameModel, n: nat|
                #[trigger] reach_n(initial_game@, m, n) && n <= node_depth(
                    nodes@,
                    queue@[0] as int,
                ) ==> board_seen(checked@, m.board) || entry_at_idx(nodes@, queue@, m, n as int),
            forall|m: GameModel, n: nat, m2: GameModel|
                #[trigger] reach_n(initial_game@, m, n) && board_seen(checked@, m.board)
                    && #[trigger] step(m, m2) ==> board_seen(checked@, m2.board) || entry_at_idx(
                    nodes@,
                    queue@,
                    m2,
                    n + 1 as int,
                ),
        decreases VISITED_CAP + 1 - checked@.len(), queue@.len(),
    {
        let ghost q0 = queue@;
        let idx = queue.pop_front().unwrap();
        proof {
            assert(q0[0] == idx);
        }
        if checked.len() > VISITED_CAP {
            proof {
                lemma_many_boards(initial_game@, checked@);
            }
            return None;
        }
        let ghost model = nodes@[idx as int].game@;
        let ghost d0 = node_depth(nodes@, idx as int);
        if nodes[idx].game.can_exit() {
            proof {
                assert forall|n: nat, m: GameModel|
                    n < d0 && #[trigger] reach_n(initial_game@, m, n) implies !m.exit_clear() by {
                    assert(board_seen(checked@, m.board) || entry_at_idx(
                        nodes@,
                        q0,
                        m,
                        n as int,
                    ));
                    if entry_at_idx(nodes@, q0, m, n as int) {
                        let k = choose|k: int|
                            0 <= k < q0.len() && (#[trigger] q0[k]) < nodes@.len()
                                && nodes@[q0[k] as int].game@ == m && node_depth(
                                nodes@,
                                q0[k] as int,
                            ) <= n;
                        assert(node_depth(nodes@, q0[0] as int) <= node_depth(
                            nodes@,
                            q0[k] as int,
                        ));
                        assert(false);
                    }
                    assert(reachable(initial_game@, m));
                    lemma_seen_not_solved(initial_game@, checked@, m);
                }
            }
            return Some(build_path(&nodes, idx, Ghost(initial_game@)));
        } else if !game_in(&nodes[idx].game, &checked) {
            let ghost checked0 = checked@;
            checked.push(nodes[idx].game.board.clone());
            proof {
                assert(checked@[checked@.len() - 1]@ == model.board);
                assert(board_seen(checked@, model.board));
                lemma_reachable_preserves_frame(initial_game@, model);
            }
            let ghost checked1 = checked@;
            let ghost nmid = nodes@;
            let ghost qmid = queue@;
            let rr = expand(nodes, queue, idx, max_steps, Ghost(initial_game@));
            nodes = rr.0;
            queue = rr.1;
            proof {
                lemma_expand_keeps_closed(
                    initial_game@,
                    checked0,
                    checked1,
                    nmid,
                    nodes@,
                    q0,
                    qmid,
                    queue@,
                    idx,
                    model,
                );
                lemma_idx_depths_after_expand(
                    initial_game@,
                    checked0,
                    checked1,
                    nmid,
                    nodes@,
                    q0,
                    qmid,
                    queue@,
                    idx,
                    model,
                );
                lemma_checked_push_sound(initial_game@, checked0, checked1, model);
                if board_seen(checked0, initial_game@.board) {
                    let c = choose|c: int|
                        0 <= c < checked0.len() && (#[trigger] checked0[c])@
                            == initial_game@.board;
                    assert(checked@[c]@ == initial_game@.board);
                    assert(board_seen(checked@, initial_game@.board));
                }
            }
        } else {
            proof {
                assert(board_seen(checked@, model.board));
                lemma_skip_keeps_closed(
                    initial_game@,
                    checked@,
                    nodes@,
                    q0,
                    queue@,
                    model,
                );
                lemma_idx_depths_after_skip(
                    initial_game@,
                    checked@,
                    nodes@,
                    q0,
                    queue@,
                    model,
                );
            }
        }
    }
    proof {
        assert(board_seen(checked@, initial_game@.board));
        lemma_exhausted_unsolvable_idx(initial_game@, checked@, nodes@, queue@);
    }
    None
}

} // verus!
