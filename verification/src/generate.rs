//! Random instance generation by rejection sampling: a sweep over the board
//! drops random pieces wherever they fit, then the solver filters the result.
//! An unsolvable board (including one that exhausts the solver's visited cap)
//! yields `None`; a solvable one yields its full solution path.

use rand::Rng;
use vstd::prelude::*;

use crate::game::{lemma_contains_push, Game, GameModel, Piece, Point};
use crate::solver::{boards_within_cap, extra_solve, solvable, solve, step};

verus! {

/// Relies on rand's thread-local generator: `gen_range(0..n)` returns a
/// uniformly drawn value below `n`, and panics only on an empty range, which
/// the precondition rules out.  Nothing more is promised of the outcome.
#[verifier::external_body]
fn random_below(n: usize) -> (r: usize)
    requires
        n >= 1,
    ensures
        r < n,
{
    rand::thread_rng().gen_range(0..n)
}

/// Sweeps the board in row-major order and, with probability 4 in 6 per
/// cell, tries to drop one of four piece shapes (horizontal or vertical,
/// two or three cells long) with its origin there, skipping it when it
/// would leave the board or overlap.  Each placed piece is independently
/// marked disabled with probability `disabled_bias` percent and, only if
/// not disabled, reversed with probability `reverse_bias` percent.  The
/// filled board is then solved: `Some` is the full solution path from the
/// filled board to a solved state, `None` means the solver gave up on an
/// unsolvable or over-the-cap board.  A prisoner placed flush with its exit
/// edge makes every sweep outcome immediately solvable, so the result is
/// then always `Some`.
#[verifier::loop_isolation(false)]
pub fn generate(initial_game: Game, disabled_bias: i8, reverse_bias: i8) -> (r: Option<Vec<Game>>)
    requires
        initial_game@.wf(),
        initial_game@.pieces.len() >= 1,
        0 <= disabled_bias <= 100,
        0 <= reverse_bias <= 100,
    ensures
        match r {
            Some(path) => {
                &&& path@.len() >= 1
                &&& forall|k: int|
                    0 <= k < path@.len() ==> (#[trigger] path@[k])@.wf()
                        && path@[k]@.pieces.len() >= 1
                &&& path@[0]@.width == initial_game@.width
                &&& path@[0]@.height == initial_game@.height
                &&& path@[0]@.exit == initial_game@.exit
                &&& path@[0]@.pieces[0] == initial_game@.pieces[0]
                &&& path@[0]@.pieces.len() >= initial_game@.pieces.len()
                &&& path@[path@.len() - 1]@.exit_clear()
                &&& forall|k: int|
                    0 <= k < path@.len() - 1 ==> step(path@[k]@, #[trigger] path@[k + 1]@)
                &&& disabled_bias == 0 ==> path@[0]@.disabled == initial_game@.disabled
                &&& reverse_bias == 0 ==> path@[0]@.reversed == initial_game@.reversed
                &&& disabled_bias == 100 ==> forall|j: int|
                    initial_game@.pieces.len() <= j < path@[0]@.pieces.len()
                        ==> #[trigger] path@[0]@.disabled.contains(((j + 1) as usize))
                &&& forall|p: usize|
                    #[trigger] path@[0]@.disabled.contains(p) ==> initial_game@.disabled.contains(
                        p,
                    ) || initial_game@.pieces.len() < p <= path@[0]@.pieces.len()
                &&& forall|p: usize|
                    #[trigger] path@[0]@.reversed.contains(p) ==> initial_game@.reversed.contains(
                        p,
                    ) || initial_game@.pieces.len() < p <= path@[0]@.pieces.len()
                &&& (forall|p: usize|
                    !(initial_game@.disabled.contains(p)
                        && #[trigger] initial_game@.reversed.contains(p))) ==> (forall|p: usize|
                    !(path@[0]@.disabled.contains(p) && #[trigger] path@[0]@.reversed.contains(p)))
            },
            None => exists|b: GameModel|
                {
                    &&& b.wf()
                    &&& b.pieces.len() >= 1
                    &&& b.width == initial_game@.width
                    &&& b.height == initial_game@.height
                    &&& b.exit == initial_game@.exit
                    &&& b.pieces[0] == initial_game@.pieces[0]
                    &&& b.pieces.len() >= initial_game@.pieces.len()
                    &&& (!solvable(b) || !boards_within_cap(b))
                },
        },
        initial_game@.prisoner_flush() ==> r is Some,
{
    let mut game = initial_game;
    let width = game.width;
    let height = game.height;
    let mut y: usize = 0;
    while y < height
        invariant
            y <= height,
            game@.wf(),
            game@.pieces.len() >= 1,
            game@.width == initial_game@.width,
            game@.height == initial_game@.height,
            game@.exit == initial_game@.exit,
            game@.pieces[0] == initial_game@.pieces[0],
            game@.pieces.len() >= initial_game@.pieces.len(),
            disabled_bias == 0 ==> game@.disabled == initial_game@.disabled,
            reverse_bias == 0 ==> game@.reversed == initial_game@.reversed,
            disabled_bias == 100 ==> forall|j: int|
                initial_game@.pieces.len() <= j < game@.pieces.len()
                    ==> #[trigger] game@.disabled.contains(((j + 1) as usize)),
            forall|p: usize|
                #[trigger] game@.disabled.contains(p) ==> initial_game@.disabled.contains(p)
                    || initial_game@.pieces.len() < p <= game@.pieces.len(),
            forall|p: usize|
                #[trigger] game@.reversed.contains(p) ==> initial_game@.reversed.contains(p)
                    || initial_game@.pieces.len() < p <= game@.pieces.len(),
            (forall|p: usize|
                !(initial_game@.disabled.contains(p)
                    && #[trigger] initial_game@.reversed.contains(p))) ==> (forall|p: usize|
                !(game@.disabled.contains(p) && #[trigger] game@.reversed.contains(p))),
        decreases height - y,
    {
        let mut x: usize = 0;
        while x < width
            invariant
                y < height,
                x <= width,
                game@.wf(),
                game@.pieces.len() >= 1,
                game@.width == initial_game@.width,
                game@.height == initial_game@.height,
                game@.exit == initial_game@.exit,
                game@.pieces[0] == initial_game@.pieces[0],
                game@.pieces.len() >= initial_game@.pieces.len(),
                disabled_bias == 0 ==> game@.disabled == initial_game@.disabled,
                reverse_bias == 0 ==> game@.reversed == initial_game@.reversed,
                disabled_bias == 100 ==> forall|j: int|
                    initial_game@.pieces.len() <= j < game@.pieces.len()
                        ==> #[trigger] game@.disabled.contains(((j + 1) as usize)),
                forall|p: usize|
                    #[trigger] game@.disabled.contains(p) ==> initial_game@.disabled.contains(p)
                        || initial_game@.pieces.len() < p <= game@.pieces.len(),
                forall|p: usize|
                    #[trigger] game@.reversed.contains(p) ==> initial_game@.reversed.contains(p)
                        || initial_game@.pieces.len() < p <= game@.pieces.len(),
                (forall|p: usize|
                    !(initial_game@.disabled.contains(p)
                        && #[trigger] initial_game@.reversed.contains(p))) ==> (forall|p: usize|
                    !(game@.disabled.contains(p) && #[trigger] game@.reversed.contains(p))),
            decreases width - x,
        {
            let rand_i = random_below(6);
            if rand_i < 4 {
                let disabled = random_below(100) < disabled_bias as usize;
                let reversed = !disabled && random_below(100) < reverse_bias as usize;
                // shape `rand_i`: 0 and 1 are horizontal pieces of length 2
                // and 3, 2 and 3 their vertical counterparts
                let dx: usize = if rand_i == 0 {
                    1
                } else if rand_i == 1 {
                    2
                } else {
                    0
                };
                let dy: usize = if rand_i == 2 {
                    1
                } else if rand_i == 3 {
                    2
                } else {
                    0
                };
                let ex = x + dx;
                let ey = y + dy;
                if ex < width && ey < height {
                    let piece = Piece::new(
                        Point { x: x as u8, y: y as u8 },
                        Point { x: ex as u8, y: ey as u8 },
                    );
                    if game.pieces.len() < 127 && game.check_can_add(piece) {
                        let ghost prev = game@;
                        game.add(piece, disabled, reversed);
                        proof {
                            let ghost fresh = (prev.pieces.len() + 1) as usize;
                            assert(game@.disabled == (if disabled {
                                prev.disabled.push(fresh)
                            } else {
                                prev.disabled
                            }));
                            assert(game@.reversed == (if reversed {
                                prev.reversed.push(fresh)
                            } else {
                                prev.reversed
                            }));
                            assert forall|p: usize|
                                #[trigger] game@.disabled.contains(p) implies initial_game@.disabled.contains(
                                p,
                            ) || initial_game@.pieces.len() < p <= game@.pieces.len() by {
                                if disabled {
                                    lemma_contains_push(prev.disabled, fresh, p);
                                }
                            }
                            assert forall|p: usize|
                                #[trigger] game@.reversed.contains(p) implies initial_game@.reversed.contains(
                                p,
                            ) || initial_game@.pieces.len() < p <= game@.pieces.len() by {
                                if reversed {
                                    lemma_contains_push(prev.reversed, fresh, p);
                                }
                            }
                            if forall|p: usize|
                                !(initial_game@.disabled.contains(p)
                                    && #[trigger] initial_game@.reversed.contains(p)) {
                                assert forall|p: usize|
                                    !(game@.disabled.contains(p)
                                        && #[trigger] game@.reversed.contains(p)) by {
                                    if disabled {
                                        lemma_contains_push(prev.disabled, fresh, p);
                                    }
                                    if reversed {
                                        lemma_contains_push(prev.reversed, fresh, p);
                                    }
                                }
                            }
                            if disabled_bias == 100 {
                                assert(disabled);
                                assert(game@.disabled == prev.disabled.push(
                                    (prev.pieces.len() + 1) as usize,
                                ));
                                assert forall|j: int|
                                    initial_game@.pieces.len() <= j < game@.pieces.len() implies
                                    #[trigger] game@.disabled.contains(((j + 1) as usize)) by {
                                    lemma_contains_push(
                                        prev.disabled,
                                        (prev.pieces.len() + 1) as usize,
                                        (j + 1) as usize,
                                    );
                                }
                            }
                        }
                    }
                }
            }
            x += 1;
        }
        y += 1;
    }
    proof {
        if initial_game@.prisoner_flush() {
            assert(game@.prisoner_flush());
            assert(game@.exit_clear());
        }
    }
    let solved_option = solve(&game);
    match solved_option {
        Some(_) => extra_solve(&game),
        None => None,
    }
}

} // verus!
