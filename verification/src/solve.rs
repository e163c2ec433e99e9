//! A plain negamax/alpha-beta solver over a growable hash-map cache: simpler
//! and slower than `Solver`, with no move ordering, no non-losing-move
//! analysis and no iterative deepening. An independent implementation that
//! provably computes the same game value as the engine.
use vstd::prelude::*;

use vstd::hash_map::HashMapWithView;

use crate::position::HEIGHT;
use crate::position::Position;
use crate::position::WIDTH;
use crate::position::col_height;
use crate::position::game_value;
use crate::position::landing_index;
use crate::position::lemma_can_win_value;
use crate::position::lemma_game_value_range;
use crate::position::lemma_grid_bounds;
use crate::position::lemma_gv_le;
use crate::position::lemma_mask_bits;
use crate::position::lemma_negamax_sign;
use crate::position::spec_key;
use crate::position::value_of_play;
use crate::position::wins;
use crate::solver::Solver;
use crate::solver::score_in_range;

verus! {

broadcast use vstd::std_specs::hash::group_hash_axioms;

/// Every bound the cache holds is a score, and a sound upper bound of its
/// position's exact value: keys are injective over well-formed positions.
pub open spec fn cache_wf(m: Map<u64, i32>) -> bool {
    &&& forall|k: u64| m.contains_key(k) ==> score_in_range(#[trigger] m[k] as int)
    &&& forall|q: Position|
        (q.wf() && !wins(q.player ^ q.mask) && !q.spec_can_win_next() && #[trigger] m.contains_key(
            spec_key(q),
        )) ==> game_value(q) <= m[spec_key(q)]
}

/// The exact score of `p` for the side to move, by a full-window search:
/// the game-theoretic value.
pub fn solve(p: Position) -> (score: i32)
    requires
        p.wf(),
        !wins(p.player ^ p.mask),
    ensures
        score == game_value(p),
{
    let mut cache: HashMapWithView<u64, i32> = HashMapWithView::with_capacity(30000);
    solve_rec(p, -1000, 1000, &mut cache)
}

/// Whether `p` is a win, a draw or a loss for the side to move: the sign of
/// the result is the sign of the exact game value, and a nonzero result
/// bounds the value from the near side. Faster than `solve` but less
/// precise.
pub fn solve_weak(p: Position) -> (score: i32)
    requires
        p.wf(),
        !wins(p.player ^ p.mask),
    ensures
        score > 0 <==> game_value(p) > 0,
        score == 0 <==> game_value(p) == 0,
        score < 0 <==> game_value(p) < 0,
{
    let mut cache: HashMapWithView<u64, i32> = HashMapWithView::with_capacity(30000);
    let score = solve_rec(p, -1, 1, &mut cache);
    proof {
        if -1 < score < 1 {
            assert(score == 0);
        }
    }
    score
}

/// Negamax over the window `(a, b)`. A draw and an immediate win are scored
/// directly; otherwise the children are searched in the fixed column order,
/// the cache tightening the window and recording the bound proven here. The
/// result is the exact game value when it falls strictly inside the window;
/// at or below `a` it is an upper bound on the value, at or above `b` a
/// lower bound. The window sentinels of the drivers stay far inside `i32`,
/// so the negations below cannot overflow.
fn solve_rec(p: Position, a: i32, b: i32, cache: &mut HashMapWithView<u64, i32>) -> (score: i32)
    requires
        p.wf(),
        !wins(p.player ^ p.mask),
        cache_wf(old(cache)@),
        -1000 <= a < b <= 1000,
    ensures
        cache_wf(final(cache)@),
        score_in_range(score as int),
        score <= a ==> game_value(p) <= score,
        score >= b ==> game_value(p) >= score,
        a < score < b ==> score == game_value(p),
        p.spec_can_win_next() ==> score == (43 - p.play_count) / 2,
        p.play_count == 42 ==> score == 0,
    decreases 42 - p.play_count,
{
    proof {
        lemma_grid_bounds(p.mask);
        lemma_game_value_range(p);
    }
    if p.is_draw() {
        proof {
            // a full board has no column with room, so no winning column
            if p.spec_can_win_next() {
                let cw = choose|cw: u64|
                    cw < 7 && #[trigger] col_height(p.mask, cw) < 6 && wins(
                        p.player | (1u64 << landing_index(p.mask, cw)),
                    );
                assert(p.play_count <= 41);
            }
        }
        return 0;
    }
    let mut x: u64 = 0;
    while x < WIDTH
        invariant
            p.wf(),
            p.play_count < 42,
            cache_wf(cache@),
            x <= 7,
            forall|c: u64| c < x ==> !(#[trigger] col_height(p.mask, c) < 6 && wins(
                p.player | (1u64 << landing_index(p.mask, c)),
            )),
        decreases 7 - x,
    {
        if p.is_valid_play(x) && p.is_winning_play(x) {
            proof {
                assert(p.play_count <= 41);
                lemma_can_win_value(p);
            }
            return ((WIDTH * HEIGHT + 1) as i32 - p.play_count as i32) / 2;
        }
        x = x + 1;
    }
    let mut alpha = a;
    let mut beta_cur = b;
    match cache.get(&p.key()) {
        Some(max_score) => {
            proof {
                assert(cache@.contains_key(spec_key(p)));
            }
            // a bound proven under some earlier window: it may tighten the
            // window but is never returned as exact
            if beta_cur > *max_score {
                beta_cur = *max_score;
                if alpha >= beta_cur {
                    return beta_cur;
                }
            }
        },
        None => {},
    }
    // the mover scores at least the lost-position value, losing with every
    // remaining cell: a window at or below that floor is already decided
    let floor = -(((WIDTH * HEIGHT) as i32 - p.play_count as i32) / 2);
    if floor >= beta_cur {
        return floor;
    }
    // the running maximum is seeded at the floor, strictly below the window
    let mut best = floor;
    let ghost seed = best;
    let mut i: u64 = 0;
    while i < WIDTH
        invariant
            p.wf(),
            p.play_count < 42,
            !wins(p.player ^ p.mask),
            !p.spec_can_win_next(),
            cache_wf(cache@),
            i <= 7,
            seed == -((42 - p.play_count) / 2),
            seed <= game_value(p),
            seed < beta_cur,
            seed <= best,
            best == seed || best < beta_cur,
            score_in_range(best as int),
            -1000 <= a < b <= 1000,
            a <= alpha,
            alpha == a || alpha == best,
            alpha < beta_cur,
            beta_cur <= b,
            beta_cur < b ==> game_value(p) <= beta_cur,
            forall|j: u64|
                j < i && col_height(p.mask, #[trigger] Solver::spec_play_order(j)) < 6
                    ==> value_of_play(p, Solver::spec_play_order(j)) <= best,
            best > a && best > seed ==> exists|c: u64|
                c < 7 && #[trigger] col_height(p.mask, c) < 6 && value_of_play(p, c) == best,
        decreases 7 - i,
    {
        let x = Solver::play_order(i);
        if p.is_valid_play(x) {
            let played = p.play(x);
            proof {
                lemma_mask_bits();
                assert((p.mask & (1u64 << landing_index(p.mask, x))) == 0);
                assert(played.player ^ played.mask == p.player | (1u64 << landing_index(
                    p.mask,
                    x,
                )));
                assert(!wins(p.player | (1u64 << landing_index(p.mask, x))));
                assert(value_of_play(p, x) == -game_value(played));
            }
            // negamax: the mover's best is the negation of the opponent's
            let score = -solve_rec(played, -beta_cur, -alpha, cache);
            proof {
                if score <= alpha {
                    // the child failed high: an overestimate of this move only
                    assert(value_of_play(p, x) <= score);
                } else if score < beta_cur {
                    // inside the window: the child value is exact
                    assert(value_of_play(p, x) == score);
                } else {
                    // the child failed low: the move is worth at least the score
                    assert(value_of_play(p, x) >= score);
                }
                lemma_negamax_sign(p, x);
            }
            if score > best {
                best = score;
                // raise the window's floor when a better line is found
                if best > alpha {
                    alpha = best;
                }
                // fail high: no sibling needs to be explored
                if alpha >= beta_cur {
                    proof {
                        assert(game_value(p) >= value_of_play(p, x));
                        if beta_cur < b {
                            assert(game_value(p) == score);
                        }
                    }
                    return score;
                }
            }
        }
        i = i + 1;
    }
    proof {
        // every column was processed in the fixed order, so nothing beats
        // the running maximum, and a raised maximum was met exactly
        assert(Solver::spec_play_order(0) == 3 && Solver::spec_play_order(1) == 2
            && Solver::spec_play_order(2) == 4 && Solver::spec_play_order(3) == 1
            && Solver::spec_play_order(4) == 5 && Solver::spec_play_order(5) == 0
            && Solver::spec_play_order(6) == 6);
        assert forall|c: u64| c < 7 && #[trigger] col_height(p.mask, c) < 6 implies value_of_play(
            p,
            c,
        ) <= best by {
            let j: u64 = if c == 3 {
                0
            } else if c == 2 {
                1
            } else if c == 4 {
                2
            } else if c == 1 {
                3
            } else if c == 5 {
                4
            } else if c == 0 {
                5
            } else {
                6
            };
            assert(Solver::spec_play_order(j) == c);
        }
        lemma_gv_le(p, best as int);
        if best > a && best > seed {
            let cbest = choose|cbest: u64|
                cbest < 7 && #[trigger] col_height(p.mask, cbest) < 6 && value_of_play(p, cbest)
                    == best;
            lemma_negamax_sign(p, cbest);
        }
    }
    cache.insert(p.key(), best);
    proof {
        assert forall|q: Position|
            (q.wf() && !wins(q.player ^ q.mask) && !q.spec_can_win_next()
                && #[trigger] cache@.contains_key(spec_key(q))) implies game_value(q)
            <= cache@[spec_key(q)] by {
            if spec_key(q) == spec_key(p) {
                crate::position::lemma_key_injective(q, p);
            }
        }
    }
    return best;
}

} // verus!
