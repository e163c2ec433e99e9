//! The search engine: a direct-mapped transposition cache, heuristic move
//! ordering, and the negamax/alpha-beta search with its iterative-deepening
//! null-window driver.
use vstd::prelude::*;

use crate::bitops::bit;
use crate::position::HEIGHT;
use crate::position::WIDTH;
use crate::position::Position;
use crate::position::col_height;
use crate::position::game_value;
use crate::position::lemma_can_win_value;
use crate::position::spec_key;
use crate::position::value_of_play;
use crate::position::lemma_gv_ceiling;
use crate::position::landing_index;
use crate::position::lemma_grid_bounds;
use crate::position::lemma_move_exists;
use crate::position::playable;
use crate::position::wins;

verus! {

/// Number of cache slots; the table of packed entries fits a large L2 cache.
pub const CACHE_SIZE: usize = 9_500_000 / 8;

/// A packed cache entry kept empty: key field zero, value field holding the
/// biased zero.
pub const EMPTY_ENTRY: u64 = 0x8000_0000_0000_0000;

/// Every score the search handles lies between losing at once on an empty
/// board and winning at once on an empty board, in half-moves.
pub open spec fn score_in_range(v: int) -> bool {
    -21 <= v <= 21
}

/// The key field of a packed entry: its low 56 bits. A position key needs at
/// most 50 bits, so nothing of it is lost.
pub open spec fn entry_key(e: u64) -> u64 {
    e & 0x00ff_ffff_ffff_ffff
}

/// The value field of a packed entry: its top 8 bits, holding the score
/// biased by 128.
pub open spec fn entry_val(e: u64) -> int {
    (e >> 56) - 128
}

/// How packing a key and a biased value into one word reads back.
proof fn lemma_entry_pack()
    by (bit_vector)
    ensures
        forall|k: u64, v: u64| v <= 255 ==> entry_key(#[trigger] ((k & 0x00ff_ffff_ffff_ffff) | (v
            << 56))) == (k & 0x00ff_ffff_ffff_ffff),
        forall|k: u64, v: u64| v <= 255 ==> (#[trigger] ((k & 0x00ff_ffff_ffff_ffff) | (v << 56))
            >> 56) == v,
        forall|e: u64| (#[trigger] (e >> 56)) <= 255,
        forall|k: u64| k < 0x0100_0000_0000_0000 ==> (#[trigger] (k & 0x00ff_ffff_ffff_ffff)) == k,
        entry_key(EMPTY_ENTRY) == 0,
        (EMPTY_ENTRY >> 56) == 128,
{
}

/// The fixed-capacity, direct-mapped transposition table. Each slot holds one
/// packed entry; inserting overwrites whatever the key's slot held, and a
/// lookup answers only if the stored key field matches the key exactly.
pub struct Cache {
    entries: Vec<u64>,
}

impl Cache {
    /// The table always has its fixed capacity.
    pub closed spec fn wf(self) -> bool {
        self.entries@.len() == CACHE_SIZE
    }

    /// The value the table knows for `key`: the stored value if the slot the
    /// key maps to holds the key's bits, and `0` (``no bound known``) if not.
    pub closed spec fn spec_get(self, key: u64) -> int {
        let e = self.entries@[(key % (CACHE_SIZE as u64)) as int];
        if entry_key(e) == key {
            entry_val(e)
        } else {
            0
        }
    }

    /// A full table of empty slots.
    fn empty_entries() -> (v: Vec<u64>)
        ensures
            v@.len() == CACHE_SIZE,
            forall|k: int| 0 <= k < v@.len() ==> v@[k] == EMPTY_ENTRY,
    {
        let mut v: Vec<u64> = Vec::new();
        let mut i: usize = 0;
        while i < CACHE_SIZE
            invariant
                i <= CACHE_SIZE,
                v@.len() == i,
                forall|k: int| 0 <= k < i ==> v@[k] == EMPTY_ENTRY,
            decreases CACHE_SIZE - i,
        {
            v.push(EMPTY_ENTRY);
            i = i + 1;
        }
        v
    }

    /// An empty cache: it knows no bound for any key.
    pub fn new() -> (r: Cache)
        ensures
            r.wf(),
            forall|key: u64| #[trigger] r.spec_get(key) == 0,
    {
        let c = Cache { entries: Self::empty_entries() };
        proof {
            lemma_entry_pack();
        }
        c
    }

    /// Overwrite the slot `key` maps to with `(key, value)`. Whatever the
    /// slot held before is silently discarded: keys of other slots read what
    /// they read before, and a different key that maps to this slot now
    /// reads ``no bound``.
    pub fn insert(&mut self, key: u64, value: i32)
        requires
            old(self).wf(),
            -128 <= value <= 127,
        ensures
            final(self).wf(),
            key < 0x0100_0000_0000_0000 ==> final(self).spec_get(key) == value,
            forall|k2: u64|
                k2 % (CACHE_SIZE as u64) != key % (CACHE_SIZE as u64)
                    ==> #[trigger] final(self).spec_get(k2) == old(self).spec_get(k2),
            forall|k2: u64|
                k2 % (CACHE_SIZE as u64) == key % (CACHE_SIZE as u64) && k2 != (key
                    & 0x00ff_ffff_ffff_ffff) ==> #[trigger] final(self).spec_get(k2) == 0,
    {
        proof {
            lemma_entry_pack();
        }
        let idx = (key % (CACHE_SIZE as u64)) as usize;
        let entry = (key & 0x00ff_ffff_ffff_ffff) | (((value + 128) as u64) << 56);
        self.entries[idx] = entry;
    }

    /// The value stored for `key`, or `0` when the slot holds another key.
    pub fn get(&self, key: u64) -> (r: i32)
        requires
            self.wf(),
        ensures
            r == self.spec_get(key),
    {
        proof {
            lemma_entry_pack();
        }
        let e = self.entries[(key % (CACHE_SIZE as u64)) as usize];
        if (e & 0x00ff_ffff_ffff_ffff) == key {
            ((e >> 56) as i32) - 128
        } else {
            0
        }
    }

    /// Reset every slot, so that bounds from an unrelated board never leak
    /// into a new search.
    pub fn clear(&mut self)
        requires
            old(self).wf(),
        ensures
            final(self).wf(),
            forall|key: u64| #[trigger] final(self).spec_get(key) == 0,
    {
        self.entries = Self::empty_entries();
        proof {
            lemma_entry_pack();
        }
    }
}

/// Up to one candidate move per column, kept sorted by heuristic score so
/// that the best candidate pops first. Equal scores pop in insertion order.
pub struct PlaySorter {
    plays: Vec<(u64, u64)>,
}

impl PlaySorter {
    /// The candidates currently held.
    pub closed spec fn view_plays(self) -> Seq<(u64, u64)> {
        self.plays@
    }

    /// The candidates are sorted by ascending score; the last is a best one.
    pub open spec fn wf(self) -> bool {
        forall|i: int, j: int|
            0 <= i < j < self.view_plays().len() ==> (#[trigger] self.view_plays()[i]).1 <= (
            #[trigger] self.view_plays()[j]).1
    }

    /// An empty sorter.
    pub fn new() -> (r: PlaySorter)
        ensures
            r.wf(),
            r.view_plays().len() == 0,
    {
        PlaySorter { plays: Vec::new() }
    }

    /// Add one candidate, keeping the collection sorted. The candidate is
    /// placed exactly before the earliest held candidate of equal or higher
    /// score, so among equal scores the one inserted first pops first.
    pub fn insert(&mut self, play: u64, score: u64)
        requires
            old(self).wf(),
        ensures
            final(self).wf(),
            final(self).view_plays().len() == old(self).view_plays().len() + 1,
            exists|idx: int|
                #![trigger old(self).view_plays().insert(idx, (play, score))]
                0 <= idx <= old(self).view_plays().len() && final(self).view_plays() == old(
                    self,
                ).view_plays().insert(idx, (play, score)) && (forall|k: int|
                    0 <= k < idx ==> (#[trigger] old(self).view_plays()[k]).1 < score) && (idx < old(
                    self,
                ).view_plays().len() ==> old(self).view_plays()[idx].1 >= score),
            forall|k: int|
                0 <= k < final(self).view_plays().len() ==> ((#[trigger] final(self).view_plays()[k])
                    == (play, score) || old(self).view_plays().contains(
                    final(self).view_plays()[k],
                )),
            forall|k: int|
                0 <= k < old(self).view_plays().len() ==> final(self).view_plays().contains(
                    #[trigger] old(self).view_plays()[k],
                ),
    {
        let ghost prev = self.plays@;
        let mut index: usize = 0;
        let n = self.plays.len();
        while index < n
            invariant
                index <= n,
                n == self.plays@.len(),
                self.plays@ == prev,
                forall|k: int| 0 <= k < index ==> (#[trigger] prev[k]).1 < score,
            ensures
                index <= n,
                self.plays@ == prev,
                forall|k: int| 0 <= k < index ==> (#[trigger] prev[k]).1 < score,
                index < n ==> prev[index as int].1 >= score,
            decreases n - index,
        {
            if self.plays[index].1 >= score {
                break ;
            }
            index = index + 1;
        }
        proof {
            prev.insert_ensures(index as int, (play, score));
        }
        self.plays.insert(index, (play, score));
        proof {
            let cur = self.plays@;
            assert(cur == prev.insert(index as int, (play, score)));
            assert forall|x: int, y: int|
                0 <= x < y < prev.len() implies (#[trigger] prev[x]).1 <= (#[trigger] prev[y]).1
            by {
                assert(prev == old(self).view_plays());
                assert((old(self).view_plays()[x]).1 <= (old(self).view_plays()[y]).1);
            }
            assert forall|t: int| index <= t < prev.len() implies score <= (#[trigger] prev[t]).1
            by {
                assert(score <= prev[index as int].1);
            }
            assert forall|a: int, b: int|
                0 <= a < b < cur.len() implies (#[trigger] cur[a]).1 <= (#[trigger] cur[b]).1 by {
                if a < index {
                    assert(cur[a] == prev[a]);
                } else if a > index {
                    assert(cur[a] == prev[a - 1]);
                }
                if b < index {
                    assert(cur[b] == prev[b]);
                } else if b > index {
                    assert(cur[b] == prev[b - 1]);
                }
            }
            assert forall|k: int|
                0 <= k < cur.len() implies ((#[trigger] cur[k]) == (play, score) || prev.contains(
                cur[k])) by {
                if k < index {
                    assert(cur[k] == prev[k]);
                } else if k > index {
                    assert(cur[k] == prev[k - 1]);
                }
            }
            assert forall|k: int| 0 <= k < prev.len() implies cur.contains(
                #[trigger] prev[k],
            ) by {
                if k < index {
                    assert(cur[k] == prev[k]);
                } else {
                    assert(cur[k + 1] == prev[k]);
                }
            }
        }
    }

    /// Remove and return the play of a candidate with the highest score, or
    /// `None` when no candidate is left.
    pub fn pop(&mut self) -> (r: Option<u64>)
        requires
            old(self).wf(),
        ensures
            final(self).wf(),
            old(self).view_plays().len() == 0 ==> r == None::<u64> && final(self).view_plays()
                == old(self).view_plays(),
            old(self).view_plays().len() > 0 ==> {
                &&& r == Some(old(self).view_plays().last().0)
                &&& final(self).view_plays() == old(self).view_plays().drop_last()
                &&& forall|k: int| 0 <= k < old(self).view_plays().len() ==> (#[trigger] old(
                    self,
                ).view_plays()[k]).1 <= old(self).view_plays().last().1
            },
    {
        match self.plays.pop() {
            None => None,
            Some(p) => Some(p.0),
        }
    }
}

/// Every bound the table holds is sound: for a live position whose key reads
/// back a bound, that bound is at least the position's exact value. Keys are
/// injective over well-formed positions, so one slot speaks of one position.
pub open spec fn cache_sound(c: Cache) -> bool {
    forall|q: Position|
        (q.wf() && !wins(q.player ^ q.mask) && !q.spec_can_win_next() && #[trigger] c.spec_get(
            spec_key(q),
        ) != 0) ==> game_value(q) <= c.spec_get(spec_key(q))
}

/// The exact solver: a visited-node counter (diagnostic only) and one
/// transposition cache, reusable across independent positions via `reset`.
pub struct Solver {
    /// number of search nodes entered since the last reset
    pub visited: usize,
    /// the transposition table of this solver
    pub cache: Cache,
}

impl Solver {
    /// The cache has its fixed capacity, every bound it knows is a score,
    /// and every bound it knows is a sound upper bound of its position's
    /// exact value.
    pub open spec fn wf(self) -> bool {
        self.cache.wf() && (forall|k: u64| score_in_range(#[trigger] self.cache.spec_get(k)))
            && cache_sound(self.cache)
    }

    /// A fresh solver: no node visited, and a cache that knows no bound.
    pub fn new() -> (r: Solver)
        ensures
            r.wf(),
            r.visited == 0,
            forall|k: u64| #[trigger] r.cache.spec_get(k) == 0,
    {
        Solver { visited: 0, cache: Cache::new() }
    }

    /// The fixed center-out column priority: central columns take part in
    /// more winning lines, so they are tried first.
    pub open spec fn spec_play_order(i: u64) -> u64 {
        if i == 0 {
            3
        } else if i == 1 {
            2
        } else if i == 2 {
            4
        } else if i == 3 {
            1
        } else if i == 4 {
            5
        } else if i == 5 {
            0
        } else {
            6
        }
    }

    /// The fixed center-out column priority, as executable code.
    pub fn play_order(i: u64) -> (c: u64)
        requires
            i < 7,
        ensures
            c < 7,
            c == Self::spec_play_order(i),
    {
        if i == 0 {
            3
        } else if i == 1 {
            2
        } else if i == 2 {
            4
        } else if i == 3 {
            1
        } else if i == 4 {
            5
        } else if i == 5 {
            0
        } else {
            6
        }
    }

    /// The negamax search over the window `(alpha, beta)`, from the side to
    /// move of a position where play has not ended and no immediate win
    /// exists; callers short-circuit those cases. The result is the exact
    /// game value when it falls strictly inside the window; a result at or
    /// below `alpha` is an upper bound on the value, one at or above `beta`
    /// a lower bound.
    #[verifier::rlimit(100)]
    fn solve_rec(&mut self, p: Position, alpha: i32, beta: i32) -> (score: i32)
        requires
            old(self).wf(),
            p.wf(),
            !wins(p.player ^ p.mask),
            !p.spec_can_win_next(),
            alpha < beta,
            score_in_range(alpha as int),
            score_in_range(beta as int),
        ensures
            final(self).wf(),
            final(self).visited >= old(self).visited,
            old(self).visited < usize::MAX ==> final(self).visited > old(self).visited,
            score_in_range(score as int),
            score <= alpha ==> game_value(p) <= score,
            score >= beta ==> game_value(p) >= score,
            alpha < score < beta ==> score == game_value(p),
            (forall|c: u64| c < 7 && #[trigger] col_height(p.mask, c) < 6 ==> p.play_spec(
                c,
            ).spec_can_win_next()) ==> score == -((42 - p.play_count) / 2),
            p.play_count == 42 ==> score == 0,
        decreases 42 - p.play_count,
    {
        proof {
            lemma_grid_bounds(p.mask);
        }
        if self.visited < usize::MAX {
            // diagnostic counter; saturates rather than wrapping
            self.visited = self.visited + 1;
        }
        let non_losing_play_mask = p.possible_non_losing_play_mask();
        if non_losing_play_mask == 0 {
            // no move avoids an immediate loss: the opponent fills half of
            // what remains and wins with their next stone
            proof {
                crate::position::lemma_losing_iff_empty(p, non_losing_play_mask);
                crate::position::lemma_lost_value(p);
            }
            return -(((WIDTH * HEIGHT) as i32 - p.play_count as i32) / 2);
        }
        proof {
            // a non-losing move exists, so some column has room and the
            // board is not full
            crate::bitops::lemma_bit_ops();
            let j = crate::bitops::lemma_nonzero_bit(non_losing_play_mask);
            let cj = choose|cj: u64| cj < 7 && #[trigger] col_height(p.mask, cj) < 6 && j == 7 * cj
                + col_height(p.mask, cj);
            assert(p.play_count <= 41);
            lemma_gv_ceiling(p);
            // some kept move is safe, so not every legal move loses
            p.lemma_safe_play(cj);
            assert(!p.play_spec(cj).spec_can_win_next());
        }
        if p.is_draw() {
            return 0;
        }
        // the mover cannot win before their second next stone, which caps
        // what this node can be worth
        let ceiling = ((WIDTH * HEIGHT - 1) as i32 - p.play_count as i32) / 2;
        let mut beta_cur = beta;
        if beta_cur > ceiling {
            beta_cur = ceiling;
            if alpha >= beta_cur {
                return beta_cur;
            }
        }
        // a bound proven earlier for this position, under some other window:
        // it may tighten the window but is never returned as exact
        let max_cached = self.cache.get(p.key());
        proof {
            assert(max_cached == self.cache.spec_get(spec_key(p)));
        }
        if max_cached != 0 {
            if beta_cur > max_cached {
                beta_cur = max_cached;
                if alpha >= beta_cur {
                    return beta_cur;
                }
            }
        }
        let mut sorter = PlaySorter::new();
        let mut i: u64 = 0;
        while i < WIDTH
            invariant
                i <= 7,
                p.wf(),
                sorter.wf(),
                forall|k: int| 0 <= k < sorter.view_plays().len() ==> (#[trigger] sorter.view_plays()[k]).0
                    < 7 && col_height(p.mask, sorter.view_plays()[k].0) < 6,
                forall|j: u64|
                    j < i && col_height(p.mask, #[trigger] Self::spec_play_order(j)) < 6
                        ==> exists|k: int|
                        0 <= k < sorter.view_plays().len() && (#[trigger] sorter.view_plays()[k]).0
                            == Self::spec_play_order(j),
            decreases 7 - i,
        {
            let x = Self::play_order(i);
            if p.is_valid_play(x) {
                let ghost prev = sorter.view_plays();
                let heuristic = p.play(x).opponent().score();
                // moves that build more future threats are tried first
                sorter.insert(x, heuristic);
                proof {
                    let idx = choose|idx: int|
                        #![trigger prev.insert(idx, (x, heuristic))]
                        0 <= idx <= prev.len() && sorter.view_plays() == prev.insert(
                            idx,
                            (x, heuristic),
                        ) && (forall|k: int| 0 <= k < idx ==> (#[trigger] prev[k]).1 < heuristic)
                            && (idx < prev.len() ==> prev[idx].1 >= heuristic);
                    prev.insert_ensures(idx, (x, heuristic));
                    assert(sorter.view_plays()[idx] == (x, heuristic));
                }
            }
            i = i + 1;
        }
        proof {
            // the seven order slots name the seven columns
            assert(Self::spec_play_order(0) == 3 && Self::spec_play_order(1) == 2
                && Self::spec_play_order(2) == 4 && Self::spec_play_order(3) == 1
                && Self::spec_play_order(4) == 5 && Self::spec_play_order(5) == 0
                && Self::spec_play_order(6) == 6);
            assert forall|c: u64| c < 7 && #[trigger] col_height(p.mask, c) < 6 implies exists|
                k: int,
            |
                0 <= k < sorter.view_plays().len() && (#[trigger] sorter.view_plays()[k]).0
                    == c by {
                let j: u64 = if c == 3 {
                    0
                } else if c == 2 {
                    1
                } else if c == 4 {
                    2
                } else if c == 1 {
                    3
                } else if c == 5 {
                    4
                } else if c == 0 {
                    5
                } else {
                    6
                };
                assert(Self::spec_play_order(j) == c);
                assert(col_height(p.mask, Self::spec_play_order(j)) < 6);
            }
        }
        let mut alpha_cur = alpha;
        let mut best = alpha;
        loop
            invariant
                self.wf(),
                self.visited >= old(self).visited,
                old(self).visited < usize::MAX ==> self.visited > old(self).visited,
                p.wf(),
                !wins(p.player ^ p.mask),
                !p.spec_can_win_next(),
                p.play_count <= 41,
                crate::position::non_losing_mask_spec(p, non_losing_play_mask),
                non_losing_play_mask != 0,
                sorter.wf(),
                forall|k: int| 0 <= k < sorter.view_plays().len() ==> (#[trigger] sorter.view_plays()[k]).0
                    < 7 && col_height(p.mask, sorter.view_plays()[k].0) < 6,
                forall|c: u64|
                    c < 7 && #[trigger] col_height(p.mask, c) < 6 && bit(
                        non_losing_play_mask,
                        landing_index(p.mask, c),
                    ) ==> (exists|k: int|
                        0 <= k < sorter.view_plays().len() && (#[trigger] sorter.view_plays()[k]).0
                            == c) || value_of_play(p, c) <= best,
                score_in_range(alpha_cur as int),
                score_in_range(beta_cur as int),
                score_in_range(best as int),
                score_in_range(alpha as int),
                score_in_range(beta as int),
                alpha < beta,
                alpha_cur < beta_cur,
                alpha_cur == best,
                alpha <= best,
                beta_cur <= beta,
                beta_cur < beta ==> game_value(p) <= beta_cur,
                best > alpha ==> exists|c: u64|
                    c < 7 && #[trigger] col_height(p.mask, c) < 6 && value_of_play(p, c) == best,
            ensures
                self.wf(),
                self.visited >= old(self).visited,
                old(self).visited < usize::MAX ==> self.visited > old(self).visited,
                sorter.view_plays().len() == 0,
                score_in_range(best as int),
                alpha <= best,
                beta_cur <= beta,
                beta_cur < beta ==> game_value(p) <= beta_cur,
                forall|c: u64|
                    c < 7 && #[trigger] col_height(p.mask, c) < 6 && bit(
                        non_losing_play_mask,
                        landing_index(p.mask, c),
                    ) ==> value_of_play(p, c) <= best,
                best > alpha ==> exists|c: u64|
                    c < 7 && #[trigger] col_height(p.mask, c) < 6 && value_of_play(p, c) == best,
            decreases sorter.view_plays().len(),
        {
            let ghost prev = sorter.view_plays();
            let next = sorter.pop();
            match next {
                None => {
                    break ;
                },
                Some(x) => {
                    if Position::column_mask(x) & non_losing_play_mask == 0 {
                        // a move the non-losing mask rules out
                        proof {
                            crate::bitops::lemma_bit_ops();
                            crate::bitops::lemma_shift_bits();
                            crate::position::lemma_mask_bits();
                            assert(!bit(non_losing_play_mask, landing_index(p.mask, x))) by {
                                if bit(non_losing_play_mask, landing_index(p.mask, x)) {
                                    let li = landing_index(p.mask, x);
                                    assert(bit(0x7fu64 << ((7 * x) as u64), li));
                                    assert(bit(
                                        (0x7fu64 << ((7 * x) as u64)) & non_losing_play_mask,
                                        li,
                                    ));
                                }
                            }
                            assert forall|c: u64|
                                c < 7 && #[trigger] col_height(p.mask, c) < 6 && bit(
                                    non_losing_play_mask,
                                    landing_index(p.mask, c),
                                ) && c != x implies (exists|k: int|
                                0 <= k < sorter.view_plays().len()
                                    && (#[trigger] sorter.view_plays()[k]).0 == c)
                                || value_of_play(p, c) <= best by {
                                if exists|k: int|
                                    0 <= k < prev.len() && (#[trigger] prev[k]).0 == c {
                                    let k = choose|k: int|
                                        0 <= k < prev.len() && (#[trigger] prev[k]).0 == c;
                                    assert(k < prev.len() - 1);
                                    assert(sorter.view_plays()[k] == prev[k]);
                                }
                            }
                        }
                        continue ;
                    }
                    proof {
                        crate::position::lemma_column_pick(p.mask, non_losing_play_mask, x);
                        p.lemma_safe_play(x);
                    }
                    let played = p.play(x);
                    proof {
                        crate::position::lemma_mask_bits();
                        assert((p.mask & (1u64 << landing_index(p.mask, x))) == 0);
                        assert(played.player ^ played.mask == p.player | (1u64 << landing_index(
                            p.mask,
                            x,
                        )));
                        assert(!wins(p.player | (1u64 << landing_index(p.mask, x))));
                        assert(value_of_play(p, x) == -game_value(played));
                    }
                    // negamax: the mover's score is the negation of what the
                    // opponent achieves in the child
                    let score = -self.solve_rec(played, -beta_cur, -alpha_cur);
                    proof {
                        if score <= alpha_cur {
                            // the child failed high: an underestimate only
                            assert(value_of_play(p, x) <= score);
                        } else if score < beta_cur {
                            // inside the window: the child value is exact
                            assert(value_of_play(p, x) == score);
                        } else {
                            // the child failed low: the move is worth at least
                            // the score
                            assert(value_of_play(p, x) >= score);
                        }
                        crate::position::lemma_negamax_sign(p, x);
                    }
                    if score > best {
                        best = score;
                        // raise the window's floor when a better line is found
                        if best > alpha_cur {
                            alpha_cur = best;
                        }
                        // fail high: no sibling needs to be explored
                        if alpha_cur >= beta_cur {
                            proof {
                                assert(game_value(p) >= value_of_play(p, x));
                                if beta_cur < beta {
                                    assert(game_value(p) == score);
                                }
                                // the explored column is legal and safe, so
                                // not every legal move loses
                                assert(col_height(p.mask, x) < 6 && !p.play_spec(
                                    x,
                                ).spec_can_win_next());
                            }
                            return score;
                        }
                    }
                    proof {
                        assert(value_of_play(p, x) <= best);
                        assert forall|c: u64|
                            c < 7 && #[trigger] col_height(p.mask, c) < 6 && bit(
                                non_losing_play_mask,
                                landing_index(p.mask, c),
                            ) && c != x implies (exists|k: int|
                            0 <= k < sorter.view_plays().len()
                                && (#[trigger] sorter.view_plays()[k]).0 == c) || value_of_play(
                            p,
                            c,
                        ) <= best by {
                            if exists|k: int| 0 <= k < prev.len() && (#[trigger] prev[k]).0 == c {
                                let k = choose|k: int|
                                    0 <= k < prev.len() && (#[trigger] prev[k]).0 == c;
                                assert(k < prev.len() - 1);
                                assert(sorter.view_plays()[k] == prev[k]);
                            }
                        }
                    }
                },
            }
        }
        proof {
            // every legal move is now accounted for: candidates kept by the
            // mask were searched, and moves the mask dropped lose at once,
            // which no kept move does
            crate::bitops::lemma_bit_ops();
            let jb = crate::bitops::lemma_nonzero_bit(non_losing_play_mask);
            let c0 = choose|c0: u64|
                c0 < 7 && #[trigger] col_height(p.mask, c0) < 6 && jb == 7 * c0 + col_height(
                    p.mask,
                    c0,
                );
            p.lemma_safe_play(c0);
            let child0 = p.play_spec(c0);
            crate::position::lemma_play_spec_wf(p, c0);
            assert(bit(non_losing_play_mask, landing_index(p.mask, c0)));
            assert(value_of_play(p, c0) <= best);
            assert forall|c: u64| c < 7 && #[trigger] col_height(p.mask, c) < 6 implies value_of_play(
                p,
                c,
            ) <= best by {
                if !bit(non_losing_play_mask, landing_index(p.mask, c)) {
                    crate::position::lemma_excluded_move_loses(p, non_losing_play_mask, c);
                    let child = p.play_spec(c);
                    crate::position::lemma_play_spec_wf(p, c);
                    lemma_grid_bounds(child.mask);
                    let cw = choose|cw: u64|
                        cw < 7 && #[trigger] col_height(child.mask, cw) < 6 && wins(
                            child.player | (1u64 << landing_index(child.mask, cw)),
                        );
                    assert(child.play_count < 42);
                    lemma_can_win_value(child);
                    assert(value_of_play(p, c) == -((42 - p.play_count) / 2));
                    // a losing move never beats a kept one: the kept move's
                    // child cannot win at once, so it scores strictly better
                    assert(p.play_count <= 40);
                    lemma_gv_ceiling(child0);
                    assert(value_of_play(p, c0) >= -((40 - p.play_count) / 2));
                    assert(-((42 - p.play_count) / 2) == -((40 - p.play_count) / 2) - 1);
                }
            }
            crate::position::lemma_gv_le(p, best as int);
            assert(!p.play_spec(c0).spec_can_win_next());
            if best > alpha {
                let cbest = choose|cbest: u64|
                    cbest < 7 && #[trigger] col_height(p.mask, cbest) < 6 && value_of_play(p, cbest)
                        == best;
                crate::position::lemma_negamax_sign(p, cbest);
                assert(game_value(p) == best);
            }
        }
        // a bound proven for this window, kept for later subtrees
        self.cache.insert(p.key(), best);
        proof {
            lemma_entry_pack();
            assert forall|q: Position|
                (q.wf() && !wins(q.player ^ q.mask) && !q.spec_can_win_next()
                    && #[trigger] self.cache.spec_get(spec_key(q)) != 0) implies game_value(q)
                <= self.cache.spec_get(spec_key(q)) by {
                if spec_key(q) % (CACHE_SIZE as u64) == spec_key(p) % (CACHE_SIZE as u64) {
                    if spec_key(q) == spec_key(p) {
                        crate::position::lemma_key_injective(q, p);
                    }
                }
            }
        }
        return best;
    }

    /// The exact score of `p` for the side to move: the game-theoretic
    /// value, positive if the mover wins, `0` if the game is drawn, negative
    /// if the mover loses, counted in the mover's remaining half-moves. An
    /// immediately winning column scores without any search; otherwise the
    /// exact value is found by binary search over the score range with
    /// null windows.
    pub fn solve(&mut self, p: Position) -> (score: i32)
        requires
            old(self).wf(),
            p.wf(),
            !wins(p.player ^ p.mask),
        ensures
            final(self).wf(),
            final(self).visited >= old(self).visited,
            score == game_value(p),
            -((42 - p.play_count) / 2) <= score <= (43 - p.play_count) / 2,
            p.spec_can_win_next() ==> score == (43 - p.play_count) / 2,
            p.play_count == 42 ==> score == 0,
    {
        proof {
            lemma_grid_bounds(p.mask);
            crate::position::lemma_game_value_range(p);
        }
        if p.can_win_next() {
            proof {
                let cw = choose|cw: u64|
                    cw < 7 && #[trigger] col_height(p.mask, cw) < 6 && wins(
                        p.player | (1u64 << landing_index(p.mask, cw)),
                    );
                assert(p.play_count < 42);
                lemma_can_win_value(p);
            }
            return ((WIDTH * HEIGHT + 1) as i32 - p.play_count as i32) / 2;
        }
        let mut min: i32 = -(((WIDTH * HEIGHT) as i32 - p.play_count as i32) / 2);
        let mut max: i32 = ((WIDTH * HEIGHT + 1) as i32 - p.play_count as i32) / 2;
        // Iterative deepening: probe one-wide windows at midpoints biased
        // toward zero, so shallow outcomes are proven before deep ones, and
        // binary-search the exact score.
        while min < max
            invariant
                self.wf(),
                self.visited >= old(self).visited,
                p.wf(),
                !wins(p.player ^ p.mask),
                !p.spec_can_win_next(),
                score_in_range(min as int),
                score_in_range(max as int),
                min <= game_value(p) <= max,
            decreases max - min,
        {
            let mut mid = min + (max - min) / 2;
            if mid <= 0 && min / 2 < mid {
                mid = min / 2;
            } else if mid >= 0 && max / 2 > mid {
                mid = max / 2;
            }
            proof {
                assert(min <= mid < max);
            }
            // does the true score exceed mid?
            let shallow_score = self.solve_rec(p, mid, mid + 1);
            if shallow_score > mid {
                // a bound from below: the window failed high
                min = shallow_score;
            } else {
                // a bound from above: the window failed low
                max = shallow_score;
            }
        }
        min
    }

    /// Whether the position is a win, a draw or a loss for the side to
    /// move: the sign of the result is the sign of the exact game value,
    /// and a nonzero result bounds the value from the near side. Faster
    /// than `solve` but less precise. As with the inner search, the caller
    /// rules out positions with an immediately winning column first.
    pub fn solve_weak(&mut self, p: Position) -> (score: i32)
        requires
            old(self).wf(),
            p.wf(),
            !wins(p.player ^ p.mask),
            !p.spec_can_win_next(),
        ensures
            final(self).wf(),
            final(self).visited >= old(self).visited,
            score_in_range(score as int),
            score > 0 <==> game_value(p) > 0,
            score == 0 <==> game_value(p) == 0,
            score < 0 <==> game_value(p) < 0,
            score > 0 ==> score <= game_value(p),
            score < 0 ==> game_value(p) <= score,
    {
        let score = self.solve_rec(p, -1, 1);
        proof {
            if -1 < score < 1 {
                assert(score == 0);
            }
        }
        score
    }

    /// A column whose move is best for the side to move: each legal column
    /// is scored by the value the mover obtains there, and a column of
    /// maximal value is returned. Ties go to the column that comes first in
    /// the fixed center-out priority: every legal column earlier in that
    /// order is strictly worse.
    pub fn best_play(&mut self, p: Position) -> (col: u64)
        requires
            old(self).wf(),
            p.wf(),
            !wins(p.player ^ p.mask),
            p.play_count < 42,
        ensures
            final(self).wf(),
            col < 7,
            col_height(p.mask, col) < 6,
            forall|c: u64| c < 7 && #[trigger] col_height(p.mask, c) < 6 ==> value_of_play(p, c)
                <= value_of_play(p, col),
            exists|i: u64|
                i < 7 && #[trigger] Self::spec_play_order(i) == col && (forall|j: u64|
                    j < i && col_height(p.mask, #[trigger] Self::spec_play_order(j)) < 6
                        ==> value_of_play(p, Self::spec_play_order(j)) < value_of_play(p, col)),
    {
        proof {
            lemma_grid_bounds(p.mask);
            lemma_move_exists(p.mask);
        }
        let mut best_col: u64 = 7;
        let mut best_score: i32 = 0;
        let mut i: u64 = 0;
        while i < WIDTH
            invariant
                i <= 7,
                self.wf(),
                self.visited >= old(self).visited,
                p.wf(),
                !wins(p.player ^ p.mask),
                p.play_count < 42,
                best_col == 7 || best_col < 7,
                best_col == 7 ==> forall|j: u64|
                    j < i ==> col_height(p.mask, #[trigger] Self::spec_play_order(j)) >= 6,
                best_col < 7 ==> {
                    &&& col_height(p.mask, best_col) < 6
                    &&& best_score == value_of_play(p, best_col)
                    &&& (forall|j: u64|
                        j < i && col_height(p.mask, #[trigger] Self::spec_play_order(j)) < 6
                            ==> value_of_play(p, Self::spec_play_order(j)) <= best_score)
                    &&& exists|i0: u64|
                        i0 < i && #[trigger] Self::spec_play_order(i0) == best_col && (forall|
                            j: u64,
                        |
                            j < i0 && col_height(p.mask, #[trigger] Self::spec_play_order(j)) < 6
                                ==> value_of_play(p, Self::spec_play_order(j)) < best_score)
                },
            decreases 7 - i,
        {
            let c = Self::play_order(i);
            if p.is_valid_play(c) {
                let s = if p.is_winning_play(c) {
                    // winning at once is the best this move could do
                    ((WIDTH * HEIGHT + 1) as i32 - p.play_count as i32) / 2
                } else {
                    let played = p.play(c);
                    proof {
                        crate::position::lemma_mask_bits();
                        assert((p.mask & (1u64 << landing_index(p.mask, c))) == 0);
                        assert(played.player ^ played.mask == p.player | (1u64 << landing_index(
                            p.mask,
                            c,
                        )));
                    }
                    -self.solve(played)
                };
                proof {
                    assert(s == value_of_play(p, c));
                }
                if best_col == 7 || s > best_score {
                    best_col = c;
                    best_score = s;
                }
            }
            i = i + 1;
        }
        proof {
            assert(Self::spec_play_order(0) == 3 && Self::spec_play_order(1) == 2
                && Self::spec_play_order(2) == 4 && Self::spec_play_order(3) == 1
                && Self::spec_play_order(4) == 5 && Self::spec_play_order(5) == 0
                && Self::spec_play_order(6) == 6);
            let ec = choose|ec: u64| ec < 7 && #[trigger] col_height(p.mask, ec) < 6;
            if best_col == 7 {
                assert(false);
            }
            assert forall|c: u64| c < 7 && #[trigger] col_height(p.mask, c) < 6 implies value_of_play(
                p,
                c,
            ) <= value_of_play(p, best_col) by {
                let j: u64 = if c == 3 {
                    0
                } else if c == 2 {
                    1
                } else if c == 4 {
                    2
                } else if c == 1 {
                    3
                } else if c == 5 {
                    4
                } else if c == 0 {
                    5
                } else {
                    6
                };
                assert(Self::spec_play_order(j) == c);
            }
        }
        best_col
    }

    /// Forget everything from earlier solves: the visited counter is zero
    /// again and the cache knows no bound, so nothing from an unrelated
    /// board can leak into the next search.
    pub fn reset(&mut self)
        requires
            old(self).wf(),
        ensures
            final(self).wf(),
            final(self).visited == 0,
            forall|k: u64| #[trigger] final(self).cache.spec_get(k) == 0,
    {
        self.visited = 0;
        self.cache.clear();
    }
}

} // verus!
