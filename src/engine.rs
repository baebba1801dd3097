//! Exhaustive minimax search with optional alpha-beta pruning.
//!
//! Scores are from the point of view of `Player`, the maximizing side: a win
//! for `Player` reached at depth `d` scores `MAX_SOLUTION_DEPTH - d`, a win for
//! `Enemy` the negation of that, and a draw 0, so that faster wins and slower
//! losses are preferred.
use vstd::prelude::*;
use crate::laws::{lemma_pruning_transparent, lemma_search_choice};
use crate::board::{
    Board, GameError, Marker, Outcome, coords, lemma_open_cells, lemma_open_cells_fill, open_cells, outcome,
    side_marker,
};

verus! {

/// One more than the number of cells: the score of a win at depth 0.
pub const MAX_SOLUTION_DEPTH: i32 = 10;

/// The score of a finished game reached at `depth`.
pub open spec fn terminal_score(g: Seq<Option<Marker>>, depth: int) -> int {
    match outcome(g) {
        Outcome::PlayerWins => 10 - depth,
        Outcome::EnemyWins => -(10 - depth),
        _ => 0,
    }
}

/// The grid after the side to move places its marker on cell `k`.
pub open spec fn child_of(g: Seq<Option<Marker>>, maximize: bool, k: int) -> Seq<Option<Marker>> {
    g.update(k, Some(side_marker(maximize)))
}

/// The best (score, cell) so far after cell `k` scored `v`: the new cell
/// replaces the best only when strictly better for the side to move.
pub open spec fn improve(best: Option<(int, int)>, v: int, k: int, maximize: bool) -> (int, int) {
    match best {
        None => (v, k),
        Some(b) => if (maximize && v > b.0) || (!maximize && v < b.0) {
            (v, k)
        } else {
            b
        },
    }
}

/// A search result from the best (score, cell) found.
pub open spec fn finish(best: Option<(int, int)>) -> (int, Option<int>) {
    match best {
        Some(b) => (b.0, Some(b.1)),
        None => (0, None),
    }
}

/// The full minimax result (score, chosen cell) of `g` with the side given by
/// `maximize` to move, at `depth` plies from the root.
pub open spec fn minimax(g: Seq<Option<Marker>>, maximize: bool, depth: int) -> (int, Option<int>)
    decreases open_cells(g).len(), open_cells(g).len() + 1,
{
    if outcome(g) != Outcome::Ongoing {
        (terminal_score(g, depth), None)
    } else {
        minimax_scan(g, maximize, depth, 0, None)
    }
}

/// Minimax over the empty cells of `g` from position `i` of `open_cells(g)` on,
/// with `best` the best (score, cell) among the earlier ones.
pub open spec fn minimax_scan(
    g: Seq<Option<Marker>>,
    maximize: bool,
    depth: int,
    i: int,
    best: Option<(int, int)>,
) -> (int, Option<int>)
    decreases open_cells(g).len(), open_cells(g).len() - i,
{
    if g.len() != 9 || i < 0 || i >= open_cells(g).len() {
        finish(best)
    } else {
        let k = open_cells(g)[i];
        proof {
            lemma_open_cells(g);
            lemma_open_cells_fill(g, k, side_marker(maximize), 0);
        }
        let v = minimax(child_of(g, maximize, k), !maximize, depth + 1).0;
        minimax_scan(g, maximize, depth, i + 1, Some(improve(best, v, k, maximize)))
    }
}

/// Whether a node stops expanding once its best score is `v`: a maximizing
/// node at or above `beta`, a minimizing node at or below `alpha`.
pub open spec fn cutoff(maximize: bool, alpha: Option<int>, beta: Option<int>, v: int) -> bool {
    if maximize {
        beta is Some && v >= beta->0
    } else {
        alpha is Some && v <= alpha->0
    }
}

/// The lower bound handed on after a maximizing node's best became `v`.
pub open spec fn next_alpha(maximize: bool, alpha: Option<int>, v: int) -> Option<int> {
    if !maximize {
        alpha
    } else {
        match alpha {
            Some(a) => Some(if a > v { a } else { v }),
            None => Some(v),
        }
    }
}

/// The upper bound handed on after a minimizing node's best became `v`.
pub open spec fn next_beta(maximize: bool, beta: Option<int>, v: int) -> Option<int> {
    if maximize {
        beta
    } else {
        match beta {
            Some(b) => Some(if b < v { b } else { v }),
            None => Some(v),
        }
    }
}

/// The alpha-beta result (score, chosen cell) of `g` within the bounds
/// `alpha` and `beta` (`None` is unbounded).
pub open spec fn alphabeta(
    g: Seq<Option<Marker>>,
    maximize: bool,
    depth: int,
    alpha: Option<int>,
    beta: Option<int>,
) -> (int, Option<int>)
    decreases open_cells(g).len(), open_cells(g).len() + 1,
{
    if outcome(g) != Outcome::Ongoing {
        (terminal_score(g, depth), None)
    } else {
        alphabeta_scan(g, maximize, depth, alpha, beta, 0, None)
    }
}

/// Alpha-beta over the empty cells of `g` from position `i` of
/// `open_cells(g)` on, with the bounds and the best (score, cell) so far.
pub open spec fn alphabeta_scan(
    g: Seq<Option<Marker>>,
    maximize: bool,
    depth: int,
    alpha: Option<int>,
    beta: Option<int>,
    i: int,
    best: Option<(int, int)>,
) -> (int, Option<int>)
    decreases open_cells(g).len(), open_cells(g).len() - i,
{
    if g.len() != 9 || i < 0 || i >= open_cells(g).len() {
        finish(best)
    } else {
        let k = open_cells(g)[i];
        proof {
            lemma_open_cells(g);
            lemma_open_cells_fill(g, k, side_marker(maximize), 0);
        }
        let v = alphabeta(child_of(g, maximize, k), !maximize, depth + 1, alpha, beta).0;
        let b = improve(best, v, k, maximize);
        if cutoff(maximize, alpha, beta, b.0) {
            (b.0, Some(b.1))
        } else {
            alphabeta_scan(
                g,
                maximize,
                depth,
                next_alpha(maximize, alpha, b.0),
                next_beta(maximize, beta, b.0),
                i + 1,
                Some(b),
            )
        }
    }
}

/// What the engine computes: alpha-beta when `prune`, else plain minimax.
pub open spec fn search(
    g: Seq<Option<Marker>>,
    maximize: bool,
    depth: int,
    alpha: Option<int>,
    beta: Option<int>,
    prune: bool,
) -> (int, Option<int>) {
    if prune {
        alphabeta(g, maximize, depth, alpha, beta)
    } else {
        minimax(g, maximize, depth)
    }
}

/// A bound as an integer bound.
pub open spec fn widen(o: Option<i32>) -> Option<int> {
    match o {
        Some(v) => Some(v as int),
        None => None,
    }
}

/// A chosen cell as a (row, column) pair.
pub open spec fn coords_of(m: Option<int>) -> Option<(usize, usize)> {
    match m {
        Some(k) => Some(coords(k)),
        None => None,
    }
}

/// The best (score, row, column) of the search loop stands for the best
/// (score, cell) of the specification.
pub open spec fn best_matches(best: Option<(i32, usize, usize)>, best_s: Option<(int, int)>) -> bool {
    match best {
        Some(b) => best_s is Some && b.0 == (best_s->0).0 && (b.1, b.2) == coords((best_s->0).1),
        None => best_s is None,
    }
}

impl Board {
    /// Scores this board for the side given by `maximize` at `depth` plies
    /// from the root and returns the score with the chosen (row, column), or
    /// no move on a finished game. With `prune`, alpha-beta cutoffs within
    /// the bounds `alpha` and `beta` skip children that cannot change the result.
    pub fn move_enemy_helper(
        &self,
        maximize: bool,
        depth: usize,
        alpha: Option<i32>,
        beta: Option<i32>,
        prune: bool,
    ) -> (r: (i32, Option<(usize, usize)>))
        requires
            depth + open_cells(self@).len() <= i32::MAX,
        ensures
            r.0 == search(self@, maximize, depth as int, widen(alpha), widen(beta), prune).0,
            r.1 == coords_of(search(self@, maximize, depth as int, widen(alpha), widen(beta), prune).1),
            r.1 is Some <==> outcome(self@) == Outcome::Ongoing,
        decreases open_cells(self@).len(),
    {
        let ghost g = self@;
        proof {
            lemma_open_cells(g);
        }
        let children = self.generate_children(maximize);
        let value = self.evaluate();
        if value != Outcome::Ongoing {
            if value == Outcome::Draw {
                return (0, None);
            }
            let score = MAX_SOLUTION_DEPTH - depth as i32;
            if value == Outcome::PlayerWins {
                return (score, None);
            }
            return (-score, None);
        }
        let ghost alpha0 = widen(alpha);
        let ghost beta0 = widen(beta);
        let mut lo = alpha;
        let mut hi = beta;
        let mut best: Option<(i32, usize, usize)> = None;
        let ghost mut best_s: Option<(int, int)> = None;
        let mut i: usize = 0;
        while i < children.len()
            invariant
                g == self@,
                g.len() == 9,
                alpha0 == widen(alpha),
                beta0 == widen(beta),
                outcome(g) == Outcome::Ongoing,
                depth + open_cells(g).len() <= i32::MAX,
                children@.len() == open_cells(g).len(),
                forall|p: int|
                    0 <= p < children@.len() ==> {
                        let k = #[trigger] open_cells(g)[p];
                        &&& children@[p].0@ == child_of(g, maximize, k)
                        &&& (children@[p].1, children@[p].2) == coords(k)
                    },
                forall|p: int|
                    0 <= p < open_cells(g).len() ==> 0 <= #[trigger] open_cells(g)[p] < 9
                        && g[open_cells(g)[p]] is None,
                i <= children@.len(),
                best is None <==> i == 0,
                best_matches(best, best_s),
                prune ==> alphabeta(g, maximize, depth as int, alpha0, beta0) == alphabeta_scan(
                    g,
                    maximize,
                    depth as int,
                    widen(lo),
                    widen(hi),
                    i as int,
                    best_s,
                ),
                !prune ==> minimax(g, maximize, depth as int) == minimax_scan(
                    g,
                    maximize,
                    depth as int,
                    i as int,
                    best_s,
                ),
            decreases children@.len() - i,
        {
            let (child, x, y) = children[i];
            let ghost k = open_cells(g)[i as int];
            proof {
                lemma_open_cells_fill(g, k, side_marker(maximize), 0);
            }
            let (value, _) = child.move_enemy_helper(!maximize, depth + 1, lo, hi, prune);
            let improved = match best {
                None => true,
                Some(b) => if maximize {
                    value > b.0
                } else {
                    value < b.0
                },
            };
            if improved {
                best = Some((value, x, y));
            }
            proof {
                best_s = Some(improve(best_s, value as int, k, maximize));
            }
            let (bv, bx, by) = match best {
                Some(b) => b,
                None => (0, 0, 0),
            };
            if prune {
                if maximize {
                    if let Some(b) = hi {
                        if bv >= b {
                            return (bv, Some((bx, by)));
                        }
                    }
                    lo = match lo {
                        Some(a) => Some(if a > bv { a } else { bv }),
                        None => Some(bv),
                    };
                } else {
                    if let Some(a) = lo {
                        if bv <= a {
                            return (bv, Some((bx, by)));
                        }
                    }
                    hi = match hi {
                        Some(b) => Some(if b < bv { b } else { bv }),
                        None => Some(bv),
                    };
                }
            }
            i += 1;
        }
        match best {
            Some(b) => (b.0, Some((b.1, b.2))),
            None => (0, None),
        }
    }
}

impl Board {
    /// The move of the automated, minimizing side: the cell that full minimax
    /// search chooses from depth 0, whether or not `prune` is set. On a board
    /// whose game is over there is no move to make.
    pub fn choose_move(&self, prune: bool) -> (r: Result<(usize, usize), GameError>)
        ensures
            outcome(self@) != Outcome::Ongoing ==> r == Err::<(usize, usize), GameError>(
                GameError::NoLegalMoves,
            ),
            outcome(self@) == Outcome::Ongoing ==> {
                let k = minimax(self@, false, 0).1->0;
                &&& minimax(self@, false, 0).1 is Some
                &&& 0 <= k < 9
                &&& self@[k] is None
                &&& r == Ok::<(usize, usize), GameError>(coords(k))
            },
    {
        proof {
            lemma_open_cells(self@);
            lemma_pruning_transparent(self@, false, 0);
            if outcome(self@) == Outcome::Ongoing {
                lemma_search_choice(self@, false, 0);
            }
        }
        let (_, m) = self.move_enemy_helper(false, 0, None, None, prune);
        match m {
            Some(c) => Ok(c),
            None => Err(GameError::NoLegalMoves),
        }
    }

    /// Chooses the automated side's move as `choose_move` does and places an
    /// `Enemy` marker there; on a finished game the board is left unchanged.
    pub fn move_enemy(&mut self, prune: bool) -> (r: Result<(usize, usize), GameError>)
        ensures
            outcome(old(self)@) != Outcome::Ongoing ==> r == Err::<(usize, usize), GameError>(
                GameError::NoLegalMoves,
            ) && final(self)@ == old(self)@,
            outcome(old(self)@) == Outcome::Ongoing ==> {
                let k = minimax(old(self)@, false, 0).1->0;
                &&& r == Ok::<(usize, usize), GameError>(coords(k))
                &&& final(self)@ == old(self)@.update(k, Some(Marker::Enemy))
            },
    {
        match self.choose_move(prune) {
            Ok((x, y)) => {
                self.set_enemy(x, y);
                Ok((x, y))
            },
            Err(e) => Err(e),
        }
    }
}

} // verus!
