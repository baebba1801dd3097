//! Properties of the search: which move it chooses, and that alpha-beta
//! pruning never changes the result at the root.
use vstd::prelude::*;
use crate::board::{
    Marker, Outcome, col_same, diag_winner, full, has_line, lemma_open_cells,
    lemma_open_cells_fill, main_diag_same, open_cells, outcome, row_same, secondary_diag_same,
    side_marker, win_of, winner, winner_from,
};
use crate::engine::{
    alphabeta, alphabeta_scan, child_of, cutoff, improve, minimax, minimax_scan, next_alpha,
    next_beta,
};

verus! {

/// The minimax score of the board after the side to move takes cell `k`.
pub open spec fn child_score(g: Seq<Option<Marker>>, maximize: bool, depth: int, k: int) -> int {
    minimax(child_of(g, maximize, k), !maximize, depth + 1).0
}

/// `v` is at least as good as `w` for the side to move.
pub open spec fn no_worse(maximize: bool, v: int, w: int) -> bool {
    if maximize {
        v >= w
    } else {
        v <= w
    }
}

/// What holds of the best (score, cell) after the first `i` empty cells.
pub open spec fn scan_best_ok(
    g: Seq<Option<Marker>>,
    maximize: bool,
    depth: int,
    i: int,
    best: Option<(int, int)>,
) -> bool {
    match best {
        None => i == 0,
        Some(b) => {
            &&& exists|q: int| 0 <= q < i && open_cells(g)[q] == b.1
            &&& b.0 == child_score(g, maximize, depth, b.1)
            &&& forall|p: int|
                0 <= p < i ==> no_worse(
                    maximize,
                    b.0,
                    #[trigger] child_score(g, maximize, depth, open_cells(g)[p]),
                )
            &&& forall|p: int|
                0 <= p < i && open_cells(g)[p] < b.1 ==> #[trigger] child_score(
                    g,
                    maximize,
                    depth,
                    open_cells(g)[p],
                ) != b.0
        },
    }
}

proof fn lemma_minimax_scan_choice(
    g: Seq<Option<Marker>>,
    maximize: bool,
    depth: int,
    i: int,
    best: Option<(int, int)>,
)
    requires
        g.len() == 9,
        0 <= i <= open_cells(g).len(),
        0 < open_cells(g).len(),
        scan_best_ok(g, maximize, depth, i, best),
    ensures
        minimax_scan(g, maximize, depth, i, best).1 is Some,
        scan_best_ok(
            g,
            maximize,
            depth,
            open_cells(g).len() as int,
            Some(
                (
                    minimax_scan(g, maximize, depth, i, best).0,
                    minimax_scan(g, maximize, depth, i, best).1->0,
                ),
            ),
        ),
    decreases open_cells(g).len() - i,
{
    lemma_open_cells(g);
    let open = open_cells(g);
    if i < open.len() {
        let k = open[i];
        let v = child_score(g, maximize, depth, k);
        let nb = improve(best, v, k, maximize);
        assert(scan_best_ok(g, maximize, depth, i + 1, Some(nb))) by {
            match best {
                None => {
                    assert(open[0] == nb.1);
                },
                Some(b) => {
                    let q = choose|q: int| 0 <= q < i && open_cells(g)[q] == b.1;
                    if nb == b {
                        assert(open[q] < open[i]);
                        assert(0 <= q < i + 1 && open_cells(g)[q] == nb.1);
                    } else {
                        assert(open[i] == nb.1);
                    }
                },
            }
        }
        lemma_minimax_scan_choice(g, maximize, depth, i + 1, Some(nb));
    }
}

/// The move that the search chooses on a board whose game goes on is an
/// empty cell; its score is the board's score; no empty cell scores better
/// for the side to move; and every empty cell before it in row-major order
/// scores strictly worse, so that ties go to the first cell.
pub proof fn lemma_search_choice(g: Seq<Option<Marker>>, maximize: bool, depth: int)
    requires
        g.len() == 9,
        outcome(g) == Outcome::Ongoing,
    ensures
        minimax(g, maximize, depth).1 is Some,
        ({
            let (v, m) = minimax(g, maximize, depth);
            let k = m->0;
            &&& 0 <= k < 9
            &&& g[k] is None
            &&& v == child_score(g, maximize, depth, k)
            &&& forall|j: int|
                0 <= j < 9 && g[j] is None ==> no_worse(
                    maximize,
                    v,
                    #[trigger] child_score(g, maximize, depth, j),
                )
            &&& forall|j: int|
                0 <= j < k && g[j] is None ==> #[trigger] child_score(g, maximize, depth, j) != v
        }),
{
    lemma_open_cells(g);
    let open = open_cells(g);
    lemma_minimax_scan_choice(g, maximize, depth, 0, None);
    let (v, m) = minimax(g, maximize, depth);
    let k = m->0;
    let q = choose|q: int| 0 <= q < open.len() && open[q] == k;
    assert forall|j: int| 0 <= j < 9 && g[j] is None implies no_worse(
        maximize,
        v,
        #[trigger] child_score(g, maximize, depth, j),
    ) by {
        assert(open.contains(j));
        let p = choose|p: int| 0 <= p < open.len() && open[p] == j;
        assert(no_worse(maximize, v, child_score(g, maximize, depth, open[p])));
    }
    assert forall|j: int| 0 <= j < k && g[j] is None implies #[trigger] child_score(
        g,
        maximize,
        depth,
        j,
    ) != v by {
        assert(open.contains(j));
        let p = choose|p: int| 0 <= p < open.len() && open[p] == j;
        assert(open[p] < k);
        assert(child_score(g, maximize, depth, open[p]) != v);
    }
}

/// If the maximizing side can reach a score of at least 0 (a draw or
/// better) with some move, the move chosen does not lead to a loss.
pub proof fn lemma_no_needless_loss(g: Seq<Option<Marker>>, depth: int, j: int)
    requires
        g.len() == 9,
        outcome(g) == Outcome::Ongoing,
        0 <= j < 9,
        g[j] is None,
        child_score(g, true, depth, j) >= 0,
    ensures
        minimax(g, true, depth).1 is Some,
        minimax(g, true, depth).0 >= 0,
        child_score(g, true, depth, minimax(g, true, depth).1->0) >= 0,
{
    lemma_search_choice(g, true, depth);
    assert(no_worse(true, minimax(g, true, depth).0, child_score(g, true, depth, j)));
}


/// `v` lies above the lower bound `lo` (`None` is unbounded).
pub open spec fn above(v: int, lo: Option<int>) -> bool {
    match lo {
        Some(a) => v > a,
        None => true,
    }
}

/// `v` lies below the upper bound `hi` (`None` is unbounded).
pub open spec fn below(v: int, hi: Option<int>) -> bool {
    match hi {
        Some(b) => v < b,
        None => true,
    }
}

/// The bounds leave a non-empty window.
pub open spec fn ordered(lo: Option<int>, hi: Option<int>) -> bool {
    match (lo, hi) {
        (Some(a), Some(b)) => a < b,
        _ => true,
    }
}

/// `r` agrees with the true score `v` as far as the window (`lo`, `hi`)
/// can tell: exactly inside it, and on the same side of a bound outside it.
pub open spec fn window(r: int, v: int, lo: Option<int>, hi: Option<int>) -> bool {
    &&& above(v, lo) && below(v, hi) ==> r == v
    &&& !above(v, lo) ==> !above(r, lo)
    &&& !below(v, hi) ==> !below(r, hi)
}

/// How the state of the pruned scan relates to that of the full one.
pub open spec fn pruned_state_ok(
    maximize: bool,
    a0: Option<int>,
    b0: Option<int>,
    alpha: Option<int>,
    beta: Option<int>,
    bp: Option<(int, int)>,
    bu: Option<(int, int)>,
) -> bool {
    match bu {
        None => bp is None && alpha == a0 && beta == b0,
        Some(u) => {
            &&& bp is Some
            &&& window((bp->0).0, u.0, a0, b0)
            &&& maximize ==> below(u.0, b0) && alpha == next_alpha(true, a0, u.0) && beta == b0
            &&& !maximize ==> above(u.0, a0) && beta == next_beta(false, b0, u.0) && alpha == a0
        },
    }
}

proof fn lemma_minimax_scan_monotone(
    g: Seq<Option<Marker>>,
    maximize: bool,
    depth: int,
    i: int,
    b: (int, int),
)
    requires
        g.len() == 9,
        0 <= i,
    ensures
        no_worse(maximize, minimax_scan(g, maximize, depth, i, Some(b)).0, b.0),
    decreases open_cells(g).len() - i,
{
    if i < open_cells(g).len() {
        let k = open_cells(g)[i];
        let v = child_score(g, maximize, depth, k);
        lemma_minimax_scan_monotone(g, maximize, depth, i + 1, improve(Some(b), v, k, maximize));
    }
}

proof fn lemma_alphabeta_scan_window(
    g: Seq<Option<Marker>>,
    maximize: bool,
    depth: int,
    a0: Option<int>,
    b0: Option<int>,
    alpha: Option<int>,
    beta: Option<int>,
    i: int,
    bp: Option<(int, int)>,
    bu: Option<(int, int)>,
)
    requires
        g.len() == 9,
        0 <= i,
        ordered(a0, b0),
        pruned_state_ok(maximize, a0, b0, alpha, beta, bp, bu),
    ensures
        window(
            alphabeta_scan(g, maximize, depth, alpha, beta, i, bp).0,
            minimax_scan(g, maximize, depth, i, bu).0,
            a0,
            b0,
        ),
    decreases open_cells(g).len(), open_cells(g).len() - i,
{
    lemma_open_cells(g);
    if i < open_cells(g).len() {
        let k = open_cells(g)[i];
        let c = child_of(g, maximize, k);
        lemma_open_cells_fill(g, k, if maximize { Marker::Player } else { Marker::Enemy }, 0);
        assert(ordered(alpha, beta));
        lemma_alphabeta_window(c, !maximize, depth + 1, alpha, beta);
        let vu = minimax(c, !maximize, depth + 1).0;
        let vp = alphabeta(c, !maximize, depth + 1, alpha, beta).0;
        let nu = improve(bu, vu, k, maximize);
        let np = improve(bp, vp, k, maximize);
        if cutoff(maximize, alpha, beta, np.0) {
            lemma_minimax_scan_monotone(g, maximize, depth, i + 1, nu);
        } else {
            assert(pruned_state_ok(
                maximize,
                a0,
                b0,
                next_alpha(maximize, alpha, np.0),
                next_beta(maximize, beta, np.0),
                Some(np),
                Some(nu),
            ));
            lemma_alphabeta_scan_window(
                g,
                maximize,
                depth,
                a0,
                b0,
                next_alpha(maximize, alpha, np.0),
                next_beta(maximize, beta, np.0),
                i + 1,
                Some(np),
                Some(nu),
            );
        }
    }
}

/// Alpha-beta search within a non-empty window (`alpha`, `beta`) returns the
/// exact minimax score when that score lies inside the window, and a score on
/// the same side of the bound when it does not.
pub proof fn lemma_alphabeta_window(
    g: Seq<Option<Marker>>,
    maximize: bool,
    depth: int,
    alpha: Option<int>,
    beta: Option<int>,
)
    requires
        g.len() == 9,
        ordered(alpha, beta),
    ensures
        window(
            alphabeta(g, maximize, depth, alpha, beta).0,
            minimax(g, maximize, depth).0,
            alpha,
            beta,
        ),
    decreases open_cells(g).len(), open_cells(g).len() + 1,
{
    if outcome(g) == Outcome::Ongoing {
        lemma_alphabeta_scan_window(g, maximize, depth, alpha, beta, alpha, beta, 0, None, None);
    }
}

/// The state of the pruned scan at the root, where both bounds start unset.
pub open spec fn root_state_ok(
    maximize: bool,
    alpha: Option<int>,
    beta: Option<int>,
    bp: Option<(int, int)>,
    bu: Option<(int, int)>,
) -> bool {
    &&& bp == bu
    &&& maximize ==> beta is None && alpha == (match bu {
        Some(u) => Some(u.0),
        None => None,
    })
    &&& !maximize ==> alpha is None && beta == (match bu {
        Some(u) => Some(u.0),
        None => None,
    })
}

proof fn lemma_root_scan(
    g: Seq<Option<Marker>>,
    maximize: bool,
    depth: int,
    alpha: Option<int>,
    beta: Option<int>,
    i: int,
    b: Option<(int, int)>,
)
    requires
        g.len() == 9,
        0 <= i,
        root_state_ok(maximize, alpha, beta, b, b),
    ensures
        alphabeta_scan(g, maximize, depth, alpha, beta, i, b) == minimax_scan(
            g,
            maximize,
            depth,
            i,
            b,
        ),
    decreases open_cells(g).len() - i,
{
    lemma_open_cells(g);
    if i < open_cells(g).len() {
        let k = open_cells(g)[i];
        let c = child_of(g, maximize, k);
        lemma_alphabeta_window(c, !maximize, depth + 1, alpha, beta);
        let vu = minimax(c, !maximize, depth + 1).0;
        let vp = alphabeta(c, !maximize, depth + 1, alpha, beta).0;
        let nu = improve(b, vu, k, maximize);
        let np = improve(b, vp, k, maximize);
        assert(np == nu);
        assert(!cutoff(maximize, alpha, beta, np.0));
        lemma_root_scan(
            g,
            maximize,
            depth,
            next_alpha(maximize, alpha, np.0),
            next_beta(maximize, beta, np.0),
            i + 1,
            Some(nu),
        );
    }
}

/// Pruning is transparent: from unset bounds, alpha-beta search returns the
/// same score and the same move as full minimax search, on every board.
pub proof fn lemma_pruning_transparent(g: Seq<Option<Marker>>, maximize: bool, depth: int)
    requires
        g.len() == 9,
    ensures
        alphabeta(g, maximize, depth, None, None) == minimax(g, maximize, depth),
{
    if outcome(g) == Outcome::Ongoing {
        lemma_root_scan(g, maximize, depth, None, None, 0, None);
    }
}


/// The scan finds a completed line exactly when one exists, and the marker
/// it reports has one.
pub proof fn lemma_winner_has_line(g: Seq<Option<Marker>>)
    ensures
        winner(g) is None <==> (!has_line(g, Marker::Player) && !has_line(g, Marker::Enemy)),
        winner(g) is Some ==> has_line(g, winner(g)->0),
{
    assert(winner_from(g, 3) == diag_winner(g));
    if winner(g) is None {
        assert(winner_from(g, 1) is None);
        assert(winner_from(g, 2) is None);
        assert(winner_from(g, 3) is None);
    } else {
        let x = winner(g)->0;
        if row_same(g, 0, x) || col_same(g, 0, x) {
        } else if winner_from(g, 1) is Some && (row_same(g, 1, x) || col_same(g, 1, x)) {
        } else if winner_from(g, 2) is Some && (row_same(g, 2, x) || col_same(g, 2, x)) {
        } else {
            assert(winner_from(g, 1) == Some(x));
            assert(winner_from(g, 2) == Some(x));
            assert(winner_from(g, 3) == Some(x));
        }
    }
}

/// Placing a marker that completes a row, column or diagonal on a board
/// without a completed line makes `evaluate` report a win for exactly that
/// marker's side.
pub proof fn lemma_completed_line_wins(g: Seq<Option<Marker>>, k: int, m: Marker)
    requires
        g.len() == 9,
        0 <= k < 9,
        g[k] is None,
        winner(g) is None,
        has_line(g.update(k, Some(m)), m),
    ensures
        outcome(g.update(k, Some(m))) == win_of(m),
        winner(g.update(k, Some(m))) == Some(m),
{
    let h = g.update(k, Some(m));
    lemma_winner_has_line(g);
    lemma_winner_has_line(h);
    let x = winner(h)->0;
    if x != m {
        assert forall|i: int| 0 <= i < 9 && h[i] == Some(x) implies g[i] == Some(x) by {
            if i == k {
                assert(h[k] == Some(m));
            }
        }
        if exists|r: int| 0 <= r < 3 && #[trigger] row_same(h, r, x) {
            let r = choose|r: int| 0 <= r < 3 && #[trigger] row_same(h, r, x);
            assert(row_same(g, r, x));
        } else if exists|c: int| 0 <= c < 3 && #[trigger] col_same(h, c, x) {
            let c = choose|c: int| 0 <= c < 3 && #[trigger] col_same(h, c, x);
            assert(col_same(g, c, x));
        } else if main_diag_same(h, x) {
            assert(main_diag_same(g, x));
        } else {
            assert(secondary_diag_same(g, x));
        }
        assert(x == Marker::Player || x == Marker::Enemy);
    }
}

/// A full board with no completed line is a draw: the search scores it 0
/// and chooses no move, with or without pruning.
pub proof fn lemma_full_board_draw(
    g: Seq<Option<Marker>>,
    maximize: bool,
    depth: int,
    alpha: Option<int>,
    beta: Option<int>,
)
    requires
        g.len() == 9,
        full(g),
        !has_line(g, Marker::Player),
        !has_line(g, Marker::Enemy),
    ensures
        outcome(g) == Outcome::Draw,
        minimax(g, maximize, depth) == (0int, None::<int>),
        alphabeta(g, maximize, depth, alpha, beta) == (0int, None::<int>),
{
    lemma_winner_has_line(g);
}

proof fn lemma_score_bound(g: Seq<Option<Marker>>, maximize: bool, depth: int)
    requires
        g.len() == 9,
        depth + open_cells(g).len() <= 9,
    ensures
        minimax(g, maximize, depth).0 <= 10 - depth,
        outcome(g) != Outcome::PlayerWins ==> minimax(g, maximize, depth).0 < 10 - depth,
    decreases open_cells(g).len(),
{
    lemma_open_cells(g);
    if outcome(g) == Outcome::Ongoing {
        lemma_search_choice(g, maximize, depth);
        let k = minimax(g, maximize, depth).1->0;
        lemma_open_cells_fill(g, k, side_marker(maximize), 0);
        lemma_score_bound(child_of(g, maximize, k), !maximize, depth + 1);
    }
}

/// When the maximizing side can win with one move, the search chooses the
/// first such cell in row-major order and scores the board with the largest
/// score available one ply deeper. The bound on `depth` holds for every board
/// that a search from depth 0 reaches.
pub proof fn lemma_immediate_win(g: Seq<Option<Marker>>, depth: int, k: int)
    requires
        g.len() == 9,
        outcome(g) == Outcome::Ongoing,
        depth + open_cells(g).len() <= 9,
        0 <= k < 9,
        g[k] is None,
        outcome(child_of(g, true, k)) == Outcome::PlayerWins,
        forall|j: int|
            0 <= j < k && g[j] is None ==> outcome(#[trigger] child_of(g, true, j))
                != Outcome::PlayerWins,
    ensures
        minimax(g, true, depth) == (10 - (depth + 1), Some(k)),
{
    lemma_open_cells(g);
    lemma_search_choice(g, true, depth);
    let w = 10 - (depth + 1);
    assert forall|j: int| 0 <= j < 9 && g[j] is None implies #[trigger] child_score(
        g,
        true,
        depth,
        j,
    ) <= w && (outcome(child_of(g, true, j)) != Outcome::PlayerWins ==> child_score(
        g,
        true,
        depth,
        j,
    ) < w) by {
        lemma_open_cells_fill(g, j, Marker::Player, 0);
        lemma_score_bound(child_of(g, true, j), false, depth + 1);
    }
    assert(child_score(g, true, depth, k) == w);
    let c = minimax(g, true, depth).1->0;
    assert(no_worse(true, minimax(g, true, depth).0, child_score(g, true, depth, k)));
    assert(child_score(g, true, depth, c) <= w);
    if c < k {
        assert(outcome(child_of(g, true, c)) != Outcome::PlayerWins);
    }
    if k < c {
        assert(child_score(g, true, depth, k) != minimax(g, true, depth).0);
    }
}

} // verus!
