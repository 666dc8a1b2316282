use crate::grid::{
    blank_grid, cell_earlier, cell_free_at, first_free_cell, find_free_cell, grid_count,
    grid_view, lemma_first_free_exists, lemma_grid_count_full, lemma_grid_count_update,
    make_blank_grid, set_cell,
};
use crate::rng::{draw_in_range, entropy_seed, rng_from_seed, std_rng_draw};
use vstd::prelude::*;

verus! {

/// How many candidate cells one ball may reject before placement falls back
/// to the first free cell in scan order. The bound keeps placement finite;
/// a run of this many collisions is out of reach in practice.
pub const MAX_DRAW_ATTEMPTS: usize = 10000;

/// Parameters for board generation: grid dimensions and the inclusive
/// range from which the number of hidden balls is drawn.
#[derive(Debug, Eq, PartialEq)]
pub struct GameParams {
    pub width: usize,
    pub height: usize,
    pub min_balls: usize,
    pub max_balls: usize,
}

impl GameParams {
    /// Plain constructor; performs no validation.
    pub fn new(width: usize, height: usize, min_balls: usize, max_balls: usize) -> (r: GameParams)
        ensures
            r.width == width,
            r.height == height,
            r.min_balls == min_balls,
            r.max_balls == max_balls,
    {
        Self { width, height, min_balls, max_balls }
    }
}

/// A generated board: its dimensions, the number of hidden balls, and the
/// occupancy grid, `grid[x][y]` marking a ball at position (x, y).
#[derive(Debug, Eq, PartialEq)]
pub struct GameState {
    pub width: usize,
    pub height: usize,
    pub n_balls: usize,
    pub grid: Vec<Vec<bool>>,
}

/// The generation history after `k` further candidate draws, each of which
/// asks for an x coordinate in [0, w) and then a y coordinate in [0, h).
pub open spec fn draws_after(history: Seq<(int, int)>, w: int, h: int, k: nat) -> Seq<(int, int)>
    decreases k,
{
    if k == 0 {
        history
    } else {
        draws_after(history, w, h, (k - 1) as nat).push((0, w)).push((0, h))
    }
}

/// The x coordinate of the k-th candidate cell drawn after `history`.
pub open spec fn cand_x(seed: u64, history: Seq<(int, int)>, w: int, h: int, k: nat) -> int {
    std_rng_draw(seed, draws_after(history, w, h, k), 0, w)
}

/// The y coordinate of the k-th candidate cell drawn after `history`.
pub open spec fn cand_y(seed: u64, history: Seq<(int, int)>, w: int, h: int, k: nat) -> int {
    std_rng_draw(seed, draws_after(history, w, h, k).push((0, w)), 0, h)
}

/// The k-th candidate cell drawn after `history` lands on a free cell of `g`.
pub open spec fn cand_free(
    seed: u64,
    history: Seq<(int, int)>,
    g: Seq<Seq<bool>>,
    w: int,
    h: int,
    k: nat,
) -> bool {
    cell_free_at(g, cand_x(seed, history, w, h, k), cand_y(seed, history, w, h, k))
}

/// Some candidate within the attempt bound lands on a free cell.
pub open spec fn hit_within_limit(
    seed: u64,
    history: Seq<(int, int)>,
    g: Seq<Seq<bool>>,
    w: int,
    h: int,
) -> bool {
    exists|k: nat| k < MAX_DRAW_ATTEMPTS && cand_free(seed, history, g, w, h, k)
}

/// The first candidate within the attempt bound that lands on a free cell.
pub open spec fn first_hit(
    seed: u64,
    history: Seq<(int, int)>,
    g: Seq<Seq<bool>>,
    w: int,
    h: int,
) -> nat {
    choose|k: nat|
        k < MAX_DRAW_ATTEMPTS && cand_free(seed, history, g, w, h, k) && (forall|j: nat|
            j < k ==> !cand_free(seed, history, g, w, h, j))
}

/// The grid and history after placing one more ball: the first free candidate
/// cell if one comes within the attempt bound, else the first free cell in
/// scan order after the full run of rejected draws.
pub open spec fn place_one_ball(
    seed: u64,
    g: Seq<Seq<bool>>,
    history: Seq<(int, int)>,
    w: int,
    h: int,
) -> (Seq<Seq<bool>>, Seq<(int, int)>) {
    if hit_within_limit(seed, history, g, w, h) {
        let k = first_hit(seed, history, g, w, h);
        let x = cand_x(seed, history, w, h, k);
        let y = cand_y(seed, history, w, h, k);
        (g.update(x, g[x].update(y, true)), draws_after(history, w, h, k + 1))
    } else {
        let c = first_free_cell(g);
        (
            g.update(c.0, g[c.0].update(c.1, true)),
            draws_after(history, w, h, MAX_DRAW_ATTEMPTS as nat),
        )
    }
}

/// The grid and history after placing `n` balls in order.
pub open spec fn place_balls(
    seed: u64,
    g: Seq<Seq<bool>>,
    history: Seq<(int, int)>,
    w: int,
    h: int,
    n: nat,
) -> (Seq<Seq<bool>>, Seq<(int, int)>)
    decreases n,
{
    if n == 0 {
        (g, history)
    } else {
        let prev = place_balls(seed, g, history, w, h, (n - 1) as nat);
        place_one_ball(seed, prev.0, prev.1, w, h)
    }
}

/// The history after the one ball-count draw that opens every generation.
pub open spec fn start_history(p: GameParams) -> Seq<(int, int)> {
    Seq::empty().push((p.min_balls as int, p.max_balls as int + 1))
}

/// The ball count that the seed determines: the first draw, taken from
/// [min_balls, max_balls] inclusive.
pub open spec fn seeded_ball_count(p: GameParams, seed: u64) -> int {
    std_rng_draw(seed, Seq::empty(), p.min_balls as int, p.max_balls as int + 1)
}

/// The occupancy grid that the seed determines.
pub open spec fn seeded_grid(p: GameParams, seed: u64) -> Seq<Seq<bool>> {
    place_balls(
        seed,
        blank_grid(p.width as nat, p.height as nat),
        start_history(p),
        p.width as int,
        p.height as int,
        seeded_ball_count(p, seed) as nat,
    ).0
}

/// What generation asks of its parameters: non-degenerate dimensions, an
/// ordered ball range whose upper end leaves room for the count draw, and
/// no more balls asked for than the grid has cells.
pub open spec fn valid_params(p: GameParams) -> bool {
    &&& 1 <= p.width
    &&& 1 <= p.height
    &&& p.min_balls <= p.max_balls
    &&& p.max_balls < usize::MAX
    &&& p.max_balls <= p.width * p.height
}

/// A well-formed board: the grid has exactly `width` rows of `height`
/// cells, and exactly `n_balls` of them are occupied.
pub open spec fn wf_board(s: GameState) -> bool {
    &&& s.grid@.len() == s.width
    &&& (forall|x: int| 0 <= x < s.grid@.len() ==> (#[trigger] s.grid@[x])@.len() == s.height)
    &&& grid_count(grid_view(s.grid)) == s.n_balls
}

/// The board is the one that `p` and `seed` determine.
pub open spec fn is_seeded_board(s: GameState, p: GameParams, seed: u64) -> bool {
    &&& s.width == p.width
    &&& s.height == p.height
    &&& s.n_balls as int == seeded_ball_count(p, seed)
    &&& grid_view(s.grid) == seeded_grid(p, seed)
}

/// Generates the board that `seed` determines: the ball count is drawn once
/// from [min_balls, max_balls], then each ball lands on the first free cell
/// among its candidate draws.
///
/// A given seed reproduces the same board on every run and every platform.
/// That holds only for this generator (rand's `StdRng`) and this draw order:
/// the count first, then one pair of coordinate draws per candidate cell.
pub fn new_game_seeded(game_params: GameParams, seed: u64) -> (r: GameState)
    requires
        valid_params(game_params),
    ensures
        wf_board(r),
        is_seeded_board(r, game_params, seed),
        game_params.min_balls <= r.n_balls <= game_params.max_balls,
{
    let w = game_params.width;
    let h = game_params.height;
    let mut rng = rng_from_seed(seed);
    let n_balls: usize = draw_in_range(&mut rng, game_params.min_balls, game_params.max_balls + 1);
    let ghost h0 = start_history(game_params);
    proof {
        assert(rng.draws() =~= h0);
        assert(n_balls as int == seeded_ball_count(game_params, seed));
    }
    let mut grid = make_blank_grid(w, h);
    let ghost g0 = grid_view(grid);
    let mut placed: usize = 0;
    while placed < n_balls
        invariant
            placed <= n_balls,
            n_balls <= game_params.max_balls,
            valid_params(game_params),
            w == game_params.width,
            h == game_params.height,
            rng.seed_val() == seed,
            grid@.len() == w,
            forall|i: int| 0 <= i < grid@.len() ==> (#[trigger] grid@[i])@.len() == h,
            grid_count(grid_view(grid)) == placed,
            g0 == blank_grid(w as nat, h as nat),
            h0 == start_history(game_params),
            grid_view(grid) == place_balls(seed, g0, h0, w as int, h as int, placed as nat).0,
            rng.draws() == place_balls(seed, g0, h0, w as int, h as int, placed as nat).1,
        decreases n_balls - placed,
    {
        let ghost m_grid = place_balls(seed, g0, h0, w as int, h as int, placed as nat).0;
        let ghost m_hist = place_balls(seed, g0, h0, w as int, h as int, placed as nat).1;
        let mut attempts: usize = 0;
        let mut done = false;
        while !done && attempts < MAX_DRAW_ATTEMPTS
            invariant
                attempts <= MAX_DRAW_ATTEMPTS,
                1 <= w,
                1 <= h,
                rng.seed_val() == seed,
                grid@.len() == w,
                forall|i: int| 0 <= i < grid@.len() ==> (#[trigger] grid@[i])@.len() == h,
                !done ==> grid_view(grid) == m_grid,
                !done ==> grid_count(grid_view(grid)) == placed,
                !done ==> rng.draws() == draws_after(m_hist, w as int, h as int, attempts as nat),
                !done ==> forall|j: nat|
                    j < attempts ==> !cand_free(seed, m_hist, m_grid, w as int, h as int, j),
                done ==> grid_view(grid) == place_one_ball(
                    seed,
                    m_grid,
                    m_hist,
                    w as int,
                    h as int,
                ).0,
                done ==> rng.draws() == place_one_ball(seed, m_grid, m_hist, w as int, h as int).1,
                done ==> grid_count(grid_view(grid)) == placed + 1,
            decreases MAX_DRAW_ATTEMPTS - attempts,
        {
            let ghost k = attempts as nat;
            let x = draw_in_range(&mut rng, 0, w);
            let y = draw_in_range(&mut rng, 0, h);
            proof {
                assert(draws_after(m_hist, w as int, h as int, (k + 1) as nat) == draws_after(
                    m_hist,
                    w as int,
                    h as int,
                    k,
                ).push((0, w as int)).push((0, h as int)));
                assert(x as int == cand_x(seed, m_hist, w as int, h as int, k));
                assert(y as int == cand_y(seed, m_hist, w as int, h as int, k));
                assert(grid_view(grid)[x as int] == grid@[x as int]@);
            }
            if grid[x][y] {
                proof {
                    assert(!cand_free(seed, m_hist, m_grid, w as int, h as int, k));
                }
            } else {
                proof {
                    assert(cand_free(seed, m_hist, m_grid, w as int, h as int, k));
                    assert(hit_within_limit(seed, m_hist, m_grid, w as int, h as int));
                    let kk = first_hit(seed, m_hist, m_grid, w as int, h as int);
                    assert(kk < MAX_DRAW_ATTEMPTS && cand_free(
                        seed,
                        m_hist,
                        m_grid,
                        w as int,
                        h as int,
                        kk,
                    ) && (forall|j: nat|
                        j < kk ==> !cand_free(seed, m_hist, m_grid, w as int, h as int, j)));
                    if kk < k {
                        assert(!cand_free(seed, m_hist, m_grid, w as int, h as int, kk));
                    }
                    if k < kk {
                        assert(!cand_free(seed, m_hist, m_grid, w as int, h as int, k));
                    }
                    assert(kk == k);
                }
                set_cell(&mut grid, x, y);
                done = true;
            }
            attempts = attempts + 1;
        }
        if !done {
            proof {
                assert(attempts == MAX_DRAW_ATTEMPTS);
                if hit_within_limit(seed, m_hist, m_grid, w as int, h as int) {
                    let kk = choose|j: nat|
                        j < MAX_DRAW_ATTEMPTS && cand_free(
                            seed,
                            m_hist,
                            m_grid,
                            w as int,
                            h as int,
                            j,
                        );
                    assert(!cand_free(seed, m_hist, m_grid, w as int, h as int, kk));
                }
                assert(grid_count(grid_view(grid)) < w * h);
            }
            let c = find_free_cell(&grid, w, h);
            set_cell(&mut grid, c.0, c.1);
        }
        placed = placed + 1;
        proof {
            assert(place_balls(seed, g0, h0, w as int, h as int, placed as nat) == place_one_ball(
                seed,
                m_grid,
                m_hist,
                w as int,
                h as int,
            )) by {
                assert((placed as nat - 1) as nat == (placed - 1) as nat);
                assert(place_balls(seed, g0, h0, w as int, h as int, (placed - 1) as nat)
                    == (m_grid, m_hist));
            }
        }
    }
    proof {
        assert(seeded_ball_count(game_params, seed) as nat == n_balls as nat);
        assert(grid_view(grid) == seeded_grid(game_params, seed));
    }
    GameState { width: w, height: h, n_balls, grid }
}

/// Generates a board from a seed drawn from the process-wide entropy source,
/// so two calls normally produce different boards.
pub fn new_game(game_params: GameParams) -> (r: GameState)
    requires
        valid_params(game_params),
    ensures
        wf_board(r),
        r.width == game_params.width,
        r.height == game_params.height,
        game_params.min_balls <= r.n_balls <= game_params.max_balls,
        exists|seed: u64| is_seeded_board(r, game_params, seed),
{
    let seed = entropy_seed();
    let r = new_game_seeded(game_params, seed);
    proof {
        assert(is_seeded_board(r, game_params, seed));
    }
    r
}

proof fn lemma_first_hit_exists(
    seed: u64,
    history: Seq<(int, int)>,
    g: Seq<Seq<bool>>,
    w: int,
    h: int,
    k0: nat,
)
    requires
        k0 < MAX_DRAW_ATTEMPTS,
        cand_free(seed, history, g, w, h, k0),
    ensures
        exists|k: nat|
            k < MAX_DRAW_ATTEMPTS && cand_free(seed, history, g, w, h, k) && (forall|j: nat|
                j < k ==> !cand_free(seed, history, g, w, h, j)),
    decreases k0,
{
    if exists|j: nat| j < k0 && cand_free(seed, history, g, w, h, j) {
        let j = choose|j: nat| j < k0 && cand_free(seed, history, g, w, h, j);
        lemma_first_hit_exists(seed, history, g, w, h, j);
    } else {
        assert(k0 < MAX_DRAW_ATTEMPTS && cand_free(seed, history, g, w, h, k0) && (forall|j: nat|
            j < k0 ==> !cand_free(seed, history, g, w, h, j)));
    }
}

/// No placement overwrites a cell: as long as the grid has an empty cell,
/// placing one more ball marks a cell that was empty, so the occupied count
/// rises by exactly one.
pub proof fn lemma_place_one_ball_no_overwrite(
    seed: u64,
    g: Seq<Seq<bool>>,
    history: Seq<(int, int)>,
    w: int,
    h: int,
)
    requires
        g.len() == w,
        0 <= h,
        forall|x: int| 0 <= x < g.len() ==> (#[trigger] g[x]).len() == h,
        grid_count(g) < w * h,
    ensures
        grid_count(place_one_ball(seed, g, history, w, h).0) == grid_count(g) + 1,
{
    if !(exists|x: int, y: int| cell_free_at(g, x, y)) {
        assert forall|x: int, y: int|
            0 <= x < g.len() && 0 <= y < g[x].len() implies #[trigger] g[x][y] by {
            assert(!cell_free_at(g, x, y));
        }
        lemma_grid_count_full(g, h as nat);
        assert(false);
    }
    if hit_within_limit(seed, history, g, w, h) {
        let k0 = choose|k: nat| k < MAX_DRAW_ATTEMPTS && cand_free(seed, history, g, w, h, k);
        lemma_first_hit_exists(seed, history, g, w, h, k0);
        let k = first_hit(seed, history, g, w, h);
        assert(k < MAX_DRAW_ATTEMPTS && cand_free(seed, history, g, w, h, k) && (forall|j: nat|
            j < k ==> !cand_free(seed, history, g, w, h, j)));
        lemma_grid_count_update(
            g,
            cand_x(seed, history, w, h, k),
            cand_y(seed, history, w, h, k),
        );
    } else {
        let (x0, y0) = choose|x: int, y: int| cell_free_at(g, x, y);
        lemma_first_free_exists(g, x0, y0);
        let c = first_free_cell(g);
        assert(cell_free_at(g, c.0, c.1) && (forall|d: (int, int)|
            cell_earlier(d, c) ==> !cell_free_at(g, d.0, d.1)));
        lemma_grid_count_update(g, c.0, c.1);
    }
}

/// Determinism: boards that the generation contract ties to the same
/// parameters and the same seed agree in every field and every cell.
pub proof fn lemma_seeded_generation_deterministic(
    p: GameParams,
    seed: u64,
    a: GameState,
    b: GameState,
)
    requires
        is_seeded_board(a, p, seed),
        is_seeded_board(b, p, seed),
    ensures
        a.width == b.width,
        a.height == b.height,
        a.n_balls == b.n_balls,
        grid_view(a.grid) == grid_view(b.grid),
{
}

} // verus!
