use vstd::prelude::*;

verus! {

/// The grid as a sequence of rows of cells, `true` marking a ball. The
/// outer dimension is indexed by `x` (width), the inner by `y` (height).
pub open spec fn grid_view(g: Vec<Vec<bool>>) -> Seq<Seq<bool>> {
    g@.map_values(|r: Vec<bool>| r@)
}

/// A `width` by `height` grid with every cell empty.
pub open spec fn blank_grid(w: nat, h: nat) -> Seq<Seq<bool>> {
    Seq::new(w, |x: int| Seq::new(h, |y: int| false))
}

/// How many cells of one grid row hold a ball.
pub open spec fn row_count(r: Seq<bool>) -> nat
    decreases r.len(),
{
    if r.len() == 0 {
        0
    } else {
        row_count(r.drop_last()) + if r.last() {
            1nat
        } else {
            0
        }
    }
}

/// How many cells of the whole grid hold a ball.
pub open spec fn grid_count(g: Seq<Seq<bool>>) -> nat
    decreases g.len(),
{
    if g.len() == 0 {
        0
    } else {
        grid_count(g.drop_last()) + row_count(g.last())
    }
}

/// Cell (x, y) lies on the grid and is empty.
pub open spec fn cell_free_at(g: Seq<Seq<bool>>, x: int, y: int) -> bool {
    &&& 0 <= x < g.len()
    &&& 0 <= y < g[x].len()
    &&& !g[x][y]
}

/// Cell `a` comes strictly before cell `b` in scan order: row by row,
/// and within a row cell by cell.
pub open spec fn cell_earlier(a: (int, int), b: (int, int)) -> bool {
    a.0 < b.0 || (a.0 == b.0 && a.1 < b.1)
}

/// The first empty cell of the grid in scan order; an arbitrary pair when
/// the grid is full.
pub open spec fn first_free_cell(g: Seq<Seq<bool>>) -> (int, int) {
    choose|c: (int, int)|
        cell_free_at(g, c.0, c.1) && (forall|d: (int, int)|
            cell_earlier(d, c) ==> !cell_free_at(g, d.0, d.1))
}

/// Some cell of the grid is free, so a first free cell in scan order exists.
pub(crate) proof fn lemma_first_free_exists(g: Seq<Seq<bool>>, x0: int, y0: int)
    requires
        cell_free_at(g, x0, y0),
    ensures
        exists|c: (int, int)|
            cell_free_at(g, c.0, c.1) && (forall|d: (int, int)|
                cell_earlier(d, c) ==> !cell_free_at(g, d.0, d.1)),
    decreases x0, y0,
{
    if exists|d: (int, int)| cell_earlier(d, (x0, y0)) && cell_free_at(g, d.0, d.1) {
        let d = choose|d: (int, int)| cell_earlier(d, (x0, y0)) && cell_free_at(g, d.0, d.1);
        lemma_first_free_exists(g, d.0, d.1);
    } else {
        let c0 = (x0, y0);
        assert(cell_free_at(g, c0.0, c0.1));
        assert(forall|d: (int, int)| cell_earlier(d, c0) ==> !cell_free_at(g, d.0, d.1));
    }
}

pub proof fn lemma_row_count_all_false(r: Seq<bool>)
    requires
        forall|j: int| 0 <= j < r.len() ==> !r[j],
    ensures
        row_count(r) == 0,
    decreases r.len(),
{
    if r.len() > 0 {
        lemma_row_count_all_false(r.drop_last());
    }
}

pub proof fn lemma_grid_count_blank(g: Seq<Seq<bool>>)
    requires
        forall|x: int, y: int|
            0 <= x < g.len() && 0 <= y < g[x].len() ==> !(#[trigger] g[x][y]),
    ensures
        grid_count(g) == 0,
    decreases g.len(),
{
    if g.len() > 0 {
        lemma_grid_count_blank(g.drop_last());
        lemma_row_count_all_false(g.last());
    }
}

pub proof fn lemma_row_count_all_true(r: Seq<bool>)
    requires
        forall|j: int| 0 <= j < r.len() ==> r[j],
    ensures
        row_count(r) == r.len(),
    decreases r.len(),
{
    if r.len() > 0 {
        lemma_row_count_all_true(r.drop_last());
    }
}

/// A grid of `w` rows of `h` cells with no empty cell holds exactly
/// `w * h` balls.
pub proof fn lemma_grid_count_full(g: Seq<Seq<bool>>, h: nat)
    requires
        forall|x: int| 0 <= x < g.len() ==> (#[trigger] g[x]).len() == h,
        forall|x: int, y: int|
            0 <= x < g.len() && 0 <= y < g[x].len() ==> (#[trigger] g[x][y]),
    ensures
        grid_count(g) == g.len() * h,
    decreases g.len(),
{
    if g.len() > 0 {
        lemma_grid_count_full(g.drop_last(), h);
        lemma_row_count_all_true(g.last());
        assert(g.len() * h == (g.len() - 1) * h + h) by (nonlinear_arith);
    }
}

pub proof fn lemma_row_count_update(r: Seq<bool>, y: int)
    requires
        0 <= y < r.len(),
        !r[y],
    ensures
        row_count(r.update(y, true)) == row_count(r) + 1,
    decreases r.len(),
{
    let r2 = r.update(y, true);
    if y == r.len() - 1 {
        assert(r2.drop_last() =~= r.drop_last());
    } else {
        assert(r2.drop_last() =~= r.drop_last().update(y, true));
        lemma_row_count_update(r.drop_last(), y);
    }
}

/// Marking one empty cell raises the ball count by exactly one.
pub proof fn lemma_grid_count_update(g: Seq<Seq<bool>>, x: int, y: int)
    requires
        0 <= x < g.len(),
        0 <= y < g[x].len(),
        !g[x][y],
    ensures
        grid_count(g.update(x, g[x].update(y, true))) == grid_count(g) + 1,
    decreases g.len(),
{
    let g2 = g.update(x, g[x].update(y, true));
    if x == g.len() - 1 {
        assert(g2.drop_last() =~= g.drop_last());
        lemma_row_count_update(g[x], y);
    } else {
        assert(g2.drop_last() =~= g.drop_last().update(x, g[x].update(y, true)));
        lemma_grid_count_update(g.drop_last(), x, y);
        assert(g2.last() =~= g.last());
    }
}

/// Builds a `w` by `h` grid with every cell empty.
pub fn make_blank_grid(w: usize, h: usize) -> (g: Vec<Vec<bool>>)
    ensures
        grid_view(g) == blank_grid(w as nat, h as nat),
        grid_count(grid_view(g)) == 0,
        g@.len() == w,
        forall|x: int| 0 <= x < g@.len() ==> (#[trigger] g@[x])@.len() == h,
{
    let mut g: Vec<Vec<bool>> = Vec::new();
    while g.len() < w
        invariant
            g@.len() <= w,
            forall|x: int|
                0 <= x < g@.len() ==> (#[trigger] g@[x])@ == Seq::new(h as nat, |y: int| false),
        decreases w - g.len(),
    {
        let mut row: Vec<bool> = Vec::new();
        while row.len() < h
            invariant
                row@.len() <= h,
                forall|y: int| 0 <= y < row@.len() ==> !(#[trigger] row@[y]),
            decreases h - row.len(),
        {
            row.push(false);
        }
        proof {
            assert(row@ =~= Seq::new(h as nat, |y: int| false));
        }
        g.push(row);
    }
    proof {
        assert(grid_view(g) =~= blank_grid(w as nat, h as nat));
        lemma_grid_count_blank(grid_view(g));
    }
    g
}

/// Finds the first empty cell in scan order; some cell must be empty.
pub fn find_free_cell(g: &Vec<Vec<bool>>, w: usize, h: usize) -> (c: (usize, usize))
    requires
        g@.len() == w,
        forall|x: int| 0 <= x < g@.len() ==> (#[trigger] g@[x])@.len() == h,
        grid_count(grid_view(*g)) < w * h,
    ensures
        (c.0 as int, c.1 as int) == first_free_cell(grid_view(*g)),
        cell_free_at(grid_view(*g), c.0 as int, c.1 as int),
{
    let ghost gv = grid_view(*g);
    let mut fx: usize = 0;
    let mut fy: usize = 0;
    let mut found = false;
    let mut x: usize = 0;
    while x < w
        invariant
            x <= w,
            g@.len() == w,
            forall|i: int| 0 <= i < g@.len() ==> (#[trigger] g@[i])@.len() == h,
            gv == grid_view(*g),
            !found ==> forall|a: int, b: int|
                0 <= a < x && 0 <= b < h ==> (#[trigger] gv[a][b]),
            found ==> cell_free_at(gv, fx as int, fy as int),
            found ==> forall|d: (int, int)|
                cell_earlier(d, (fx as int, fy as int)) ==> !cell_free_at(gv, d.0, d.1),
        decreases w - x,
    {
        let mut y: usize = 0;
        while y < h
            invariant
                y <= h,
                x < w,
                g@.len() == w,
                forall|i: int| 0 <= i < g@.len() ==> (#[trigger] g@[i])@.len() == h,
                gv == grid_view(*g),
                !found ==> forall|a: int, b: int|
                    0 <= a < x && 0 <= b < h ==> (#[trigger] gv[a][b]),
                !found ==> forall|b: int| 0 <= b < y ==> (#[trigger] gv[x as int][b]),
                found ==> cell_free_at(gv, fx as int, fy as int),
                found ==> forall|d: (int, int)|
                    cell_earlier(d, (fx as int, fy as int)) ==> !cell_free_at(gv, d.0, d.1),
            decreases h - y,
        {
            if !found && !g[x][y] {
                fx = x;
                fy = y;
                found = true;
                proof {
                    assert(cell_free_at(gv, fx as int, fy as int));
                    assert forall|d: (int, int)|
                        cell_earlier(d, (fx as int, fy as int)) implies !cell_free_at(
                        gv,
                        d.0,
                        d.1,
                    ) by {
                        if cell_free_at(gv, d.0, d.1) {
                            assert(gv[d.0][d.1] == false);
                            assert(gv[d.0].len() == h);
                        }
                    }
                }
            }
            y = y + 1;
        }
        x = x + 1;
    }
    proof {
        if !found {
            assert forall|a: int, b: int|
                0 <= a < gv.len() && 0 <= b < gv[a].len() implies (#[trigger] gv[a][b]) by {
                assert(gv[a].len() == h);
            }
            lemma_grid_count_full(gv, h as nat);
            assert(false);
        }
        let c0 = (fx as int, fy as int);
        assert(cell_free_at(gv, c0.0, c0.1));
        assert(forall|d: (int, int)| cell_earlier(d, c0) ==> !cell_free_at(gv, d.0, d.1));
        assert(exists|c: (int, int)|
            cell_free_at(gv, c.0, c.1) && (forall|d: (int, int)|
                cell_earlier(d, c) ==> !cell_free_at(gv, d.0, d.1)));
        let cc = first_free_cell(gv);
        assert(cell_free_at(gv, cc.0, cc.1) && (forall|d: (int, int)|
            cell_earlier(d, cc) ==> !cell_free_at(gv, d.0, d.1)));
        if cell_earlier(cc, c0) {
            assert(false);
        } else if cell_earlier(c0, cc) {
            assert(false);
        }
        assert(cc == c0);
    }
    (fx, fy)
}

/// Marks cell (x, y), which must be empty, and nothing else.
pub fn set_cell(g: &mut Vec<Vec<bool>>, x: usize, y: usize)
    requires
        x < old(g)@.len(),
        y < old(g)@[x as int]@.len(),
        !old(g)@[x as int]@[y as int],
    ensures
        grid_view(*final(g)) == grid_view(*old(g)).update(
            x as int,
            grid_view(*old(g))[x as int].update(y as int, true),
        ),
        grid_count(grid_view(*final(g))) == grid_count(grid_view(*old(g))) + 1,
        final(g)@.len() == old(g)@.len(),
        forall|i: int|
            0 <= i < old(g)@.len() ==> (#[trigger] final(g)@[i])@.len() == old(g)@[i]@.len(),
{
    let ghost gv0 = grid_view(*g);
    let mut row = g.remove(x);
    let ghost row0 = row@;
    row.remove(y);
    row.insert(y, true);
    proof {
        assert(row@ =~= row0.update(y as int, true));
    }
    g.insert(x, row);
    proof {
        assert(grid_view(*g) =~= gv0.update(x as int, gv0[x as int].update(y as int, true)));
        lemma_grid_count_update(gv0, x as int, y as int);
        assert forall|i: int|
            0 <= i < old(g)@.len() implies (#[trigger] g@[i])@.len() == old(g)@[i]@.len() by {
            assert(grid_view(*g)[i] == g@[i]@);
            assert(grid_view(*old(g))[i] == old(g)@[i]@);
        }
    }
}

} // verus!
