use vstd::prelude::*;
use crate::grid::{Cell, World, cell_index, lemma_index_in_range};
use crate::random::coin;

verus! {

/// Whether the cell at `i` holds material.
pub open spec fn is_material(g: Seq<Cell>, i: int) -> bool {
    g[i] == Cell::Material
}

/// Whether the cell at `i` is empty.
pub open spec fn is_empty(g: Seq<Cell>, i: int) -> bool {
    g[i] == Cell::Empty
}

/// Moves material from `src` to `dst`.
pub open spec fn move_to(g: Seq<Cell>, src: int, dst: int) -> Seq<Cell> {
    g.update(dst, Cell::Material).update(src, Cell::Empty)
}

/// One application of the gravity rule: the cell at `(y - 1, x)` of a grid `w` columns wide
/// falls into row `y`, straight down if that cell is empty, else to a free diagonal neighbour.
/// When both diagonals are free, `go_left` picks the left one.
pub open spec fn settle_cell(g: Seq<Cell>, w: int, y: int, x: int, go_left: bool) -> Seq<Cell> {
    let src = (y - 1) * w + x;
    let dst = y * w + x;
    let left_free = x > 0 && is_empty(g, dst - 1);
    let right_free = x + 1 < w && is_empty(g, dst + 1);
    if !is_material(g, src) {
        g
    } else if is_empty(g, dst) {
        move_to(g, src, dst)
    } else if left_free && (go_left || !right_free) {
        move_to(g, src, dst - 1)
    } else if right_free {
        move_to(g, src, dst + 1)
    } else {
        g
    }
}

/// Both diagonals of a blocked cell are free, so the rule consults its coin.
pub open spec fn tie_at(g: Seq<Cell>, w: int, y: int, x: int) -> bool {
    let src = (y - 1) * w + x;
    let dst = y * w + x;
    &&& is_material(g, src)
    &&& !is_empty(g, dst)
    &&& x > 0 && is_empty(g, dst - 1)
    &&& x + 1 < w && is_empty(g, dst + 1)
}

/// Row `y` after its first `n` columns were filled from row `y - 1`, left to right;
/// the cell at `(y - 1, x)` uses the coin `coins[(y - 1) * w + x]`.
pub open spec fn settle_row(g: Seq<Cell>, w: int, y: int, coins: Seq<bool>, n: int) -> Seq<Cell>
    decreases n,
{
    if n <= 0 {
        g
    } else {
        let s = settle_row(g, w, y, coins, n - 1);
        settle_cell(s, w, y, n - 1, coins[(y - 1) * w + (n - 1)])
    }
}

/// The grid after rows `h - 1` down to `y` were each filled from the row above.
pub open spec fn settle_rows(g: Seq<Cell>, w: int, h: int, coins: Seq<bool>, y: int) -> Seq<Cell>
    decreases h - y,
{
    if y < 1 || y >= h {
        g
    } else {
        settle_row(settle_rows(g, w, h, coins, y + 1), w, y, coins, w)
    }
}

/// One time step of the automaton on a `w` by `h` grid.
pub open spec fn advanced(g: Seq<Cell>, w: int, h: int, coins: Seq<bool>) -> Seq<Cell> {
    settle_rows(g, w, h, coins, 1)
}

/// No coin is consulted while the first `n` columns of row `y` are filled.
pub open spec fn row_without_ties(g: Seq<Cell>, w: int, y: int, coins: Seq<bool>, n: int) -> bool
    decreases n,
{
    if n <= 0 {
        true
    } else {
        &&& row_without_ties(g, w, y, coins, n - 1)
        &&& !tie_at(settle_row(g, w, y, coins, n - 1), w, y, n - 1)
    }
}

/// No coin is consulted while rows `h - 1` down to `y` are filled.
pub open spec fn rows_without_ties(g: Seq<Cell>, w: int, h: int, coins: Seq<bool>, y: int) -> bool
    decreases h - y,
{
    if y < 1 || y >= h {
        true
    } else {
        &&& rows_without_ties(g, w, h, coins, y + 1)
        &&& row_without_ties(settle_rows(g, w, h, coins, y + 1), w, y, coins, w)
    }
}

/// The number of cells that hold material.
pub open spec fn material_count(g: Seq<Cell>) -> nat
    decreases g.len(),
{
    if g.len() == 0 {
        0
    } else {
        material_count(g.drop_last()) + if g.last() == Cell::Material { 1nat } else { 0nat }
    }
}

/// Material at index `b` or beyond in `g` is still material in `r`.
pub open spec fn keeps_material_from(g: Seq<Cell>, r: Seq<Cell>, b: int) -> bool {
    &&& r.len() == g.len()
    &&& forall|j: int| b <= j < g.len() && is_material(g, j) ==> is_material(r, j)
}

/// The grid shape that the rule is applied to: `g` holds `h` rows of `w` cells.
pub open spec fn grid_shape(g: Seq<Cell>, w: int, h: int) -> bool {
    w >= 0 && h >= 0 && g.len() == w * h
}

proof fn lemma_count_update(s: Seq<Cell>, i: int, v: Cell)
    requires
        0 <= i < s.len(),
    ensures
        material_count(s.update(i, v)) + (if s[i] == Cell::Material { 1int } else { 0int })
            == material_count(s) + (if v == Cell::Material { 1int } else { 0int }),
    decreases s.len(),
{
    let t = s.update(i, v);
    if i == s.len() - 1 {
        assert(t.drop_last() =~= s.drop_last());
    } else {
        assert(t.drop_last() =~= s.drop_last().update(i, v));
        lemma_count_update(s.drop_last(), i, v);
    }
}

proof fn lemma_move_conserves(g: Seq<Cell>, src: int, dst: int)
    requires
        0 <= src < g.len(),
        0 <= dst < g.len(),
        src != dst,
        is_material(g, src),
        is_empty(g, dst),
    ensures
        material_count(move_to(g, src, dst)) == material_count(g),
        move_to(g, src, dst).len() == g.len(),
{
    lemma_count_update(g, dst, Cell::Material);
    lemma_count_update(g.update(dst, Cell::Material), src, Cell::Empty);
}

/// Facts about the indices that the rule reads and writes for the cell at `(y - 1, x)`.
proof fn lemma_cell_indices(w: int, h: int, y: int, x: int)
    requires
        1 <= y < h,
        0 <= x < w,
    ensures
        0 <= (y - 1) * w + x,
        (y - 1) * w + x + w == y * w + x,
        y * w + x < w * h,
        y * w + w <= (h - 1) * w + w,
        (h - 1) * w + w == w * h,
{
    lemma_index_in_range(w, h, y, x);
    lemma_index_in_range(w, h, y - 1, x);
    assert((h - 1) * w + w == w * h) by (nonlinear_arith);
    assert(y * w <= (h - 1) * w) by (nonlinear_arith)
        requires
            y <= h - 1,
            0 <= w,
    ;
}

proof fn lemma_cell_conserves(g: Seq<Cell>, w: int, h: int, y: int, x: int, go_left: bool)
    requires
        grid_shape(g, w, h),
        1 <= y < h,
        0 <= x < w,
    ensures
        material_count(settle_cell(g, w, y, x, go_left)) == material_count(g),
        keeps_material_from(g, settle_cell(g, w, y, x, go_left), (h - 1) * w),
{
    lemma_cell_indices(w, h, y, x);
    let src = (y - 1) * w + x;
    let dst = y * w + x;
    if is_material(g, src) {
        if is_empty(g, dst) {
            lemma_move_conserves(g, src, dst);
        } else if x > 0 && is_empty(g, dst - 1) && (go_left || !(x + 1 < w && is_empty(
            g,
            dst + 1,
        ))) {
            lemma_move_conserves(g, src, dst - 1);
        } else if x + 1 < w && is_empty(g, dst + 1) {
            lemma_move_conserves(g, src, dst + 1);
        }
    }
}

proof fn lemma_row_conserves(g: Seq<Cell>, w: int, h: int, y: int, coins: Seq<bool>, n: int)
    requires
        grid_shape(g, w, h),
        1 <= y < h,
        0 <= n <= w,
    ensures
        material_count(settle_row(g, w, y, coins, n)) == material_count(g),
        keeps_material_from(g, settle_row(g, w, y, coins, n), (h - 1) * w),
    decreases n,
{
    if n > 0 {
        let s = settle_row(g, w, y, coins, n - 1);
        lemma_row_conserves(g, w, h, y, coins, n - 1);
        lemma_cell_conserves(s, w, h, y, n - 1, coins[(y - 1) * w + (n - 1)]);
    }
}

proof fn lemma_rows_conserve(g: Seq<Cell>, w: int, h: int, coins: Seq<bool>, y: int)
    requires
        grid_shape(g, w, h),
        1 <= y,
    ensures
        material_count(settle_rows(g, w, h, coins, y)) == material_count(g),
        keeps_material_from(g, settle_rows(g, w, h, coins, y), (h - 1) * w),
    decreases h - y,
{
    if y < h {
        let s = settle_rows(g, w, h, coins, y + 1);
        lemma_rows_conserve(g, w, h, coins, y + 1);
        lemma_row_conserves(s, w, h, y, coins, w);
    }
}

/// A time step neither creates nor destroys material.
pub proof fn advance_conserves_material(g: Seq<Cell>, w: int, h: int, coins: Seq<bool>)
    requires
        grid_shape(g, w, h),
    ensures
        advanced(g, w, h, coins).len() == g.len(),
        material_count(advanced(g, w, h, coins)) == material_count(g),
{
    lemma_rows_conserve(g, w, h, coins, 1);
}

/// Material on the bottom row stays where it is during a time step.
pub proof fn advance_keeps_bottom_row(g: Seq<Cell>, w: int, h: int, coins: Seq<bool>)
    requires
        grid_shape(g, w, h),
    ensures
        forall|x: int|
            0 <= x < w && h > 0 && g[cell_index(w, h - 1, x)] == Cell::Material ==> #[trigger] advanced(
                g,
                w,
                h,
                coins,
            )[cell_index(w, h - 1, x)] == Cell::Material,
{
    lemma_rows_conserve(g, w, h, coins, 1);
    assert forall|x: int|
        0 <= x < w && h > 0 && g[cell_index(w, h - 1, x)] == Cell::Material implies #[trigger] advanced(
            g,
            w,
            h,
            coins,
        )[cell_index(w, h - 1, x)] == Cell::Material by {
        lemma_index_in_range(w, h, h - 1, x);
        let j = cell_index(w, h - 1, x);
        assert(is_material(g, j));
        assert(is_material(advanced(g, w, h, coins), j));
    }
}

proof fn lemma_row_ignores_coins(g: Seq<Cell>, w: int, y: int, c1: Seq<bool>, c2: Seq<bool>, n: int)
    requires
        row_without_ties(g, w, y, c1, n),
    ensures
        settle_row(g, w, y, c1, n) == settle_row(g, w, y, c2, n),
    decreases n,
{
    if n > 0 {
        lemma_row_ignores_coins(g, w, y, c1, c2, n - 1);
    }
}

proof fn lemma_rows_ignore_coins(g: Seq<Cell>, w: int, h: int, c1: Seq<bool>, c2: Seq<bool>, y: int)
    requires
        rows_without_ties(g, w, h, c1, y),
    ensures
        settle_rows(g, w, h, c1, y) == settle_rows(g, w, h, c2, y),
    decreases h - y,
{
    if 1 <= y < h {
        lemma_rows_ignore_coins(g, w, h, c1, c2, y + 1);
        lemma_row_ignores_coins(settle_rows(g, w, h, c1, y + 1), w, y, c1, c2, w);
    }
}

/// When no cell meets a tie during a time step, the coins make no difference: any other
/// coins give the same grid.
pub proof fn advance_without_ties_ignores_coins(
    g: Seq<Cell>,
    w: int,
    h: int,
    c1: Seq<bool>,
    c2: Seq<bool>,
)
    requires
        rows_without_ties(g, w, h, c1, 1),
    ensures
        advanced(g, w, h, c1) == advanced(g, w, h, c2),
{
    lemma_rows_ignore_coins(g, w, h, c1, c2, 1);
}

impl World {
    /// Moves the material at `(y - 1, x)`, if any, into row `y` by the gravity rule.
    fn settle_at(&mut self, y: usize, x: usize, go_left: bool)
        requires
            old(self).wf(),
            1 <= y < old(self).height,
            x < old(self).width,
        ensures
            final(self).wf(),
            final(self).width == old(self).width,
            final(self).height == old(self).height,
            final(self).grid@ == settle_cell(
                old(self).grid@,
                old(self).width as int,
                y as int,
                x as int,
                go_left,
            ),
    {
        let w = self.width;
        proof {
            lemma_index_in_range(w as int, self.height as int, y as int, x as int);
            lemma_index_in_range(w as int, self.height as int, y - 1, x as int);
        }
        let src = (y - 1) * w + x;
        let dst = y * w + x;
        if self.grid[src] == Cell::Material {
            if self.grid[dst] == Cell::Empty {
                self.grid.set(dst, Cell::Material);
                self.grid.set(src, Cell::Empty);
            } else {
                let left_free = x > 0 && self.grid[dst - 1] == Cell::Empty;
                let right_free = x + 1 < w && self.grid[dst + 1] == Cell::Empty;
                if left_free && (go_left || !right_free) {
                    self.grid.set(dst - 1, Cell::Material);
                    self.grid.set(src, Cell::Empty);
                } else if right_free {
                    self.grid.set(dst + 1, Cell::Material);
                    self.grid.set(src, Cell::Empty);
                }
            }
        }
    }

    /// One time step: for each row `y` from the bottom up to the second, each column left to
    /// right, the material at `(y - 1, x)` falls into row `y`. A blocked cell with both
    /// diagonals free slides left when `coins[(y - 1) * width + x]` is true.
    pub fn advance_with(&mut self, coins: &Vec<bool>)
        requires
            old(self).wf(),
            coins@.len() == old(self).grid@.len(),
        ensures
            final(self).wf(),
            final(self).width == old(self).width,
            final(self).height == old(self).height,
            final(self).grid@ == advanced(
                old(self).grid@,
                old(self).width as int,
                old(self).height as int,
                coins@,
            ),
    {
        let ghost g0 = self.grid@;
        let w = self.width;
        let h = self.height;
        let mut y: usize = h;
        while y > 1
            invariant
                self.wf(),
                self.width == w,
                self.height == h,
                coins@.len() == w * h,
                y <= h,
                h > 0 ==> y >= 1,
                self.grid@ == settle_rows(g0, w as int, h as int, coins@, y as int),
            decreases y,
        {
            y = y - 1;
            let ghost above = settle_rows(g0, w as int, h as int, coins@, y + 1);
            let mut x: usize = 0;
            while x < w
                invariant
                    self.wf(),
                    self.width == w,
                    self.height == h,
                    coins@.len() == w * h,
                    1 <= y < h,
                    x <= w,
                    self.grid@ == settle_row(above, w as int, y as int, coins@, x as int),
                decreases w - x,
            {
                proof {
                    lemma_index_in_range(w as int, h as int, y - 1, x as int);
                }
                let go_left = coins[(y - 1) * w + x];
                self.settle_at(y, x, go_left);
                x = x + 1;
            }
        }
        proof {
            if y == 0 {
                assert(settle_rows(g0, w as int, h as int, coins@, 0) == g0);
                assert(settle_rows(g0, w as int, h as int, coins@, 1) == g0);
            }
        }
    }

    /// One time step, with a fair coin drawn for each cell to break ties between the two
    /// diagonals.
    pub fn update(&mut self)
        requires
            old(self).wf(),
        ensures
            final(self).wf(),
            final(self).width == old(self).width,
            final(self).height == old(self).height,
            exists|coins: Seq<bool>|
                coins.len() == old(self).grid@.len() && final(self).grid@ == #[trigger] advanced(
                    old(self).grid@,
                    old(self).width as int,
                    old(self).height as int,
                    coins,
                ),
            material_count(final(self).grid@) == material_count(old(self).grid@),
            forall|x: int|
                0 <= x < old(self).width && old(self).height > 0 && old(self).grid@[cell_index(
                    old(self).width as int,
                    old(self).height - 1,
                    x,
                )] == Cell::Material ==> #[trigger] final(self).grid@[cell_index(
                    old(self).width as int,
                    old(self).height - 1,
                    x,
                )] == Cell::Material,
    {
        let n = self.grid.len();
        let mut coins: Vec<bool> = Vec::new();
        let mut k: usize = 0;
        while k < n
            invariant
                k <= n,
                coins@.len() == k,
            decreases n - k,
        {
            coins.push(coin());
            k = k + 1;
        }
        self.advance_with(&coins);
        proof {
            advance_conserves_material(
                old(self).grid@,
                old(self).width as int,
                old(self).height as int,
                coins@,
            );
            advance_keeps_bottom_row(
                old(self).grid@,
                old(self).width as int,
                old(self).height as int,
                coins@,
            );
        }
    }
}

} // verus!
