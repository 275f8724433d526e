use vstd::prelude::*;
use crate::grid::{Cell, World};
use crate::random::column_below;

verus! {

/// How many spawn trials a tick makes unless told otherwise.
pub const SPAWN_RATE: usize = 3;

/// The grid after material was dropped into the top row at each of `columns`: a chosen
/// cell holds material afterwards (it was empty, or already held some); others are unchanged.
pub open spec fn spawned(g: Seq<Cell>, columns: Seq<usize>) -> Seq<Cell> {
    Seq::new(
        g.len(),
        |j: int|
            if exists|i: int| 0 <= i < columns.len() && columns[i] == j {
                Cell::Material
            } else {
                g[j]
            },
    )
}

/// Every cell of the top row, `w` cells wide, holds material.
pub open spec fn top_row_full(g: Seq<Cell>, w: int) -> bool {
    forall|x: int| 0 <= x < w ==> #[trigger] g[x] == Cell::Material
}

/// Dropping material onto a full top row changes nothing, however often it is done.
pub proof fn spawn_on_full_top_row_changes_nothing(g: Seq<Cell>, w: int, columns: Seq<usize>)
    requires
        w <= g.len(),
        top_row_full(g, w),
        forall|i: int| 0 <= i < columns.len() ==> #[trigger] columns[i] < w,
    ensures
        spawned(g, columns) == g,
{
    assert forall|j: int| 0 <= j < g.len() implies #[trigger] spawned(g, columns)[j] == g[j] by {
        if exists|i: int| 0 <= i < columns.len() && columns[i] == j {
            let i = choose|i: int| 0 <= i < columns.len() && columns[i] == j;
            assert(columns[i] < w);
        }
    }
    assert(spawned(g, columns) =~= g);
}

proof fn lemma_top_row_in_grid(w: int, h: int)
    requires
        w >= 0,
        h > 0,
    ensures
        w <= w * h,
{
    assert(w <= w * h) by (nonlinear_arith)
        requires
            w >= 0,
            h > 0,
    ;
}

impl World {
    /// Drops material into the top row at each of `columns`, in order; a cell that already
    /// holds material is left as it is.
    pub fn spawn_at(&mut self, columns: &Vec<usize>)
        requires
            old(self).wf(),
            old(self).height > 0,
            forall|i: int| 0 <= i < columns@.len() ==> #[trigger] columns@[i] < old(self).width,
        ensures
            final(self).wf(),
            final(self).width == old(self).width,
            final(self).height == old(self).height,
            final(self).grid@ == spawned(old(self).grid@, columns@),
    {
        let ghost g0 = self.grid@;
        let mut k: usize = 0;
        while k < columns.len()
            invariant
                self.wf(),
                self.width == old(self).width,
                self.height == old(self).height,
                self.height > 0,
                g0 == old(self).grid@,
                k <= columns@.len(),
                forall|i: int| 0 <= i < columns@.len() ==> #[trigger] columns@[i] < self.width,
                self.grid@ == spawned(g0, columns@.subrange(0, k as int)),
            decreases columns@.len() - k,
        {
            let x = columns[k];
            proof {
                lemma_top_row_in_grid(self.width as int, self.height as int);
            }
            if self.grid[x] == Cell::Empty {
                self.grid.set(x, Cell::Material);
            }
            let ghost before = columns@.subrange(0, k as int);
            let ghost after = columns@.subrange(0, k + 1);
            assert forall|j: int| 0 <= j < g0.len() implies #[trigger] self.grid@[j] == spawned(
                g0,
                after,
            )[j] by {
                if j == x {
                    assert(after[k as int] == x);
                } else {
                    if exists|i: int| 0 <= i < after.len() && after[i] == j {
                        let i = choose|i: int| 0 <= i < after.len() && after[i] == j;
                        assert(before[i] == j);
                    }
                    if exists|i: int| 0 <= i < before.len() && before[i] == j {
                        let i = choose|i: int| 0 <= i < before.len() && before[i] == j;
                        assert(after[i] == j);
                    }
                }
            }
            assert(self.grid@ =~= spawned(g0, after));
            k = k + 1;
        }
        assert(columns@.subrange(0, columns@.len() as int) =~= columns@);
    }

    /// Makes `rate` trials, each dropping material into the top row at a column drawn
    /// uniformly at random; a trial that lands on material does nothing.
    pub fn spawn_sand(&mut self, rate: usize)
        requires
            old(self).wf(),
            old(self).width > 0,
            old(self).height > 0,
        ensures
            final(self).wf(),
            final(self).width == old(self).width,
            final(self).height == old(self).height,
            exists|columns: Seq<usize>|
                {
                    &&& columns.len() == rate
                    &&& forall|i: int| 0 <= i < rate ==> #[trigger] columns[i] < old(self).width
                    &&& final(self).grid@ == spawned(old(self).grid@, columns)
                },
            top_row_full(old(self).grid@, old(self).width as int) ==> final(self).grid@
                == old(self).grid@,
    {
        let mut columns: Vec<usize> = Vec::new();
        let mut k: usize = 0;
        while k < rate
            invariant
                self.wf(),
                self.width == old(self).width,
                self.height == old(self).height,
                self.grid@ == old(self).grid@,
                self.width > 0,
                k <= rate,
                columns@.len() == k,
                forall|i: int| 0 <= i < k ==> #[trigger] columns@[i] < self.width,
            decreases rate - k,
        {
            let x = column_below(self.width);
            columns.push(x);
            k = k + 1;
        }
        self.spawn_at(&columns);
        proof {
            if top_row_full(old(self).grid@, old(self).width as int) {
                lemma_top_row_in_grid(old(self).width as int, old(self).height as int);
                spawn_on_full_top_row_changes_nothing(
                    old(self).grid@,
                    old(self).width as int,
                    columns@,
                );
            }
        }
    }
}

} // verus!
