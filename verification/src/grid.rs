use vstd::prelude::*;

verus! {

/// Some entry of `items` covers the cell `(x, y)`.
pub open spec fn covers<T>(items: Seq<((usize, usize), T)>, x: int, y: int) -> bool {
    exists|k: int| 0 <= k < items.len() && (#[trigger] items[k]).0 == (x as usize, y as usize)
}

/// A square grid of side `s`, stored row by row: the cell `(x, y)` lives
/// at index `x + y * s`.
pub struct Grid<T>(usize, Vec<T>);

impl<T> Grid<T> {
    /// The side length.
    pub closed spec fn side(self) -> int {
        self.0 as int
    }

    /// The cells, row by row.
    pub closed spec fn cells(self) -> Seq<T> {
        self.1@
    }

    /// The side length, as a run-time value.
    pub fn side_len(&self) -> (s: usize)
        ensures
            s == self.side(),
    {
        self.0
    }

    /// The number of stored cells.
    pub fn n_cells(&self) -> (n: usize)
        ensures
            n == self.cells().len(),
    {
        self.1.len()
    }

    /// The cell at `(x, y)`.
    pub fn at(&self, x: usize, y: usize) -> (r: &T)
        requires
            x < self.side(),
            y < self.side(),
            self.side() * self.side() <= usize::MAX,
            self.cells().len() == self.side() * self.side(),
        ensures
            *r == self.cells()[x + y * self.side()],
    {
        proof {
            lemma_grid_index_bound(x as int, y as int, self.side());
        }
        &self.1[x + y * self.0]
    }

    /// Assembles a grid of side `s` from one entry per cell.  Each entry
    /// carries its cell and the value to place there; every cell must be
    /// covered exactly once.
    pub fn new(s: usize, items: Vec<((usize, usize), T)>) -> (g: Grid<T>)
        requires
            s * s <= usize::MAX,
            items@.len() == s * s,
            forall|k: int| 0 <= k < items@.len() ==> (#[trigger] items@[k]).0.0 < s
                && items@[k].0.1 < s,
            forall|k1: int, k2: int|
                0 <= k1 < items@.len() && 0 <= k2 < items@.len() && k1 != k2 ==> (
                #[trigger] items@[k1]).0 != (#[trigger] items@[k2]).0,
            forall|x: int, y: int| 0 <= x < s && 0 <= y < s ==> #[trigger] covers(items@, x, y),
        ensures
            g.side() == s,
            g.cells().len() == s * s,
            forall|k: int|
                0 <= k < items@.len() ==> g.cells()[(#[trigger] items@[k]).0.0 + items@[k].0.1 * (
                s as int)] == items@[k].1,
    {
        let n = items.len();
        let mut rest = items;
        let mut slots: Vec<Option<T>> = Vec::new();
        let mut i: usize = 0;
        while i < n
            invariant
                i <= n,
                slots@.len() == i,
                forall|q: int| 0 <= q < i ==> (#[trigger] slots@[q]) is None,
            decreases n - i,
        {
            slots.push(None);
            i = i + 1;
        }
        let ghost all = items@;
        while rest.len() > 0
            invariant
                s * s <= usize::MAX,
                all.len() == n,
                n == s * s,
                slots@.len() == n,
                rest@.len() <= n,
                rest@ == all.subrange(0, rest@.len() as int),
                forall|k: int| 0 <= k < all.len() ==> (#[trigger] all[k]).0.0 < s
                    && all[k].0.1 < s,
                forall|k1: int, k2: int|
                    0 <= k1 < all.len() && 0 <= k2 < all.len() && k1 != k2 ==> (
                    #[trigger] all[k1]).0 != (#[trigger] all[k2]).0,
                forall|k: int|
                    rest@.len() <= k < all.len() ==> (slots@[(#[trigger] all[k]).0.0 + all[k].0.1
                        * (s as int)] matches Some(vv) && vv == all[k].1),
                forall|q: int|
                    0 <= q < n && (#[trigger] slots@[q]) is Some ==> exists|k: int|
                        rest@.len() <= k < all.len() && (#[trigger] all[k]).0.0 + all[k].0.1 * (
                        s as int) == q,
            decreases rest@.len(),
        {
            let ghost rlen = rest@.len() as int;
            let entry = match rest.pop() {
                Some(e) => e,
                None => {
                    proof {
                        assert(false);
                    }
                    unreached()
                },
            };
            let ((x, y), v) = entry;
            proof {
                assert(all.subrange(0, rlen)[rlen - 1] == all[rlen - 1]);
                assert(entry == all[rlen - 1]);
                assert(rest@ =~= all.subrange(0, rlen - 1));
                lemma_grid_index_bound(x as int, y as int, s as int);
            }
            let idx = x + y * s;
            let ghost old_slots = slots@;
            slots.set(idx, Some(v));
            proof {
                assert forall|k: int|
                    rest@.len() <= k < all.len() implies (slots@[(#[trigger] all[k]).0.0
                    + all[k].0.1 * (s as int)] matches Some(v2) && v2 == all[k].1) by {
                    if k == rlen - 1 {
                        assert(slots@[idx as int] == Some(v));
                    } else {
                        assert(all[k].0 != all[rlen - 1].0);
                        lemma_grid_index_bound(all[k].0.0 as int, all[k].0.1 as int, s as int);
                        if all[k].0.0 + all[k].0.1 * (s as int) == idx as int {
                            lemma_grid_index_inj(
                                all[k].0.0 as int,
                                all[k].0.1 as int,
                                x as int,
                                y as int,
                                s as int,
                            );
                            assert(false);
                        }
                        assert(slots@[all[k].0.0 + all[k].0.1 * (s as int)] == old_slots[all[k].0.0
                            + all[k].0.1 * (s as int)]);
                    }
                }
                assert forall|q: int|
                    0 <= q < n && (#[trigger] slots@[q]) is Some implies exists|k: int|
                    rest@.len() <= k < all.len() && (#[trigger] all[k]).0.0 + all[k].0.1 * (
                    s as int) == q by {
                    if q == idx as int {
                        assert(all[rlen - 1].0.0 + all[rlen - 1].0.1 * (s as int) == q);
                    } else {
                        assert(old_slots[q] == slots@[q]);
                    }
                }
            }
        }
        let mut cells: Vec<T> = Vec::new();
        let mut idx: usize = 0;
        let mut rest_slots = slots;
        proof {
            assert forall|q: int| 0 <= q < n implies (#[trigger] rest_slots@[q]) is Some by {
                let x = q % (s as int);
                let y = q / (s as int);
                lemma_grid_cell_of_index(q, s as int);
                assert(covers(all, x, y));
                let k = choose|k: int|
                    0 <= k < all.len() && (#[trigger] all[k]).0 == (x as usize, y as usize);
                assert(rest_slots@[all[k].0.0 + all[k].0.1 * (s as int)] is Some);
            }
        }
        let ghost full = rest_slots@;
        while idx < n
            invariant
                idx <= n,
                n == full.len(),
                cells@.len() == idx,
                rest_slots@ == full.subrange(idx as int, n as int),
                forall|q: int| 0 <= q < n ==> (#[trigger] full[q]) is Some,
                forall|q: int| 0 <= q < idx ==> Some(#[trigger] cells@[q]) == full[q],
            decreases n - idx,
        {
            proof {
                assert(rest_slots@[0] == full[idx as int]);
            }
            let o = rest_slots.remove(0);
            match o {
                Some(v) => {
                    cells.push(v);
                },
                None => {
                    proof {
                        assert(false);
                    }
                },
            }
            proof {
                assert(rest_slots@ =~= full.subrange(idx + 1, n as int));
            }
            idx = idx + 1;
        }
        let g = Grid(s, cells);
        proof {
            assert forall|k: int|
                0 <= k < all.len() implies g.cells()[(#[trigger] all[k]).0.0 + all[k].0.1 * (
            s as int)] == all[k].1 by {
                lemma_grid_index_bound(all[k].0.0 as int, all[k].0.1 as int, s as int);
                let q = all[k].0.0 + all[k].0.1 * (s as int);
                assert((full[q] matches Some(v2) && v2 == all[k].1));
                assert(Some(g.cells()[q]) == full[q]);
            }
        }
        g
    }
}

/// In a side-`s` grid, a cell's index lies below `s * s`.
proof fn lemma_grid_index_bound(x: int, y: int, s: int)
    requires
        0 <= x < s,
        0 <= y < s,
    ensures
        0 <= x + y * s < s * s,
{
    assert(x + y * s < s * s) by (nonlinear_arith)
        requires
            0 <= x < s,
            0 <= y < s;
    assert(x + y * s >= 0) by (nonlinear_arith)
        requires
            0 <= x,
            0 <= y,
            s > 0;
}

/// Distinct cells of a side-`s` grid have distinct indices.
proof fn lemma_grid_index_inj(x1: int, y1: int, x2: int, y2: int, s: int)
    requires
        0 <= x1 < s,
        0 <= y1 < s,
        0 <= x2 < s,
        0 <= y2 < s,
        x1 + y1 * s == x2 + y2 * s,
    ensures
        x1 == x2,
        y1 == y2,
{
    assert(x1 == x2 && y1 == y2) by (nonlinear_arith)
        requires
            0 <= x1 < s,
            0 <= y1 < s,
            0 <= x2 < s,
            0 <= y2 < s,
            x1 + y1 * s == x2 + y2 * s;
}

/// Every index below `s * s` is the index of the cell
/// `(index % s, index / s)`.
proof fn lemma_grid_cell_of_index(q: int, s: int)
    requires
        s >= 1,
        0 <= q < s * s,
    ensures
        0 <= q % s < s,
        0 <= q / s < s,
        (q % s) + (q / s) * s == q,
{
    assert(0 <= q % s < s && 0 <= q / s < s && (q % s) + (q / s) * s == q) by (nonlinear_arith)
        requires
            s >= 1,
            0 <= q < s * s;
}

} // verus!
