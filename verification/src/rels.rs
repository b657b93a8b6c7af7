use vstd::prelude::*;
use crate::wfc::Relation;

verus! {

/// One of the four grid directions.
#[derive(Debug, Clone, Copy, PartialEq, Eq, Hash, PartialOrd, Ord, Structural)]
pub enum Dir2D {
    Up,
    Left,
    Right,
    Down,
}

impl Dir2D {
    /// The cell one step in this direction from `(x, y)`, or `None` when
    /// the step would leave the representable grid.
    pub open spec fn step_spec(self, x: usize, y: usize) -> Option<(usize, usize)> {
        match self {
            Dir2D::Left => if x == 0 {
                None
            } else {
                Some(((x - 1) as usize, y))
            },
            Dir2D::Down => if y == 0 {
                None
            } else {
                Some((x, (y - 1) as usize))
            },
            Dir2D::Right => if x == usize::MAX {
                None
            } else {
                Some(((x + 1) as usize, y))
            },
            Dir2D::Up => if y == usize::MAX {
                None
            } else {
                Some((x, (y + 1) as usize))
            },
        }
    }

    /// Steps one cell in this direction, if a neighbor exists there.
    pub fn step(self, x: usize, y: usize) -> (r: Option<(usize, usize)>)
        ensures
            r == self.step_spec(x, y),
    {
        match self {
            Dir2D::Left => if x == 0 {
                None
            } else {
                Some((x - 1, y))
            },
            Dir2D::Down => if y == 0 {
                None
            } else {
                Some((x, y - 1))
            },
            Dir2D::Right => if x == usize::MAX {
                None
            } else {
                Some((x + 1, y))
            },
            Dir2D::Up => if y == usize::MAX {
                None
            } else {
                Some((x, y + 1))
            },
        }
    }

    /// One entry of `iter_spec`: the direction paired with its neighbor,
    /// or nothing where no neighbor exists.
    pub open spec fn dir_entry(self, x: usize, y: usize) -> Seq<(Dir2D, (usize, usize))> {
        match self.step_spec(x, y) {
            Some(p) => seq![(self, p)],
            None => Seq::empty(),
        }
    }

    /// The neighbors of `(x, y)`, in the fixed order up, down, left, right.
    pub open spec fn iter_spec(x: usize, y: usize) -> Seq<(Dir2D, (usize, usize))> {
        Dir2D::Up.dir_entry(x, y) + Dir2D::Down.dir_entry(x, y) + Dir2D::Left.dir_entry(x, y)
            + Dir2D::Right.dir_entry(x, y)
    }

    /// Enumerates each direction with the neighbor it reaches from
    /// `(x, y)`, dropping directions that step off the grid.
    pub fn iter(x: usize, y: usize) -> (out: Vec<(Dir2D, (usize, usize))>)
        ensures
            out@ == Dir2D::iter_spec(x, y),
    {
        let mut out: Vec<(Dir2D, (usize, usize))> = Vec::new();
        match Dir2D::Up.step(x, y) {
            Some(p) => {
                out.push((Dir2D::Up, p));
            },
            None => {},
        }
        match Dir2D::Down.step(x, y) {
            Some(p) => {
                out.push((Dir2D::Down, p));
            },
            None => {},
        }
        match Dir2D::Left.step(x, y) {
            Some(p) => {
                out.push((Dir2D::Left, p));
            },
            None => {},
        }
        match Dir2D::Right.step(x, y) {
            Some(p) => {
                out.push((Dir2D::Right, p));
            },
            None => {},
        }
        proof {
            assert(out@ =~= Dir2D::iter_spec(x, y));
        }
        out
    }

    /// The opposite direction, as a specification value.
    pub open spec fn opp_spec(self) -> Dir2D {
        match self {
            Dir2D::Up => Dir2D::Down,
            Dir2D::Down => Dir2D::Up,
            Dir2D::Right => Dir2D::Left,
            Dir2D::Left => Dir2D::Right,
        }
    }

    /// The opposite direction.
    pub fn opp(self) -> (r: Dir2D)
        ensures
            r == self.opp_spec(),
    {
        match self {
            Dir2D::Up => Dir2D::Down,
            Dir2D::Down => Dir2D::Up,
            Dir2D::Right => Dir2D::Left,
            Dir2D::Left => Dir2D::Right,
        }
    }
}

/// An adjacency rule for square grids: when the item it is attached to is
/// possible at a cell, `allowed` is permitted at the neighbor one step in
/// `direction`.
#[derive(Debug, PartialEq, Eq, PartialOrd, Ord)]
pub struct Neighbor2D<T> {
    allowed: T,
    direction: Dir2D,
}

impl<T> Neighbor2D<T> {
    /// The rule as a value, for specifications.
    pub closed spec fn nb(allowed: T, direction: Dir2D) -> Neighbor2D<T> {
        Neighbor2D { allowed, direction }
    }

    /// The item the rule permits.
    pub closed spec fn allowed_spec(self) -> T {
        self.allowed
    }

    /// The direction of the neighbor the rule restricts.
    pub closed spec fn direction_spec(self) -> Dir2D {
        self.direction
    }

    pub fn new(allowed: T, direction: Dir2D) -> (r: Neighbor2D<T>)
        ensures
            r == Neighbor2D::nb(allowed, direction),
            r.allowed_spec() == allowed,
            r.direction_spec() == direction,
    {
        Neighbor2D { allowed, direction }
    }
}

impl Relation for Neighbor2D<usize> {
    open spec fn spec_related(&self, at: (usize, usize)) -> Seq<((usize, usize), usize)> {
        match self.direction_spec().step_spec(at.0, at.1) {
            Some(p) => seq![(p, self.allowed_spec())],
            None => Seq::empty(),
        }
    }

    fn related(&self, at: (usize, usize)) -> (out: Vec<((usize, usize), usize)>) {
        let mut out: Vec<((usize, usize), usize)> = Vec::new();
        match self.direction.step(at.0, at.1) {
            Some(p) => {
                out.push((p, self.allowed));
            },
            None => {},
        }
        proof {
            assert(out@ =~= self.spec_related(at));
        }
        out
    }
}

/// The sum of the lengths of the first `y` rows.
pub open spec fn cells_upto<T>(items: Seq<Vec<T>>, y: int) -> int
    decreases y,
{
    if y <= 0 {
        0
    } else {
        cells_upto(items, y - 1) + items[y - 1]@.len()
    }
}

/// The grid rule that one direction contributes for the cell `(x, y)` of a
/// sample: the sample's item one step over becomes permitted there, when
/// that step stays inside the sample.
pub open spec fn neigh_entry<T>(items: Seq<Vec<T>>, d: Dir2D, x: usize, y: usize) -> Seq<
    Neighbor2D<T>,
> {
    match d.step_spec(x, y) {
        Some(p) => if p.1 < items.len() && p.0 < items[p.1 as int]@.len() {
            seq![Neighbor2D::nb(items[p.1 as int]@[p.0 as int], d)]
        } else {
            Seq::empty()
        },
        None => Seq::empty(),
    }
}

/// All grid rules read off a sample for its cell `(x, y)`, in the fixed
/// order up, down, left, right.
pub open spec fn cell_neighbors<T>(items: Seq<Vec<T>>, x: usize, y: usize) -> Seq<Neighbor2D<T>> {
    neigh_entry(items, Dir2D::Up, x, y) + neigh_entry(items, Dir2D::Down, x, y) + neigh_entry(
        items,
        Dir2D::Left,
        x,
        y,
    ) + neigh_entry(items, Dir2D::Right, x, y)
}

/// Reads a relation table off a sample grid: each cell contributes its item
/// together with one rule per in-bounds neighbor, permitting the sample's
/// neighboring item in that direction.  Cells come out row by row.
pub fn get_2d_rels<T: Copy>(items: &Vec<Vec<T>>) -> (out: Vec<(T, Vec<Neighbor2D<T>>)>)
    ensures
        out@.len() == cells_upto(items@, items@.len() as int),
        forall|y: int, x: int|
            0 <= y < items@.len() && 0 <= x < items@[y]@.len() ==> {
                &&& (#[trigger] out@[cells_upto(items@, y) + x]).0 == items@[y]@[x]
                &&& out@[cells_upto(items@, y) + x].1@ == cell_neighbors(
                    items@,
                    x as usize,
                    y as usize,
                )
            },
{
    let nrows = items.len();
    let mut out: Vec<(T, Vec<Neighbor2D<T>>)> = Vec::new();
    let mut y: usize = 0;
    while y < nrows
        invariant
            y <= nrows,
            nrows == items@.len(),
            out@.len() == cells_upto(items@, y as int),
            forall|y2: int, x2: int|
                0 <= y2 < y && 0 <= x2 < items@[y2]@.len() ==> {
                    &&& (#[trigger] out@[cells_upto(items@, y2) + x2]).0 == items@[y2]@[x2]
                    &&& out@[cells_upto(items@, y2) + x2].1@ == cell_neighbors(
                        items@,
                        x2 as usize,
                        y2 as usize,
                    )
                },
        decreases nrows - y,
    {
        let ncols = items[y].len();
        let mut x: usize = 0;
        proof {
            lemma_cells_upto_nonneg(items@, y as int);
        }
        while x < ncols
            invariant
                x <= ncols,
                y < nrows,
                nrows == items@.len(),
                ncols == items@[y as int]@.len(),
                out@.len() == cells_upto(items@, y as int) + x,
                cells_upto(items@, y as int) >= 0,
                forall|y2: int, x2: int|
                    0 <= y2 < y && 0 <= x2 < items@[y2]@.len() ==> {
                        &&& (#[trigger] out@[cells_upto(items@, y2) + x2]).0 == items@[y2]@[x2]
                        &&& out@[cells_upto(items@, y2) + x2].1@ == cell_neighbors(
                            items@,
                            x2 as usize,
                            y2 as usize,
                        )
                    },
                forall|x2: int|
                    0 <= x2 < x ==> {
                        &&& (#[trigger] out@[cells_upto(items@, y as int) + x2]).0 == items@[y as int]@[x2]
                        &&& out@[cells_upto(items@, y as int) + x2].1@ == cell_neighbors(
                            items@,
                            x2 as usize,
                            y as usize,
                        )
                    },
            decreases ncols - x,
        {
            let mut nbrs: Vec<Neighbor2D<T>> = Vec::new();
            let dirs = Dir2D::iter(x, y);
            let ghost gx = x;
            let nd = dirs.len();
            let mut di: usize = 0;
            while di < nd
                invariant
                    di <= nd,
                    x == gx,
                    y < nrows,
                    nrows == items@.len(),
                    dirs@ == Dir2D::iter_spec(x, y),
                    nd == dirs@.len(),
                    nbrs@ == flat_neigh(items@, dirs@.take(di as int)),
                decreases nd - di,
            {
                let ghost prefix = dirs@.take(di as int);
                let (d, p) = dirs[di];
                if p.1 < items.len() {
                    let row = &items[p.1];
                    if p.0 < row.len() {
                        nbrs.push(Neighbor2D::new(row[p.0], d));
                    }
                }
                proof {
                    assert(dirs@.take(di + 1).drop_last() =~= prefix);
                    assert(dirs@.take(di + 1).last() == dirs@[di as int]);
                    lemma_flat_neigh_step(items@, dirs@.take(di + 1));
                }
                di = di + 1;
            }
            proof {
                assert(dirs@.take(nd as int) =~= dirs@);
                lemma_flat_neigh_iter(items@, x, y);
            }
            let ghost old_out = out@;
            out.push((items[y][x], nbrs));
            proof {
                assert(out@[old_out.len() as int] == (items@[y as int]@[x as int], nbrs));
                assert forall|y2: int, x2: int|
                    0 <= y2 < y && 0 <= x2 < items@[y2]@.len() implies {
                    &&& (#[trigger] out@[cells_upto(items@, y2) + x2]).0 == items@[y2]@[x2]
                    &&& out@[cells_upto(items@, y2) + x2].1@ == cell_neighbors(
                        items@,
                        x2 as usize,
                        y2 as usize,
                    )
                } by {
                    lemma_cells_upto_mono(items@, y2 + 1, y as int);
                    lemma_cells_upto_nonneg(items@, y2);
                    assert(cells_upto(items@, y2) + x2 < cells_upto(items@, y2 + 1));
                    assert(out@[cells_upto(items@, y2) + x2] == old_out[cells_upto(items@, y2)
                        + x2]);
                }
                assert forall|x2: int| 0 <= x2 < x + 1 implies {
                    &&& (#[trigger] out@[cells_upto(items@, y as int) + x2]).0 == items@[y as int]@[x2]
                    &&& out@[cells_upto(items@, y as int) + x2].1@ == cell_neighbors(
                        items@,
                        x2 as usize,
                        y as usize,
                    )
                } by {
                    if x2 < x {
                        assert(out@[cells_upto(items@, y as int) + x2] == old_out[cells_upto(
                            items@,
                            y as int,
                        ) + x2]);
                    } else {
                        assert(cells_upto(items@, y as int) + x2 == old_out.len());
                    }
                }
            }
            x = x + 1;
        }
        y = y + 1;
    }
    out
}

/// The rules contributed by a list of direction entries, in order.
pub open spec fn flat_neigh<T>(items: Seq<Vec<T>>, entries: Seq<(Dir2D, (usize, usize))>) -> Seq<
    Neighbor2D<T>,
>
    decreases entries.len(),
{
    if entries.len() == 0 {
        Seq::empty()
    } else {
        flat_neigh(items, entries.drop_last()) + {
            let (d, p) = entries.last();
            if p.1 < items.len() && p.0 < items[p.1 as int]@.len() {
                seq![Neighbor2D::nb(items[p.1 as int]@[p.0 as int], d)]
            } else {
                Seq::empty()
            }
        }
    }
}

proof fn lemma_flat_neigh_step<T>(items: Seq<Vec<T>>, entries: Seq<(Dir2D, (usize, usize))>)
    requires
        entries.len() > 0,
    ensures
        flat_neigh(items, entries) == flat_neigh(items, entries.drop_last()) + ({
            let (d, p) = entries.last();
            if p.1 < items.len() && p.0 < items[p.1 as int]@.len() {
                seq![Neighbor2D::nb(items[p.1 as int]@[p.0 as int], d)]
            } else {
                Seq::empty()
            }
        }),
{
}

/// Walking the direction entries of one cell yields exactly that cell's
/// rules.
proof fn lemma_flat_neigh_iter<T>(items: Seq<Vec<T>>, x: usize, y: usize)
    ensures
        flat_neigh(items, Dir2D::iter_spec(x, y)) == cell_neighbors(items, x, y),
{
    let entries = Dir2D::iter_spec(x, y);
    assert(flat_neigh(items, entries) =~= cell_neighbors(items, x, y)) by {
        lemma_flat_neigh_entries(items, x, y);
    }
}

proof fn lemma_flat_neigh_entries<T>(items: Seq<Vec<T>>, x: usize, y: usize)
    ensures
        flat_neigh(items, Dir2D::iter_spec(x, y)) =~= neigh_entry(items, Dir2D::Up, x, y)
            + neigh_entry(items, Dir2D::Down, x, y) + neigh_entry(items, Dir2D::Left, x, y)
            + neigh_entry(items, Dir2D::Right, x, y),
{
    let up = Dir2D::Up.dir_entry(x, y);
    let down = Dir2D::Down.dir_entry(x, y);
    let left = Dir2D::Left.dir_entry(x, y);
    let right = Dir2D::Right.dir_entry(x, y);
    let whole = Dir2D::iter_spec(x, y);
    lemma_flat_neigh_concat(items, up + down + left, right);
    lemma_flat_neigh_concat(items, up + down, left);
    lemma_flat_neigh_concat(items, up, down);
    assert(up + down + left + right == whole);
    assert(flat_neigh(items, up) =~= neigh_entry(items, Dir2D::Up, x, y)) by {
        lemma_flat_neigh_entry(items, Dir2D::Up, x, y);
    }
    assert(flat_neigh(items, down) =~= neigh_entry(items, Dir2D::Down, x, y)) by {
        lemma_flat_neigh_entry(items, Dir2D::Down, x, y);
    }
    assert(flat_neigh(items, left) =~= neigh_entry(items, Dir2D::Left, x, y)) by {
        lemma_flat_neigh_entry(items, Dir2D::Left, x, y);
    }
    assert(flat_neigh(items, right) =~= neigh_entry(items, Dir2D::Right, x, y)) by {
        lemma_flat_neigh_entry(items, Dir2D::Right, x, y);
    }
}

/// `flat_neigh` of one direction's entry list is that direction's rule
/// contribution.
proof fn lemma_flat_neigh_entry<T>(items: Seq<Vec<T>>, d: Dir2D, x: usize, y: usize)
    ensures
        flat_neigh(items, d.dir_entry(x, y)) =~= neigh_entry(items, d, x, y),
{
    match d.step_spec(x, y) {
        Some(p) => {
            let entries = seq![(d, p)];
            assert(entries.len() == 1);
            assert(entries.last() == (d, p));
            assert(entries.drop_last() =~= Seq::<(Dir2D, (usize, usize))>::empty());
            assert(flat_neigh(items, entries.drop_last()) =~= Seq::<Neighbor2D<T>>::empty());
        },
        None => {
            assert(d.dir_entry(x, y) =~= Seq::<(Dir2D, (usize, usize))>::empty());
        },
    }
}

proof fn lemma_cells_upto_mono<T>(items: Seq<Vec<T>>, a: int, b: int)
    requires
        0 <= a <= b,
    ensures
        cells_upto(items, a) <= cells_upto(items, b),
    decreases b,
{
    if a < b {
        lemma_cells_upto_mono(items, a, b - 1);
    }
}

/// `flat_neigh` distributes over concatenation.
proof fn lemma_flat_neigh_concat<T>(
    items: Seq<Vec<T>>,
    s1: Seq<(Dir2D, (usize, usize))>,
    s2: Seq<(Dir2D, (usize, usize))>,
)
    ensures
        flat_neigh(items, s1 + s2) =~= flat_neigh(items, s1) + flat_neigh(items, s2),
    decreases s2.len(),
{
    if s2.len() == 0 {
        assert(s1 + s2 =~= s1);
    } else {
        lemma_flat_neigh_concat(items, s1, s2.drop_last());
        assert((s1 + s2).drop_last() =~= s1 + s2.drop_last());
        assert((s1 + s2).last() == s2.last());
    }
}

proof fn lemma_cells_upto_nonneg<T>(items: Seq<Vec<T>>, y: int)
    ensures
        cells_upto(items, y) >= 0,
    decreases y,
{
    if y > 0 {
        lemma_cells_upto_nonneg(items, y - 1);
    }
}

} // verus!
