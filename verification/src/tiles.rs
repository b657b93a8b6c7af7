use vstd::prelude::*;
use crate::symmetry::Rot;
use crate::rels::Dir2D;

verus! {

/// How a tile behaves under rotation: after `cardinality` degrees it looks
/// the same again, and each side type lists the rotations at which that
/// side faces right.
pub struct TileDesc<T> {
    pub cardinality: usize,
    pub desc: Vec<(T, Vec<Rot>)>,
}

impl<T> TileDesc<T> {
    pub fn new(cardinality: usize, desc: Vec<(T, Vec<Rot>)>) -> (r: TileDesc<T>)
        ensures
            r.cardinality == cardinality,
            r.desc == desc,
    {
        TileDesc { cardinality, desc }
    }
}

/// A tile set: one rotation description per tile.
pub struct Desc<K, T> {
    pub tiles: Vec<(K, TileDesc<T>)>,
}

/// The number of quarter-turn rotations below `card`.
pub open spec fn rot_count(card: usize) -> int {
    ((card as int) + 89) / 90
}

/// The number of tile configurations contributed by the first `i` tiles.
pub open spec fn tile_items_upto<K, T>(tiles: Seq<(K, TileDesc<T>)>, i: int) -> int
    decreases i,
{
    if i <= 0 {
        0
    } else {
        tile_items_upto(tiles, i - 1) + rot_count(tiles[i - 1].1.cardinality)
    }
}

pub proof fn lemma_tile_items_upto_nonneg<K, T>(tiles: Seq<(K, TileDesc<T>)>, i: int)
    ensures
        tile_items_upto(tiles, i) >= 0,
    decreases i,
{
    if i > 0 {
        lemma_tile_items_upto_nonneg(tiles, i - 1);
        assert(rot_count(tiles[i - 1].1.cardinality) >= 0);
    }
}

impl<K: Copy, T> Desc<K, T> {
    /// All tile configurations this set offers: each tile paired with each
    /// of its quarter-turn rotations, tile by tile.
    pub fn items(&self) -> (out: Vec<(K, Rot)>)
        requires
            forall|ti: int| 0 <= ti < self.tiles@.len() ==> (#[trigger] self.tiles@[ti]).1
                .cardinality <= usize::MAX - 90,
        ensures
            out@.len() == tile_items_upto(self.tiles@, self.tiles@.len() as int),
            forall|ti: int, r: int|
                0 <= ti < self.tiles@.len() && 0 <= r < rot_count(
                    self.tiles@[ti].1.cardinality,
                ) ==> {
                    &&& (#[trigger] out@[tile_items_upto(self.tiles@, ti) + r]).0 == self.tiles@[
                        ti].0
                    &&& out@[tile_items_upto(self.tiles@, ti) + r].1.deg() == 90 * r
                },
    {
        let nt = self.tiles.len();
        let mut out: Vec<(K, Rot)> = Vec::new();
        let mut ti: usize = 0;
        while ti < nt
            invariant
                ti <= nt,
                nt == self.tiles@.len(),
                forall|t2: int| 0 <= t2 < nt ==> (#[trigger] self.tiles@[t2]).1.cardinality
                    <= usize::MAX - 90,
                out@.len() == tile_items_upto(self.tiles@, ti as int),
                forall|t2: int, r: int|
                    0 <= t2 < ti && 0 <= r < rot_count(self.tiles@[t2].1.cardinality) ==> {
                        &&& (#[trigger] out@[tile_items_upto(self.tiles@, t2) + r]).0 == self
                            .tiles@[t2].0
                        &&& out@[tile_items_upto(self.tiles@, t2) + r].1.deg() == 90 * r
                    },
            decreases nt - ti,
        {
            let name = self.tiles[ti].0;
            let card = self.tiles[ti].1.cardinality;
            let rots = Rot::up_to(card);
            let nr = rots.len();
            let ghost base = tile_items_upto(self.tiles@, ti as int);
            proof {
                lemma_tile_items_upto_nonneg(self.tiles@, ti as int);
            }
            let mut r: usize = 0;
            while r < nr
                invariant
                    r <= nr,
                    ti < nt,
                    nt == self.tiles@.len(),
                    base == tile_items_upto(self.tiles@, ti as int),
                    base >= 0,
                    name == self.tiles@[ti as int].0,
                    nr == rot_count(self.tiles@[ti as int].1.cardinality),
                    rots@.len() == nr,
                    forall|k: int| 0 <= k < nr ==> (#[trigger] rots@[k]).deg() == 90 * k,
                    out@.len() == base + r,
                    forall|t2: int, r2: int|
                        0 <= t2 < ti && 0 <= r2 < rot_count(self.tiles@[t2].1.cardinality) ==> {
                            &&& (#[trigger] out@[tile_items_upto(self.tiles@, t2) + r2]).0 == self
                                .tiles@[t2].0
                            &&& out@[tile_items_upto(self.tiles@, t2) + r2].1.deg() == 90 * r2
                        },
                    forall|r2: int|
                        0 <= r2 < r ==> {
                            &&& (#[trigger] out@[base + r2]).0 == self.tiles@[ti as int].0
                            &&& out@[base + r2].1.deg() == 90 * r2
                        },
                decreases nr - r,
            {
                let ghost old_out = out@;
                out.push((name, rots[r]));
                proof {
                    assert(out@[old_out.len() as int] == (name, rots@[r as int]));
                    assert forall|t2: int, r2: int|
                        0 <= t2 < ti && 0 <= r2 < rot_count(
                            self.tiles@[t2].1.cardinality,
                        ) implies {
                        &&& (#[trigger] out@[tile_items_upto(self.tiles@, t2) + r2]).0 == self
                            .tiles@[t2].0
                        &&& out@[tile_items_upto(self.tiles@, t2) + r2].1.deg() == 90 * r2
                    } by {
                        lemma_tile_items_mono(self.tiles@, t2 + 1, ti as int);
                        lemma_tile_items_upto_nonneg(self.tiles@, t2);
                        assert(tile_items_upto(self.tiles@, t2) + r2 < tile_items_upto(
                            self.tiles@,
                            t2 + 1,
                        ));
                        assert(out@[tile_items_upto(self.tiles@, t2) + r2] == old_out[
                            tile_items_upto(self.tiles@, t2) + r2]);
                    }
                }
                r = r + 1;
            }
            ti = ti + 1;
        }
        out
    }
}

pub proof fn lemma_tile_items_mono<K, T>(tiles: Seq<(K, TileDesc<T>)>, a: int, b: int)
    requires
        0 <= a <= b,
    ensures
        tile_items_upto(tiles, a) <= tile_items_upto(tiles, b),
    decreases b,
{
    if a < b {
        lemma_tile_items_mono(tiles, a, b - 1);
        assert(rot_count(tiles[b - 1].1.cardinality) >= 0);
    }
}

/// The adjacency table has no repeated key.
pub open spec fn table_keys_distinct(
    table: Seq<((usize, Rot), Vec<((usize, Rot), Dir2D)>)>,
) -> bool {
    forall|q1: int, q2: int|
        0 <= q1 < table.len() && 0 <= q2 < table.len() && q1 != q2 ==> (#[trigger] table[q1]).0
            != (#[trigger] table[q2]).0
}

/// Every neighbor list of the table is free of duplicates.
pub open spec fn table_lists_distinct(
    table: Seq<((usize, Rot), Vec<((usize, Rot), Dir2D)>)>,
) -> bool {
    forall|q: int, i1: int, i2: int|
        0 <= q < table.len() && 0 <= i1 < table[q].1@.len() && 0 <= i2 < table[q].1@.len() && i1
            != i2 ==> #[trigger] table[q].1@[i1] != #[trigger] table[q].1@[i2]
}

/// The pair `e` stands in `key`'s neighbor list of the table.
pub open spec fn entry_in_table(
    table: Seq<((usize, Rot), Vec<((usize, Rot), Dir2D)>)>,
    key: (usize, Rot),
    e: ((usize, Rot), Dir2D),
) -> bool {
    exists|q: int, i: int|
        {
            &&& 0 <= q < table.len()
            &&& table[q].0 == key
            &&& 0 <= i < table[q].1@.len()
            &&& (#[trigger] table[q].1@[i]) == e
        }
}

/// The adjacency table is symmetric: whenever `(b, dir)` is permitted next
/// to `a`, then `(a, dir.opp())` is permitted next to `b`.
pub open spec fn table_symmetric(table: Seq<((usize, Rot), Vec<((usize, Rot), Dir2D)>)>) -> bool {
    forall|q: int, i: int|
        0 <= q < table.len() && 0 <= i < table[q].1@.len() ==> entry_in_table(
            table,
            (#[trigger] table[q].1@[i]).0,
            (table[q].0, table[q].1@[i].1.opp_spec()),
        )
}

/// The index of `key` in the table, if present.
pub(crate) fn table_pos(table: &Vec<((usize, Rot), Vec<((usize, Rot), Dir2D)>)>, key: (usize, Rot)) -> (r:
    Option<usize>)
    ensures
        r matches Some(q) ==> q < table@.len() && table@[q as int].0 == key,
        r is None ==> forall|q: int| 0 <= q < table@.len() ==> (#[trigger] table@[q]).0 != key,
{
    let n = table.len();
    let mut q: usize = 0;
    while q < n
        invariant
            q <= n,
            n == table@.len(),
            forall|q2: int| 0 <= q2 < q ==> (#[trigger] table@[q2]).0 != key,
        decreases n - q,
    {
        let k = table[q].0;
        if k.0 == key.0 && k.1 == key.1 {
            return Some(q);
        }
        q = q + 1;
    }
    None
}

/// Whether `elem` already stands in the list.
pub(crate) fn list_has(list: &Vec<((usize, Rot), Dir2D)>, elem: ((usize, Rot), Dir2D)) -> (r: bool)
    ensures
        r == exists|i: int| 0 <= i < list@.len() && list@[i] == elem,
{
    let n = list.len();
    let mut i: usize = 0;
    while i < n
        invariant
            i <= n,
            n == list@.len(),
            forall|i2: int| 0 <= i2 < i ==> list@[i2] != elem,
        decreases n - i,
    {
        let e = list[i];
        if e.0.0 == elem.0.0 && e.0.1 == elem.0.1 && e.1 == elem.1 {
            return true;
        }
        i = i + 1;
    }
    false
}

/// Records that `elem` is permitted next to `key`: finds or creates the
/// key's list and adds the element to it unless it is already there, so
/// keys stay unique and lists stay duplicate-free.
pub(crate) fn table_insert(
    table: &mut Vec<((usize, Rot), Vec<((usize, Rot), Dir2D)>)>,
    key: (usize, Rot),
    elem: ((usize, Rot), Dir2D),
)
    requires
        table_keys_distinct(old(table)@),
        table_lists_distinct(old(table)@),
    ensures
        table_keys_distinct(final(table)@),
        table_lists_distinct(final(table)@),
        forall|key2: (usize, Rot), e2: ((usize, Rot), Dir2D)|
            #[trigger] entry_in_table(old(table)@, key2, e2) ==> entry_in_table(
                final(table)@,
                key2,
                e2,
            ),
        entry_in_table(final(table)@, key, elem),
        forall|key2: (usize, Rot), e2: ((usize, Rot), Dir2D)|
            #[trigger] entry_in_table(final(table)@, key2, e2) ==> entry_in_table(
                old(table)@,
                key2,
                e2,
            ) || (key2 == key && e2 == elem),
{
    match table_pos(table, key) {
        None => {
            let mut list: Vec<((usize, Rot), Dir2D)> = Vec::new();
            list.push(elem);
            let ghost old_table = table@;
            table.push((key, list));
            proof {
                assert(table@[old_table.len() as int].0 == key);
                assert forall|q1: int, q2: int|
                    0 <= q1 < table@.len() && 0 <= q2 < table@.len() && q1 != q2 implies (
                #[trigger] table@[q1]).0 != (#[trigger] table@[q2]).0 by {
                    if q1 < old_table.len() && q2 < old_table.len() {
                        assert(table@[q1] == old_table[q1]);
                        assert(table@[q2] == old_table[q2]);
                    } else if q1 < old_table.len() {
                        assert(table@[q1] == old_table[q1]);
                        assert(old_table[q1].0 != key);
                    } else {
                        assert(table@[q2] == old_table[q2]);
                        assert(old_table[q2].0 != key);
                    }
                }
                assert forall|q: int, i1: int, i2: int|
                    0 <= q < table@.len() && 0 <= i1 < table@[q].1@.len() && 0 <= i2 < table@[q]
                        .1@.len() && i1 != i2 implies #[trigger] table@[q].1@[i1]
                    != #[trigger] table@[q].1@[i2] by {
                    if q < old_table.len() {
                        assert(table@[q] == old_table[q]);
                    }
                }
                assert forall|key2: (usize, Rot), e2: ((usize, Rot), Dir2D)|
                    #[trigger] entry_in_table(old_table, key2, e2) implies entry_in_table(
                    table@,
                    key2,
                    e2,
                ) by {
                    let (qo, io) = choose|qo: int, io: int|
                        {
                            &&& 0 <= qo < old_table.len()
                            &&& old_table[qo].0 == key2
                            &&& 0 <= io < old_table[qo].1@.len()
                            &&& (#[trigger] old_table[qo].1@[io]) == e2
                        };
                    assert(table@[qo] == old_table[qo]);
                    assert((table@[qo].1@[io]) == e2);
                }
                assert(entry_in_table(table@, key, elem)) by {
                    assert((table@[old_table.len() as int].1@[0]) == elem);
                }
                assert forall|key2: (usize, Rot), e2: ((usize, Rot), Dir2D)|
                    #[trigger] entry_in_table(table@, key2, e2) implies entry_in_table(
                    old_table,
                    key2,
                    e2,
                ) || (key2 == key && e2 == elem) by {
                    let (qo, io) = choose|qo: int, io: int|
                        {
                            &&& 0 <= qo < table@.len()
                            &&& table@[qo].0 == key2
                            &&& 0 <= io < table@[qo].1@.len()
                            &&& (#[trigger] table@[qo].1@[io]) == e2
                        };
                    if qo < old_table.len() {
                        assert(table@[qo] == old_table[qo]);
                        assert((old_table[qo].1@[io]) == e2);
                    } else {
                        assert((table@[qo].1@[0]) == elem);
                    }
                }
            }
        },
        Some(q) => {
            let ghost old_table = table@;
            let mut entry = table.remove(q);
            let ghost base_list = entry.1@;
            if !list_has(&entry.1, elem) {
                let ghost old_list = entry.1@;
                entry.1.push(elem);
                proof {
                    assert forall|i1: int, i2: int|
                        0 <= i1 < entry.1@.len() && 0 <= i2 < entry.1@.len() && i1
                            != i2 implies entry.1@[i1] != entry.1@[i2] by {
                        assert(table_lists_distinct(old_table));
                        assert(old_table[q as int].1@ == old_list);
                        if i1 < old_list.len() && i2 < old_list.len() {
                            assert(entry.1@[i1] == old_list[i1]);
                            assert(entry.1@[i2] == old_list[i2]);
                            assert(old_table[q as int].1@[i1] != old_table[q as int].1@[i2]);
                        } else if i1 < old_list.len() {
                            assert(entry.1@[i2] == elem);
                            assert(entry.1@[i1] == old_list[i1]);
                        } else {
                            assert(entry.1@[i1] == elem);
                            assert(entry.1@[i2] == old_list[i2]);
                        }
                    }
                }
            }
            let ghost mid_table = table@;
            let ghost new_entry = entry;
            table.push(entry);
            proof {
                assert(mid_table =~= old_table.remove(q as int));
                assert(new_entry.0 == old_table[q as int].0);
                assert forall|q1: int, q2: int|
                    0 <= q1 < table@.len() && 0 <= q2 < table@.len() && q1 != q2 implies (
                #[trigger] table@[q1]).0 != (#[trigger] table@[q2]).0 by {
                    if q1 < mid_table.len() {
                        lemma_table_entry_origin(old_table, mid_table, q as int, q1);
                    } else {
                        assert(table@[q1] == new_entry);
                    }
                    if q2 < mid_table.len() {
                        lemma_table_entry_origin(old_table, mid_table, q as int, q2);
                    } else {
                        assert(table@[q2] == new_entry);
                    }
                }
                assert forall|q3: int, i1: int, i2: int|
                    0 <= q3 < table@.len() && 0 <= i1 < table@[q3].1@.len() && 0 <= i2 < table@[
                        q3].1@.len() && i1 != i2 implies #[trigger] table@[q3].1@[i1]
                    != #[trigger] table@[q3].1@[i2] by {
                    if q3 < mid_table.len() {
                        lemma_table_entry_origin(old_table, mid_table, q as int, q3);
                    }
                }
                assert(base_list == old_table[q as int].1@);
                assert(new_entry.1@ == base_list || new_entry.1@ == base_list.push(elem));
                assert forall|key2: (usize, Rot), e2: ((usize, Rot), Dir2D)|
                    #[trigger] entry_in_table(old_table, key2, e2) implies entry_in_table(
                    table@,
                    key2,
                    e2,
                ) by {
                    let (qo, io) = choose|qo: int, io: int|
                        {
                            &&& 0 <= qo < old_table.len()
                            &&& old_table[qo].0 == key2
                            &&& 0 <= io < old_table[qo].1@.len()
                            &&& (#[trigger] old_table[qo].1@[io]) == e2
                        };
                    if qo == q as int {
                        assert(new_entry.0 == key2);
                        assert((new_entry.1@[io]) == e2);
                        assert((table@[table@.len() - 1].1@[io]) == e2);
                    } else if qo < q as int {
                        lemma_table_entry_origin(old_table, mid_table, q as int, qo);
                        assert(table@[qo] == mid_table[qo]);
                        assert((table@[qo].1@[io]) == e2);
                    } else {
                        lemma_table_entry_origin(old_table, mid_table, q as int, qo - 1);
                        assert(table@[qo - 1] == mid_table[qo - 1]);
                        assert((table@[qo - 1].1@[io]) == e2);
                    }
                }
                assert(entry_in_table(table@, key, elem)) by {
                    if new_entry.1@ == base_list.push(elem) {
                        assert((table@[table@.len() - 1].1@[base_list.len() as int]) == elem);
                    } else {
                        let io = choose|io: int|
                            0 <= io < base_list.len() && base_list[io] == elem;
                        assert((table@[table@.len() - 1].1@[io]) == elem);
                    }
                }
                assert forall|key2: (usize, Rot), e2: ((usize, Rot), Dir2D)|
                    #[trigger] entry_in_table(table@, key2, e2) implies entry_in_table(
                    old_table,
                    key2,
                    e2,
                ) || (key2 == key && e2 == elem) by {
                    let (qo, io) = choose|qo: int, io: int|
                        {
                            &&& 0 <= qo < table@.len()
                            &&& table@[qo].0 == key2
                            &&& 0 <= io < table@[qo].1@.len()
                            &&& (#[trigger] table@[qo].1@[io]) == e2
                        };
                    if qo < mid_table.len() {
                        lemma_table_entry_origin(old_table, mid_table, q as int, qo);
                        if qo < q as int {
                            assert((old_table[qo].1@[io]) == e2);
                        } else {
                            assert((old_table[qo + 1].1@[io]) == e2);
                        }
                    } else {
                        assert(table@[qo] == new_entry);
                        if io < base_list.len() {
                            assert((old_table[q as int].1@[io]) == e2);
                        } else {
                            assert(e2 == elem && key2 == key);
                        }
                    }
                }
            }
        },
    }
}

/// After removing index `q`, entry `q1` of the remainder is the original
/// entry at `q1`, or at `q1 + 1` past the removed index.
proof fn lemma_table_entry_origin(
    old_table: Seq<((usize, Rot), Vec<((usize, Rot), Dir2D)>)>,
    mid_table: Seq<((usize, Rot), Vec<((usize, Rot), Dir2D)>)>,
    q: int,
    q1: int,
)
    requires
        0 <= q < old_table.len(),
        mid_table == old_table.remove(q),
        0 <= q1 < mid_table.len(),
    ensures
        q1 < q ==> mid_table[q1] == old_table[q1],
        q1 >= q ==> mid_table[q1] == old_table[q1 + 1],
{
}

/// The rotation that aligns a listed rotation `d` onto the facing `o`,
/// wrapped at `card` (the specification of `Rot::to`).
pub open spec fn spec_to(d: int, o: int, card: int) -> int {
    ((if o < d {
        o + 360
    } else {
        o
    }) - d) % card
}

/// `i` further quarter turns from `d`, wrapped at `card` (the
/// specification of `Rot::rot_90_n`).
pub open spec fn spec_rot_n(d: int, card: int, i: int) -> int {
    (d + 90 * i) % card
}

/// The direction of turn slot `i`, in the order right, up, left, down.
pub open spec fn dir_of(i: int) -> Dir2D {
    if i == 0 {
        Dir2D::Right
    } else if i == 1 {
        Dir2D::Up
    } else if i == 2 {
        Dir2D::Left
    } else {
        Dir2D::Down
    }
}

/// The table key of tile `ti`: its listed rotation `rot_deg` aligned onto
/// the facing `o` and then turned `i` quarter turns.
pub open spec fn aligned_key(ti: int, rot_deg: int, o: int, card: int, i: int) -> (usize, Rot) {
    (ti as usize, Rot::deg_rot(spec_rot_n(spec_to(rot_deg, o, card), card, i)))
}

/// The tuple names one pairing the tile set generates: side `si` of tile
/// `ai` and the first side `bm` of tile `bi` carrying the same side type,
/// one listed rotation of each, and one of the four turn slots.
pub open spec fn pairing_source<K, T>(
    tiles: Seq<(K, TileDesc<T>)>,
    ai: int,
    bi: int,
    si: int,
    bm: int,
    ari: int,
    bri: int,
    i: int,
) -> bool {
    &&& 0 <= ai < tiles.len()
    &&& 0 <= bi < tiles.len()
    &&& 0 <= si < tiles[ai].1.desc@.len()
    &&& 0 <= bm < tiles[bi].1.desc@.len()
    &&& tiles[bi].1.desc@[bm].0 == tiles[ai].1.desc@[si].0
    &&& (forall|b2: int|
        0 <= b2 < bm ==> (#[trigger] tiles[bi].1.desc@[b2]).0 != tiles[ai].1.desc@[si].0)
    &&& 0 <= ari < tiles[ai].1.desc@[si].1@.len()
    &&& 0 <= bri < tiles[bi].1.desc@[bm].1@.len()
    &&& 0 <= i < 4
}

/// Both directions of the pairing the tuple names stand in the table:
/// tile `ai` aligned to face right may have tile `bi` aligned to face left
/// in direction `i`, and mirrored.
pub open spec fn pairing_recorded<K, T>(
    tiles: Seq<(K, TileDesc<T>)>,
    table: Seq<((usize, Rot), Vec<((usize, Rot), Dir2D)>)>,
    ai: int,
    bi: int,
    si: int,
    bm: int,
    ari: int,
    bri: int,
    i: int,
) -> bool {
    let a_key = aligned_key(
        ai,
        tiles[ai].1.desc@[si].1@[ari].deg(),
        0,
        tiles[ai].1.cardinality as int,
        i,
    );
    let b_key = aligned_key(
        bi,
        tiles[bi].1.desc@[bm].1@[bri].deg(),
        180,
        tiles[bi].1.cardinality as int,
        i,
    );
    &&& entry_in_table(table, a_key, (b_key, dir_of(i)))
    &&& entry_in_table(table, b_key, (a_key, dir_of(i).opp_spec()))
}

/// The tuple lies lexicographically before the given loop position.
pub open spec fn lex_before(
    a2: int,
    b2: int,
    s2: int,
    r2: int,
    r3: int,
    i2: int,
    ai: int,
    bi: int,
    si: int,
    ari: int,
    bri: int,
    ii: int,
) -> bool {
    ||| a2 < ai
    ||| (a2 == ai && b2 < bi)
    ||| (a2 == ai && b2 == bi && s2 < si)
    ||| (a2 == ai && b2 == bi && s2 == si && r2 < ari)
    ||| (a2 == ai && b2 == bi && s2 == si && r2 == ari && r3 < bri)
    ||| (a2 == ai && b2 == bi && s2 == si && r2 == ari && r3 == bri && i2 < ii)
}

/// The table entry `(k, e)` is one of the two directions of the pairing
/// the tuple names.
pub open spec fn pairing_entry<K, T>(
    tiles: Seq<(K, TileDesc<T>)>,
    ai: int,
    bi: int,
    si: int,
    bm: int,
    ari: int,
    bri: int,
    i: int,
    k: (usize, Rot),
    e: ((usize, Rot), Dir2D),
) -> bool {
    let a_key = aligned_key(
        ai,
        tiles[ai].1.desc@[si].1@[ari].deg(),
        0,
        tiles[ai].1.cardinality as int,
        i,
    );
    let b_key = aligned_key(
        bi,
        tiles[bi].1.desc@[bm].1@[bri].deg(),
        180,
        tiles[bi].1.cardinality as int,
        i,
    );
    ||| (k == a_key && e == (b_key, dir_of(i)))
    ||| (k == b_key && e == (a_key, dir_of(i).opp_spec()))
}

/// Every entry of the table arises from some generated pairing: the table
/// holds nothing beyond what the tile set's matching sides produce.
pub open spec fn table_entries_sound<K, T>(
    tiles: Seq<(K, TileDesc<T>)>,
    table: Seq<((usize, Rot), Vec<((usize, Rot), Dir2D)>)>,
) -> bool {
    forall|k: (usize, Rot), e: ((usize, Rot), Dir2D)|
        #[trigger] entry_in_table(table, k, e) ==> exists|
            a2: int,
            b2: int,
            s2: int,
            m2: int,
            r2: int,
            r3: int,
            i2: int,
        |
            #[trigger] pairing_source(tiles, a2, b2, s2, m2, r2, r3, i2) && pairing_entry(
                tiles,
                a2,
                b2,
                s2,
                m2,
                r2,
                r3,
                i2,
                k,
                e,
            )
}

/// Inserting a pairing and then its mirror keeps the table symmetric.
proof fn lemma_paired_insert_symmetric(
    t0: Seq<((usize, Rot), Vec<((usize, Rot), Dir2D)>)>,
    t1: Seq<((usize, Rot), Vec<((usize, Rot), Dir2D)>)>,
    t2: Seq<((usize, Rot), Vec<((usize, Rot), Dir2D)>)>,
    a_key: (usize, Rot),
    b_key: (usize, Rot),
    dir: Dir2D,
)
    requires
        table_symmetric(t0),
        forall|key2: (usize, Rot), e2: ((usize, Rot), Dir2D)|
            #[trigger] entry_in_table(t0, key2, e2) ==> entry_in_table(t1, key2, e2),
        entry_in_table(t1, a_key, (b_key, dir)),
        forall|key2: (usize, Rot), e2: ((usize, Rot), Dir2D)|
            #[trigger] entry_in_table(t1, key2, e2) ==> entry_in_table(t0, key2, e2) || (key2
                == a_key && e2 == (b_key, dir)),
        forall|key2: (usize, Rot), e2: ((usize, Rot), Dir2D)|
            #[trigger] entry_in_table(t1, key2, e2) ==> entry_in_table(t2, key2, e2),
        entry_in_table(t2, b_key, (a_key, dir.opp_spec())),
        forall|key2: (usize, Rot), e2: ((usize, Rot), Dir2D)|
            #[trigger] entry_in_table(t2, key2, e2) ==> entry_in_table(t1, key2, e2) || (key2
                == b_key && e2 == (a_key, dir.opp_spec())),
    ensures
        table_symmetric(t2),
{
    assert forall|q: int, i: int|
        0 <= q < t2.len() && 0 <= i < t2[q].1@.len() implies entry_in_table(
        t2,
        (#[trigger] t2[q].1@[i]).0,
        (t2[q].0, t2[q].1@[i].1.opp_spec()),
    ) by {
        let key2 = t2[q].0;
        let e2 = t2[q].1@[i];
        assert(entry_in_table(t2, key2, e2));
        if entry_in_table(t1, key2, e2) {
            if entry_in_table(t0, key2, e2) {
                let (qo, io) = choose|qo: int, io: int|
                    {
                        &&& 0 <= qo < t0.len()
                        &&& t0[qo].0 == key2
                        &&& 0 <= io < t0[qo].1@.len()
                        &&& (#[trigger] t0[qo].1@[io]) == e2
                    };
                assert(entry_in_table(t0, (t0[qo].1@[io]).0, (t0[qo].0, t0[qo].1@[io].1.opp_spec())));
                assert(entry_in_table(t0, e2.0, (key2, e2.1.opp_spec())));
                assert(entry_in_table(t1, e2.0, (key2, e2.1.opp_spec())));
                assert(entry_in_table(t2, e2.0, (key2, e2.1.opp_spec())));
            } else {
                assert(key2 == a_key && e2 == (b_key, dir));
                assert(entry_in_table(t2, b_key, (a_key, dir.opp_spec())));
                assert(entry_in_table(t2, e2.0, (key2, e2.1.opp_spec())));
            }
        } else {
            assert(key2 == b_key && e2 == (a_key, dir.opp_spec()));
            assert(dir.opp_spec().opp_spec() == dir);
            assert(entry_in_table(t1, a_key, (b_key, dir)));
            assert(entry_in_table(t2, a_key, (b_key, dir)));
            assert(entry_in_table(t2, e2.0, (key2, e2.1.opp_spec())));
        }
    }
}

impl<K: Copy> Desc<K, usize> {
    /// The adjacency table the tile set induces, keyed by tile index and
    /// rotation.  The index is the tile's position in `tiles`: where
    /// `items` pairs the caller's own tile keys with rotations, this table
    /// names tiles by position, and callers correlate the two by position.
    /// Two configurations may sit next to each other in a
    /// direction when they present matching side types there.  Each side
    /// entry of tile `a` that tile `b` also carries produces, for every
    /// pair of listed rotations and every direction, one permitted pairing
    /// and its mirror image.  Keys are unique, each neighbor list is
    /// duplicate-free, the table is symmetric (whatever may stand next to
    /// a configuration may also have that configuration next to it, in the
    /// opposite direction), and every generated pairing is present: see
    /// `pairing_source` and `pairing_recorded`.
    pub fn rels(&self) -> (out: Vec<((usize, Rot), Vec<((usize, Rot), Dir2D)>)>)
        requires
            forall|ti: int| 0 <= ti < self.tiles@.len() ==> 1 <= (#[trigger] self.tiles@[ti]).1
                .cardinality <= 0x1000_0000,
            forall|ti: int, si: int, ri: int|
                0 <= ti < self.tiles@.len() && 0 <= si < (#[trigger] self.tiles@[ti]).1.desc@.len()
                    && 0 <= ri < self.tiles@[ti].1.desc@[si].1@.len() ==> (
                #[trigger] self.tiles@[ti].1.desc@[si].1@[ri]).deg() <= 360,
        ensures
            table_keys_distinct(out@),
            table_lists_distinct(out@),
            table_symmetric(out@),
            table_entries_sound(self.tiles@, out@),
            forall|a2: int, b2: int, s2: int, m2: int, r2: int, r3: int, i2: int|
                #[trigger] pairing_source(self.tiles@, a2, b2, s2, m2, r2, r3, i2)
                    ==> pairing_recorded(self.tiles@, out@, a2, b2, s2, m2, r2, r3, i2),
    {
        let nt = self.tiles.len();
        let mut out: Vec<((usize, Rot), Vec<((usize, Rot), Dir2D)>)> = Vec::new();
        let mut dirs: Vec<Dir2D> = Vec::new();
        dirs.push(Dir2D::Right);
        dirs.push(Dir2D::Up);
        dirs.push(Dir2D::Left);
        dirs.push(Dir2D::Down);
        proof {
            assert(dirs@[0] == Dir2D::Right);
            assert(dirs@[1] == Dir2D::Up);
            assert(dirs@[2] == Dir2D::Left);
            assert(dirs@[3] == Dir2D::Down);
            // The empty table holds no entry at all.
            assert forall|k2: (usize, Rot), e2: ((usize, Rot), Dir2D)|
                #[trigger] entry_in_table(out@, k2, e2) implies exists|
                a2: int,
                b2: int,
                s2: int,
                m2: int,
                r2: int,
                r3: int,
                i2: int,
            |
                #[trigger] pairing_source(self.tiles@, a2, b2, s2, m2, r2, r3, i2)
                    && pairing_entry(self.tiles@, a2, b2, s2, m2, r2, r3, i2, k2, e2) by {
                let (q, iq) = choose|q: int, iq: int|
                    {
                        &&& 0 <= q < out@.len()
                        &&& out@[q].0 == k2
                        &&& 0 <= iq < out@[q].1@.len()
                        &&& (#[trigger] out@[q].1@[iq]) == e2
                    };
                assert(false);
            }
            assert(table_entries_sound(self.tiles@, out@));
        }
        let mut ai: usize = 0;
        while ai < nt
            invariant
                ai <= nt,
                nt == self.tiles@.len(),
                dirs@.len() == 4,
                forall|i2: int| 0 <= i2 < 4 ==> #[trigger] dirs@[i2] == dir_of(i2),
                table_keys_distinct(out@),
                table_lists_distinct(out@),
                table_symmetric(out@),
                table_entries_sound(self.tiles@, out@),
                forall|a2: int, b2: int, s2: int, m2: int, r2: int, r3: int, i2: int|
                    #[trigger] pairing_source(self.tiles@, a2, b2, s2, m2, r2, r3, i2) && lex_before(
                        a2,
                        b2,
                        s2,
                        r2,
                        r3,
                        i2,
                        ai as int,
                        0,
                        0,
                        0,
                        0,
                        0,
                    ) ==> pairing_recorded(self.tiles@, out@, a2, b2, s2, m2, r2, r3, i2),
                forall|ti: int| 0 <= ti < self.tiles@.len() ==> 1 <= (#[trigger] self.tiles@[ti])
                    .1.cardinality <= 0x1000_0000,
                forall|ti: int, si: int, ri: int|
                    0 <= ti < self.tiles@.len() && 0 <= si < (#[trigger] self.tiles@[ti]).1.desc@
                        .len() && 0 <= ri < self.tiles@[ti].1.desc@[si].1@.len() ==> (
                    #[trigger] self.tiles@[ti].1.desc@[si].1@[ri]).deg() <= 360,
            decreases nt - ai,
        {
            let a_card = self.tiles[ai].1.cardinality;
            let mut bi: usize = 0;
            while bi < nt
                invariant
                    bi <= nt,
                    ai < nt,
                    nt == self.tiles@.len(),
                    dirs@.len() == 4,
                    a_card == self.tiles@[ai as int].1.cardinality,
                    forall|i2: int| 0 <= i2 < 4 ==> #[trigger] dirs@[i2] == dir_of(i2),
                    table_keys_distinct(out@),
                    table_lists_distinct(out@),
                    table_symmetric(out@),
                    table_entries_sound(self.tiles@, out@),
                    forall|a2: int, b2: int, s2: int, m2: int, r2: int, r3: int, i2: int|
                        #[trigger] pairing_source(self.tiles@, a2, b2, s2, m2, r2, r3, i2) && lex_before(
                            a2,
                            b2,
                            s2,
                            r2,
                            r3,
                            i2,
                            ai as int,
                            bi as int,
                            0,
                            0,
                            0,
                            0,
                        ) ==> pairing_recorded(self.tiles@, out@, a2, b2, s2, m2, r2, r3, i2),
                    forall|ti: int| 0 <= ti < self.tiles@.len() ==> 1 <= (#[trigger] self.tiles@[
                        ti]).1.cardinality <= 0x1000_0000,
                    forall|ti: int, si: int, ri: int|
                        0 <= ti < self.tiles@.len() && 0 <= si < (#[trigger] self.tiles@[ti]).1
                            .desc@.len() && 0 <= ri < self.tiles@[ti].1.desc@[si].1@.len() ==> (
                        #[trigger] self.tiles@[ti].1.desc@[si].1@[ri]).deg() <= 360,
                decreases nt - bi,
            {
                let b_card = self.tiles[bi].1.cardinality;
                let na = self.tiles[ai].1.desc.len();
                let mut si: usize = 0;
                while si < na
                    invariant
                        si <= na,
                        ai < nt,
                        bi < nt,
                        nt == self.tiles@.len(),
                        dirs@.len() == 4,
                        a_card == self.tiles@[ai as int].1.cardinality,
                        b_card == self.tiles@[bi as int].1.cardinality,
                        na == self.tiles@[ai as int].1.desc@.len(),
                        forall|i2: int| 0 <= i2 < 4 ==> #[trigger] dirs@[i2] == dir_of(i2),
                        table_keys_distinct(out@),
                        table_lists_distinct(out@),
                        table_symmetric(out@),
                        table_entries_sound(self.tiles@, out@),
                        forall|a2: int, b2: int, s2: int, m2: int, r2: int, r3: int, i2: int|
                            #[trigger] pairing_source(self.tiles@, a2, b2, s2, m2, r2, r3, i2) && lex_before(
                                a2,
                                b2,
                                s2,
                                r2,
                                r3,
                                i2,
                                ai as int,
                                bi as int,
                                si as int,
                                0,
                                0,
                                0,
                            ) ==> pairing_recorded(self.tiles@, out@, a2, b2, s2, m2, r2, r3, i2),
                        forall|ti: int| 0 <= ti < self.tiles@.len() ==> 1 <= (
                        #[trigger] self.tiles@[ti]).1.cardinality <= 0x1000_0000,
                        forall|ti: int, si2: int, ri: int|
                            0 <= ti < self.tiles@.len() && 0 <= si2 < (#[trigger] self.tiles@[ti])
                                .1.desc@.len() && 0 <= ri < self.tiles@[ti].1.desc@[si2].1@.len()
                                ==> (#[trigger] self.tiles@[ti].1.desc@[si2].1@[ri]).deg() <= 360,
                    decreases na - si,
                {
                    let a_side = self.tiles[ai].1.desc[si].0;
                    // Does tile b carry a matching side?
                    let nb = self.tiles[bi].1.desc.len();
                    let mut bsi: usize = 0;
                    let mut b_match: Option<usize> = None;
                    while bsi < nb
                        invariant
                            bsi <= nb,
                            ai < nt,
                            bi < nt,
                            nt == self.tiles@.len(),
                            nb == self.tiles@[bi as int].1.desc@.len(),
                            a_side == self.tiles@[ai as int].1.desc@[si as int].0,
                            b_match matches Some(m) ==> m < nb && self.tiles@[bi as int].1.desc@[
                                m as int].0 == a_side,
                            b_match matches Some(m) ==> forall|b2: int|
                                0 <= b2 < m ==> (#[trigger] self.tiles@[bi as int].1.desc@[b2]).0
                                    != a_side,
                            b_match is None ==> forall|b2: int|
                                0 <= b2 < bsi ==> (#[trigger] self.tiles@[bi as int].1.desc@[
                                    b2]).0 != a_side,
                        decreases nb - bsi,
                    {
                        if b_match.is_none() && self.tiles[bi].1.desc[bsi].0 == a_side {
                            b_match = Some(bsi);
                        }
                        bsi = bsi + 1;
                    }
                    match b_match {
                        None => {
                            proof {
                                assert forall|
                                    a2: int,
                                    b2: int,
                                    s2: int,
                                    m2: int,
                                    r2: int,
                                    r3: int,
                                    i2: int,
                                |
                                    #[trigger] pairing_source(
                                        self.tiles@,
                                        a2,
                                        b2,
                                        s2,
                                        m2,
                                        r2,
                                        r3,
                                        i2,
                                    ) && lex_before(
                                        a2,
                                        b2,
                                        s2,
                                        r2,
                                        r3,
                                        i2,
                                        ai as int,
                                        bi as int,
                                        si as int + 1,
                                        0,
                                        0,
                                        0,
                                    ) implies pairing_recorded(
                                    self.tiles@,
                                    out@,
                                    a2,
                                    b2,
                                    s2,
                                    m2,
                                    r2,
                                    r3,
                                    i2,
                                ) by {
                                    if a2 == ai as int && b2 == bi as int && s2 == si as int {
                                        // no side of tile b matches, so no
                                        // pairing starts here
                                        assert(self.tiles@[b2].1.desc@[m2].0 == a_side);
                                        assert(false);
                                    }
                                }
                            }
                        },
                        Some(bm) => {
                            let nar = self.tiles[ai].1.desc[si].1.len();
                            let mut ari: usize = 0;
                            while ari < nar
                                invariant
                                    ari <= nar,
                                    ai < nt,
                                    bi < nt,
                                    si < na,
                                    bm < self.tiles@[bi as int].1.desc@.len(),
                                    nt == self.tiles@.len(),
                                    dirs@.len() == 4,
                                    a_card == self.tiles@[ai as int].1.cardinality,
                                    b_card == self.tiles@[bi as int].1.cardinality,
                                    na == self.tiles@[ai as int].1.desc@.len(),
                                    nar == self.tiles@[ai as int].1.desc@[si as int].1@.len(),
                                    a_side == self.tiles@[ai as int].1.desc@[si as int].0,
                                    self.tiles@[bi as int].1.desc@[bm as int].0 == a_side,
                                    forall|b2: int|
                                        0 <= b2 < bm ==> (#[trigger] self.tiles@[bi as int].1
                                            .desc@[b2]).0 != a_side,
                                    forall|i2: int| 0 <= i2 < 4 ==> #[trigger] dirs@[i2]
                                        == dir_of(i2),
                                    table_keys_distinct(out@),
                                    table_lists_distinct(out@),
                                    table_symmetric(out@),
                                    table_entries_sound(self.tiles@, out@),
                                    forall|
                                        a2: int,
                                        b2: int,
                                        s2: int,
                                        m2: int,
                                        r2: int,
                                        r3: int,
                                        i2: int,
                                    |
                                        #[trigger] pairing_source(
                                            self.tiles@,
                                            a2,
                                            b2,
                                            s2,
                                            m2,
                                            r2,
                                            r3,
                                            i2,
                                        ) && lex_before(
                                            a2,
                                            b2,
                                            s2,
                                            r2,
                                            r3,
                                            i2,
                                            ai as int,
                                            bi as int,
                                            si as int,
                                            ari as int,
                                            0,
                                            0,
                                        ) ==> pairing_recorded(
                                            self.tiles@,
                                            out@,
                                            a2,
                                            b2,
                                            s2,
                                            m2,
                                            r2,
                                            r3,
                                            i2,
                                        ),
                                    forall|ti: int| 0 <= ti < self.tiles@.len() ==> 1 <= (
                                    #[trigger] self.tiles@[ti]).1.cardinality <= 0x1000_0000,
                                    forall|ti: int, si2: int, ri: int|
                                        0 <= ti < self.tiles@.len() && 0 <= si2 < (
                                        #[trigger] self.tiles@[ti]).1.desc@.len() && 0 <= ri
                                            < self.tiles@[ti].1.desc@[si2].1@.len() ==> (
                                        #[trigger] self.tiles@[ti].1.desc@[si2].1@[ri]).deg()
                                            <= 360,
                                decreases nar - ari,
                            {
                                let a_rot = self.tiles[ai].1.desc[si].1[ari];
                                let nbr = self.tiles[bi].1.desc[bm].1.len();
                                let mut bri: usize = 0;
                                while bri < nbr
                                    invariant
                                        bri <= nbr,
                                        ai < nt,
                                        bi < nt,
                                        si < na,
                                        ari < nar,
                                        bm < self.tiles@[bi as int].1.desc@.len(),
                                        nt == self.tiles@.len(),
                                        dirs@.len() == 4,
                                        a_card == self.tiles@[ai as int].1.cardinality,
                                        b_card == self.tiles@[bi as int].1.cardinality,
                                        na == self.tiles@[ai as int].1.desc@.len(),
                                        nar == self.tiles@[ai as int].1.desc@[si as int].1@.len(),
                                        nbr == self.tiles@[bi as int].1.desc@[bm as int].1@.len(),
                                        a_rot == self.tiles@[ai as int].1.desc@[si as int].1@[
                                            ari as int],
                                        a_side == self.tiles@[ai as int].1.desc@[si as int].0,
                                        self.tiles@[bi as int].1.desc@[bm as int].0 == a_side,
                                        forall|b2: int|
                                            0 <= b2 < bm ==> (#[trigger] self.tiles@[bi as int].1
                                                .desc@[b2]).0 != a_side,
                                        forall|i2: int| 0 <= i2 < 4 ==> #[trigger] dirs@[i2]
                                            == dir_of(i2),
                                        table_keys_distinct(out@),
                                        table_lists_distinct(out@),
                                        table_symmetric(out@),
                                        table_entries_sound(self.tiles@, out@),
                                        forall|
                                            a2: int,
                                            b2: int,
                                            s2: int,
                                            m2: int,
                                            r2: int,
                                            r3: int,
                                            i2: int,
                                        |
                                            #[trigger] pairing_source(
                                                self.tiles@,
                                                a2,
                                                b2,
                                                s2,
                                                m2,
                                                r2,
                                                r3,
                                                i2,
                                            ) && lex_before(
                                                a2,
                                                b2,
                                                s2,
                                                r2,
                                                r3,
                                                i2,
                                                ai as int,
                                                bi as int,
                                                si as int,
                                                ari as int,
                                                bri as int,
                                                0,
                                            ) ==> pairing_recorded(
                                                self.tiles@,
                                                out@,
                                                a2,
                                                b2,
                                                s2,
                                                m2,
                                                r2,
                                                r3,
                                                i2,
                                            ),
                                        forall|ti: int| 0 <= ti < self.tiles@.len() ==> 1 <= (
                                        #[trigger] self.tiles@[ti]).1.cardinality <= 0x1000_0000,
                                        forall|ti: int, si2: int, ri: int|
                                            0 <= ti < self.tiles@.len() && 0 <= si2 < (
                                            #[trigger] self.tiles@[ti]).1.desc@.len() && 0 <= ri
                                                < self.tiles@[ti].1.desc@[si2].1@.len() ==> (
                                            #[trigger] self.tiles@[ti].1.desc@[si2].1@[ri]).deg()
                                                <= 360,
                                    decreases nbr - bri,
                                {
                                    let b_rot = self.tiles[bi].1.desc[bm].1[bri];
                                    proof {
                                        assert(a_rot.deg() <= 360);
                                        assert(b_rot.deg() <= 360);
                                    }
                                    // Align a to face right, b to face left.
                                    let zero = Rot::new(0);
                                    let half = Rot::new(180);
                                    let a_dest = a_rot.to(&zero, a_card);
                                    let b_dest = b_rot.to(&half, b_card);
                                    proof {
                                        assert(a_dest.deg() == spec_to(
                                            self.tiles@[ai as int].1.desc@[si as int].1@[
                                                ari as int].deg(),
                                            0,
                                            a_card as int,
                                        ));
                                        assert(b_dest.deg() == spec_to(
                                            self.tiles@[bi as int].1.desc@[bm as int].1@[
                                                bri as int].deg(),
                                            180,
                                            b_card as int,
                                        ));
                                    }
                                    let mut i: usize = 0;
                                    while i < 4
                                        invariant
                                            i <= 4,
                                            ai < nt,
                                            bi < nt,
                                            si < na,
                                            ari < nar,
                                            bri < nbr,
                                            bm < self.tiles@[bi as int].1.desc@.len(),
                                            nt == self.tiles@.len(),
                                            dirs@.len() == 4,
                                            na == self.tiles@[ai as int].1.desc@.len(),
                                            nar == self.tiles@[ai as int].1.desc@[si as int].1@
                                                .len(),
                                            nbr == self.tiles@[bi as int].1.desc@[bm as int].1@
                                                .len(),
                                            a_card == self.tiles@[ai as int].1.cardinality,
                                            b_card == self.tiles@[bi as int].1.cardinality,
                                            1 <= a_card <= 0x1000_0000,
                                            1 <= b_card <= 0x1000_0000,
                                            a_dest.deg() < a_card,
                                            b_dest.deg() < b_card,
                                            a_dest.deg() == spec_to(
                                                self.tiles@[ai as int].1.desc@[si as int].1@[
                                                    ari as int].deg(),
                                                0,
                                                a_card as int,
                                            ),
                                            b_dest.deg() == spec_to(
                                                self.tiles@[bi as int].1.desc@[bm as int].1@[
                                                    bri as int].deg(),
                                                180,
                                                b_card as int,
                                            ),
                                            a_side == self.tiles@[ai as int].1.desc@[si as int].0,
                                            self.tiles@[bi as int].1.desc@[bm as int].0 == a_side,
                                            forall|b2: int|
                                                0 <= b2 < bm ==> (#[trigger] self.tiles@[
                                                    bi as int].1.desc@[b2]).0 != a_side,
                                            forall|i2: int| 0 <= i2 < 4 ==> #[trigger] dirs@[i2]
                                                == dir_of(i2),
                                            table_keys_distinct(out@),
                                            table_lists_distinct(out@),
                                            table_symmetric(out@),
                                            table_entries_sound(self.tiles@, out@),
                                            forall|
                                                a2: int,
                                                b2: int,
                                                s2: int,
                                                m2: int,
                                                r2: int,
                                                r3: int,
                                                i2: int,
                                            |
                                                #[trigger] pairing_source(
                                                    self.tiles@,
                                                    a2,
                                                    b2,
                                                    s2,
                                                    m2,
                                                    r2,
                                                    r3,
                                                    i2,
                                                ) && lex_before(
                                                    a2,
                                                    b2,
                                                    s2,
                                                    r2,
                                                    r3,
                                                    i2,
                                                    ai as int,
                                                    bi as int,
                                                    si as int,
                                                    ari as int,
                                                    bri as int,
                                                    i as int,
                                                ) ==> pairing_recorded(
                                                    self.tiles@,
                                                    out@,
                                                    a2,
                                                    b2,
                                                    s2,
                                                    m2,
                                                    r2,
                                                    r3,
                                                    i2,
                                                ),
                                        decreases 4 - i,
                                    {
                                        let dir = dirs[i];
                                        let a_key = (ai, a_dest.rot_90_n(a_card, i));
                                        let b_key = (bi, b_dest.rot_90_n(b_card, i));
                                        let dop = dir.opp();
                                        let ghost t0 = out@;
                                        table_insert(&mut out, a_key, (b_key, dir));
                                        let ghost t1 = out@;
                                        table_insert(&mut out, b_key, (a_key, dop));
                                        proof {
                                            lemma_paired_insert_symmetric(
                                                t0,
                                                t1,
                                                out@,
                                                a_key,
                                                b_key,
                                                dir,
                                            );
                                            // The freshly inserted pairing
                                            // is recorded under its tuple.
                                            assert(dir == dir_of(i as int));
                                            assert(dop == dir_of(i as int).opp_spec());
                                            Rot::lemma_rot_from_deg(a_key.1);
                                            Rot::lemma_rot_from_deg(b_key.1);
                                            assert(a_key == aligned_key(
                                                ai as int,
                                                self.tiles@[ai as int].1.desc@[si as int].1@[
                                                    ari as int].deg(),
                                                0,
                                                a_card as int,
                                                i as int,
                                            ));
                                            assert(b_key == aligned_key(
                                                bi as int,
                                                self.tiles@[bi as int].1.desc@[bm as int].1@[
                                                    bri as int].deg(),
                                                180,
                                                b_card as int,
                                                i as int,
                                            ));
                                            assert(entry_in_table(out@, a_key, (b_key, dir)));
                                            assert(entry_in_table(out@, b_key, (a_key, dop)));
                                            assert(pairing_recorded(
                                                self.tiles@,
                                                out@,
                                                ai as int,
                                                bi as int,
                                                si as int,
                                                bm as int,
                                                ari as int,
                                                bri as int,
                                                i as int,
                                            ));
                                            // Every entry of the grown
                                            // table still comes from a
                                            // generated pairing: the two
                                            // new ones from this tuple,
                                            // the rest from before.
                                            assert(pairing_source(
                                                self.tiles@,
                                                ai as int,
                                                bi as int,
                                                si as int,
                                                bm as int,
                                                ari as int,
                                                bri as int,
                                                i as int,
                                            ));
                                            assert forall|
                                                k2: (usize, Rot),
                                                e2: ((usize, Rot), Dir2D),
                                            |
                                                #[trigger] entry_in_table(
                                                    out@,
                                                    k2,
                                                    e2,
                                                ) implies exists|
                                                a2: int,
                                                b2: int,
                                                s2: int,
                                                m2: int,
                                                r2: int,
                                                r3: int,
                                                i2: int,
                                            |
                                                #[trigger] pairing_source(
                                                    self.tiles@,
                                                    a2,
                                                    b2,
                                                    s2,
                                                    m2,
                                                    r2,
                                                    r3,
                                                    i2,
                                                ) && pairing_entry(
                                                    self.tiles@,
                                                    a2,
                                                    b2,
                                                    s2,
                                                    m2,
                                                    r2,
                                                    r3,
                                                    i2,
                                                    k2,
                                                    e2,
                                                ) by {
                                                if entry_in_table(t1, k2, e2) {
                                                    if entry_in_table(t0, k2, e2) {
                                                        let (
                                                            a2,
                                                            b2,
                                                            s2,
                                                            m2,
                                                            r2,
                                                            r3,
                                                            i2,
                                                        ) = choose|
                                                            a2: int,
                                                            b2: int,
                                                            s2: int,
                                                            m2: int,
                                                            r2: int,
                                                            r3: int,
                                                            i2: int,
                                                        |
                                                            #[trigger] pairing_source(
                                                                self.tiles@,
                                                                a2,
                                                                b2,
                                                                s2,
                                                                m2,
                                                                r2,
                                                                r3,
                                                                i2,
                                                            ) && pairing_entry(
                                                                self.tiles@,
                                                                a2,
                                                                b2,
                                                                s2,
                                                                m2,
                                                                r2,
                                                                r3,
                                                                i2,
                                                                k2,
                                                                e2,
                                                            );
                                                        assert(pairing_source(
                                                            self.tiles@,
                                                            a2,
                                                            b2,
                                                            s2,
                                                            m2,
                                                            r2,
                                                            r3,
                                                            i2,
                                                        ) && pairing_entry(
                                                            self.tiles@,
                                                            a2,
                                                            b2,
                                                            s2,
                                                            m2,
                                                            r2,
                                                            r3,
                                                            i2,
                                                            k2,
                                                            e2,
                                                        ));
                                                    } else {
                                                        assert(k2 == a_key && e2 == (b_key, dir));
                                                        assert(pairing_entry(
                                                            self.tiles@,
                                                            ai as int,
                                                            bi as int,
                                                            si as int,
                                                            bm as int,
                                                            ari as int,
                                                            bri as int,
                                                            i as int,
                                                            k2,
                                                            e2,
                                                        ));
                                                    }
                                                } else {
                                                    assert(k2 == b_key && e2 == (a_key, dop));
                                                    assert(pairing_entry(
                                                        self.tiles@,
                                                        ai as int,
                                                        bi as int,
                                                        si as int,
                                                        bm as int,
                                                        ari as int,
                                                        bri as int,
                                                        i as int,
                                                        k2,
                                                        e2,
                                                    ));
                                                }
                                            }
                                            // Earlier recordings persist
                                            // through both insertions.
                                            assert forall|
                                                a2: int,
                                                b2: int,
                                                s2: int,
                                                m2: int,
                                                r2: int,
                                                r3: int,
                                                i2: int,
                                            |
                                                #[trigger] pairing_source(
                                                    self.tiles@,
                                                    a2,
                                                    b2,
                                                    s2,
                                                    m2,
                                                    r2,
                                                    r3,
                                                    i2,
                                                ) && lex_before(
                                                    a2,
                                                    b2,
                                                    s2,
                                                    r2,
                                                    r3,
                                                    i2,
                                                    ai as int,
                                                    bi as int,
                                                    si as int,
                                                    ari as int,
                                                    bri as int,
                                                    i as int + 1,
                                                ) implies pairing_recorded(
                                                self.tiles@,
                                                out@,
                                                a2,
                                                b2,
                                                s2,
                                                m2,
                                                r2,
                                                r3,
                                                i2,
                                            ) by {
                                                if a2 == ai as int && b2 == bi as int && s2
                                                    == si as int && r2 == ari as int && r3
                                                    == bri as int && i2 == i as int {
                                                    // the tuple just inserted:
                                                    // its side match is the
                                                    // first, so it is ours
                                                    assert(m2 == bm as int) by {
                                                        if m2 < bm as int {
                                                            assert(self.tiles@[bi as int].1.desc@[
                                                                m2].0 != a_side);
                                                            assert(false);
                                                        }
                                                        if m2 > bm as int {
                                                            assert((self.tiles@[bi as int].1
                                                                .desc@[bm as int]).0 != self
                                                                .tiles@[ai as int].1.desc@[si as int].0);
                                                            assert(false);
                                                        }
                                                    }
                                                } else {
                                                    assert(pairing_recorded(
                                                        self.tiles@,
                                                        t0,
                                                        a2,
                                                        b2,
                                                        s2,
                                                        m2,
                                                        r2,
                                                        r3,
                                                        i2,
                                                    ));
                                                }
                                            }
                                        }
                                        i = i + 1;
                                    }
                                    bri = bri + 1;
                                }
                                ari = ari + 1;
                            }
                        },
                    }
                    si = si + 1;
                }
                bi = bi + 1;
            }
            ai = ai + 1;
        }
        out
    }
}

} // verus!
