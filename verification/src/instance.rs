use vstd::prelude::*;
use crate::rels::Dir2D;
use crate::symmetry::Rot;
use crate::tiles::{
    Desc, TileDesc, rot_count, tile_items_upto, table_keys_distinct, table_lists_distinct,
    table_symmetric, table_entries_sound, entry_in_table, aligned_key, pairing_source,
    pairing_recorded, pairing_entry, lemma_tile_items_upto_nonneg, lemma_tile_items_mono,
};

verus! {

/// A ready-made tile world: where its tile images live, how large a tile
/// is, and how each tile behaves under rotation.  The side types are
/// booleans: whether a path leaves the tile on that side.
pub struct Instance<T> {
    pub image_dir: String,
    pub tile_size: u32,
    description: Vec<(String, TileDesc<T>)>,
}

impl<T> Instance<T> {
    /// The tile descriptions, by name.
    pub closed spec fn descr(self) -> Seq<(String, TileDesc<T>)> {
        self.description@
    }

    /// The tile side length, in pixels.
    pub closed spec fn spec_tile_size(self) -> u32 {
        self.tile_size
    }

    /// The directory holding the tile images.
    pub closed spec fn spec_image_dir(self) -> Seq<char> {
        self.image_dir@
    }

    /// Builds an instance from its parts.
    pub fn new(image_dir: String, tile_size: u32, description: Vec<(String, TileDesc<T>)>) -> (r:
        Instance<T>)
        ensures
            r.spec_image_dir() == image_dir@,
            r.spec_tile_size() == tile_size,
            r.descr() == description@,
    {
        Instance { image_dir, tile_size, description }
    }

    /// The number of described tiles.
    pub fn n_tiles(&self) -> (n: usize)
        ensures
            n == self.descr().len(),
    {
        self.description.len()
    }

    /// The file name of tile `i`.
    pub fn tile_name(&self, i: usize) -> (r: &String)
        requires
            i < self.descr().len(),
        ensures
            r == self.descr()[i as int].0,
    {
        &self.description[i].0
    }

    /// The rotation description of tile `i`.
    pub fn tile_desc(&self, i: usize) -> (r: &TileDesc<T>)
        requires
            i < self.descr().len(),
        ensures
            r == self.descr()[i as int].1,
    {
        &self.description[i].1
    }

    /// All tile configurations of this instance: each tile index paired
    /// with each of the tile's quarter-turn rotations, tile by tile.
    pub fn items(&self) -> (out: Vec<(usize, Rot)>)
        requires
            forall|ti: int| 0 <= ti < self.descr().len() ==> (#[trigger] self.descr()[ti]).1
                .cardinality <= usize::MAX - 90,
        ensures
            out@.len() == tile_items_upto(self.descr(), self.descr().len() as int),
            forall|ti: int, r: int|
                0 <= ti < self.descr().len() && 0 <= r < rot_count(
                    self.descr()[ti].1.cardinality,
                ) ==> {
                    &&& (#[trigger] out@[tile_items_upto(self.descr(), ti) + r]).0 == ti
                    &&& out@[tile_items_upto(self.descr(), ti) + r].1.deg() == 90 * r
                },
    {
        let nt = self.description.len();
        let mut out: Vec<(usize, Rot)> = Vec::new();
        let mut ti: usize = 0;
        while ti < nt
            invariant
                ti <= nt,
                nt == self.descr().len(),
                forall|t2: int| 0 <= t2 < nt ==> (#[trigger] self.descr()[t2]).1.cardinality
                    <= usize::MAX - 90,
                out@.len() == tile_items_upto(self.descr(), ti as int),
                forall|t2: int, r: int|
                    0 <= t2 < ti && 0 <= r < rot_count(self.descr()[t2].1.cardinality) ==> {
                        &&& (#[trigger] out@[tile_items_upto(self.descr(), t2) + r]).0 == t2
                        &&& out@[tile_items_upto(self.descr(), t2) + r].1.deg() == 90 * r
                    },
            decreases nt - ti,
        {
            let card = self.description[ti].1.cardinality;
            let rots = Rot::up_to(card);
            let nr = rots.len();
            let ghost base = tile_items_upto(self.descr(), ti as int);
            proof {
                lemma_tile_items_upto_nonneg(self.descr(), ti as int);
            }
            let mut r: usize = 0;
            while r < nr
                invariant
                    r <= nr,
                    ti < nt,
                    nt == self.descr().len(),
                    base == tile_items_upto(self.descr(), ti as int),
                    base >= 0,
                    nr == rot_count(self.descr()[ti as int].1.cardinality),
                    rots@.len() == nr,
                    forall|k: int| 0 <= k < nr ==> (#[trigger] rots@[k]).deg() == 90 * k,
                    out@.len() == base + r,
                    forall|t2: int, r2: int|
                        0 <= t2 < ti && 0 <= r2 < rot_count(self.descr()[t2].1.cardinality)
                            ==> {
                            &&& (#[trigger] out@[tile_items_upto(self.descr(), t2) + r2]).0 == t2
                            &&& out@[tile_items_upto(self.descr(), t2) + r2].1.deg() == 90 * r2
                        },
                    forall|r2: int|
                        0 <= r2 < r ==> {
                            &&& (#[trigger] out@[base + r2]).0 == ti
                            &&& out@[base + r2].1.deg() == 90 * r2
                        },
                decreases nr - r,
            {
                let ghost old_out = out@;
                out.push((ti, rots[r]));
                proof {
                    assert(out@[old_out.len() as int] == (ti, rots@[r as int]));
                    assert forall|t2: int, r2: int|
                        0 <= t2 < ti && 0 <= r2 < rot_count(
                            self.descr()[t2].1.cardinality,
                        ) implies {
                        &&& (#[trigger] out@[tile_items_upto(self.descr(), t2) + r2]).0 == t2
                        &&& out@[tile_items_upto(self.descr(), t2) + r2].1.deg() == 90 * r2
                    } by {
                        lemma_tile_items_mono(self.descr(), t2 + 1, ti as int);
                        lemma_tile_items_upto_nonneg(self.descr(), t2);
                        assert(tile_items_upto(self.descr(), t2) + r2 < tile_items_upto(
                            self.descr(),
                            t2 + 1,
                        ));
                        assert(out@[tile_items_upto(self.descr(), t2) + r2] == old_out[
                            tile_items_upto(self.descr(), t2) + r2]);
                    }
                }
                r = r + 1;
            }
            ti = ti + 1;
        }
        out
    }
}

impl Instance<bool> {
    /// The adjacency table of this instance, keyed by tile index and
    /// rotation (see `Desc::rels`): tiles may neighbor where their aligned
    /// sides carry the same side type.  Keys are unique, each neighbor
    /// list is duplicate-free, the table is symmetric, every pairing the
    /// descriptions generate is present, and nothing else is: each entry
    /// arises from a matching-side pairing.
    pub fn rels(&self) -> (out: Vec<((usize, Rot), Vec<((usize, Rot), Dir2D)>)>)
        requires
            forall|ti: int| 0 <= ti < self.descr().len() ==> 1 <= (#[trigger] self.descr()[ti]).1
                .cardinality <= 0x1000_0000,
            forall|ti: int, si: int, ri: int|
                0 <= ti < self.descr().len() && 0 <= si < (#[trigger] self.descr()[ti]).1.desc@
                    .len() && 0 <= ri < self.descr()[ti].1.desc@[si].1@.len() ==> (
                #[trigger] self.descr()[ti].1.desc@[si].1@[ri]).deg() <= 360,
        ensures
            table_keys_distinct(out@),
            table_lists_distinct(out@),
            table_symmetric(out@),
            forall|a2: int, b2: int, s2: int, m2: int, r2: int, r3: int, i2: int|
                #[trigger] pairing_source(self.descr(), a2, b2, s2, m2, r2, r3, i2)
                    ==> pairing_recorded(self.descr(), out@, a2, b2, s2, m2, r2, r3, i2),
            table_entries_sound(self.descr(), out@),
    {
        // Recast the named boolean-sided tiles as an index-keyed,
        // integer-sided tile set and read its adjacency table.
        let nt = self.description.len();
        let mut tiles: Vec<(usize, TileDesc<usize>)> = Vec::new();
        let mut ti: usize = 0;
        while ti < nt
            invariant
                ti <= nt,
                nt == self.descr().len(),
                tiles@.len() == ti,
                forall|t2: int|
                    0 <= t2 < ti ==> (#[trigger] tiles@[t2]).1.cardinality == self.descr()[t2].1
                        .cardinality,
                forall|t2: int| 0 <= t2 < ti ==> (#[trigger] tiles@[t2]).1.desc@.len() == self
                    .descr()[t2].1.desc@.len(),
                forall|t2: int, si: int|
                    0 <= t2 < ti && 0 <= si < tiles@[t2].1.desc@.len() ==> (#[trigger] tiles@[
                        t2].1.desc@[si]).1@ == self.descr()[t2].1.desc@[si].1@,
                forall|t2: int, si: int|
                    0 <= t2 < ti && 0 <= si < tiles@[t2].1.desc@.len() ==> (#[trigger] tiles@[
                        t2].1.desc@[si]).0 == (if self.descr()[t2].1.desc@[si].0 {
                        1int
                    } else {
                        0int
                    }),
            decreases nt - ti,
        {
            let card = self.description[ti].1.cardinality;
            let ns = self.description[ti].1.desc.len();
            let mut sides: Vec<(usize, Vec<Rot>)> = Vec::new();
            let mut si: usize = 0;
            while si < ns
                invariant
                    si <= ns,
                    ti < nt,
                    nt == self.descr().len(),
                    ns == self.descr()[ti as int].1.desc@.len(),
                    sides@.len() == si,
                    forall|s2: int| 0 <= s2 < si ==> (#[trigger] sides@[s2]).1@ == self.descr()[
                        ti as int].1.desc@[s2].1@,
                    forall|s2: int| 0 <= s2 < si ==> (#[trigger] sides@[s2]).0 == (if self.descr()[
                        ti as int].1.desc@[s2].0 {
                        1int
                    } else {
                        0int
                    }),
                decreases ns - si,
            {
                let side_flag = self.description[ti].1.desc[si].0;
                let side_id: usize = if side_flag {
                    1
                } else {
                    0
                };
                let nr = self.description[ti].1.desc[si].1.len();
                let mut rots: Vec<Rot> = Vec::new();
                let mut ri: usize = 0;
                while ri < nr
                    invariant
                        ri <= nr,
                        ti < nt,
                        si < ns,
                        nt == self.descr().len(),
                        ns == self.descr()[ti as int].1.desc@.len(),
                        nr == self.descr()[ti as int].1.desc@[si as int].1@.len(),
                        rots@.len() == ri,
                        forall|r2: int| 0 <= r2 < ri ==> #[trigger] rots@[r2] == self.descr()[
                            ti as int].1.desc@[si as int].1@[r2],
                    decreases nr - ri,
                {
                    rots.push(self.description[ti].1.desc[si].1[ri]);
                    ri = ri + 1;
                }
                proof {
                    assert(rots@ =~= self.descr()[ti as int].1.desc@[si as int].1@);
                }
                sides.push((side_id, rots));
                si = si + 1;
            }
            tiles.push((ti, TileDesc::new(card, sides)));
            ti = ti + 1;
        }
        let desc = Desc { tiles };
        let ghost conv = desc.tiles@;
        let out = desc.rels();
        proof {
            lemma_completeness_transfer(self.descr(), conv, out@);
            lemma_soundness_transfer(self.descr(), conv, out@);
        }
        out
    }

    /// The hand-authored knot tile world: five tiles, each side either
    /// carrying a rope (true) or empty (false), with every file name,
    /// cardinality and side-type table pinned below.
    pub fn knot_instance() -> (r: Instance<bool>)
        ensures
            r.spec_tile_size() == 10,
            r.spec_image_dir() == "./bin/samples/knots"@,
            r.descr().len() == 5,
            r.descr()[0].0@ == "cross.png"@,
            r.descr()[1].0@ == "corner.png"@,
            r.descr()[2].0@ == "empty.png"@,
            r.descr()[3].0@ == "t.png"@,
            r.descr()[4].0@ == "line.png"@,
            r.descr()[0].1.cardinality == 180,
            r.descr()[1].1.cardinality == 360,
            r.descr()[2].1.cardinality == 90,
            r.descr()[3].1.cardinality == 360,
            r.descr()[4].1.cardinality == 180,
            r.descr()[0].1.desc@.len() == 1,
            r.descr()[0].1.desc@[0].0 == true,
            r.descr()[0].1.desc@[0].1@.len() == 2,
            r.descr()[0].1.desc@[0].1@[0].deg() == 90,
            r.descr()[0].1.desc@[0].1@[1].deg() == 0,
            r.descr()[1].1.desc@.len() == 2,
            r.descr()[1].1.desc@[0].0 == true,
            r.descr()[1].1.desc@[0].1@.len() == 2,
            r.descr()[1].1.desc@[0].1@[0].deg() == 0,
            r.descr()[1].1.desc@[0].1@[1].deg() == 270,
            r.descr()[1].1.desc@[1].0 == false,
            r.descr()[1].1.desc@[1].1@.len() == 2,
            r.descr()[1].1.desc@[1].1@[0].deg() == 180,
            r.descr()[1].1.desc@[1].1@[1].deg() == 90,
            r.descr()[2].1.desc@.len() == 1,
            r.descr()[2].1.desc@[0].0 == false,
            r.descr()[2].1.desc@[0].1@.len() == 1,
            r.descr()[2].1.desc@[0].1@[0].deg() == 0,
            r.descr()[3].1.desc@.len() == 2,
            r.descr()[3].1.desc@[0].0 == true,
            r.descr()[3].1.desc@[0].1@.len() == 3,
            r.descr()[3].1.desc@[0].1@[0].deg() == 0,
            r.descr()[3].1.desc@[0].1@[1].deg() == 90,
            r.descr()[3].1.desc@[0].1@[2].deg() == 180,
            r.descr()[3].1.desc@[1].0 == false,
            r.descr()[3].1.desc@[1].1@.len() == 1,
            r.descr()[3].1.desc@[1].1@[0].deg() == 270,
            r.descr()[4].1.desc@.len() == 2,
            r.descr()[4].1.desc@[0].0 == true,
            r.descr()[4].1.desc@[0].1@.len() == 1,
            r.descr()[4].1.desc@[0].1@[0].deg() == 0,
            r.descr()[4].1.desc@[1].0 == false,
            r.descr()[4].1.desc@[1].1@.len() == 1,
            r.descr()[4].1.desc@[1].1@[0].deg() == 90,
            forall|ti: int| 0 <= ti < 5 ==> 1 <= (#[trigger] r.descr()[ti]).1.cardinality
                <= 0x1000_0000,
            forall|ti: int, si: int, ri: int|
                0 <= ti < 5 && 0 <= si < (#[trigger] r.descr()[ti]).1.desc@.len() && 0 <= ri < r
                    .descr()[ti].1.desc@[si].1@.len() ==> (#[trigger] r.descr()[ti].1.desc@[si].1@[
                    ri]).deg() <= 360,
    {
        // cross: rope on every side, symmetric after a half turn.
        let mut cross_rots: Vec<Rot> = Vec::new();
        cross_rots.push(Rot::new(90));
        cross_rots.push(Rot::new(0));
        let mut cross_sides: Vec<(bool, Vec<Rot>)> = Vec::new();
        cross_sides.push((true, cross_rots));
        // corner: rope on two adjacent sides.
        let mut corner_true: Vec<Rot> = Vec::new();
        corner_true.push(Rot::new(0));
        corner_true.push(Rot::new(270));
        let mut corner_false: Vec<Rot> = Vec::new();
        corner_false.push(Rot::new(180));
        corner_false.push(Rot::new(90));
        let mut corner_sides: Vec<(bool, Vec<Rot>)> = Vec::new();
        corner_sides.push((true, corner_true));
        corner_sides.push((false, corner_false));
        // empty: no rope anywhere, fully symmetric.
        let mut empty_rots: Vec<Rot> = Vec::new();
        empty_rots.push(Rot::new(0));
        let mut empty_sides: Vec<(bool, Vec<Rot>)> = Vec::new();
        empty_sides.push((false, empty_rots));
        // t: rope on three sides.
        let mut t_true: Vec<Rot> = Vec::new();
        t_true.push(Rot::new(0));
        t_true.push(Rot::new(90));
        t_true.push(Rot::new(180));
        let mut t_false: Vec<Rot> = Vec::new();
        t_false.push(Rot::new(270));
        let mut t_sides: Vec<(bool, Vec<Rot>)> = Vec::new();
        t_sides.push((true, t_true));
        t_sides.push((false, t_false));
        // line: rope straight through.
        let mut line_true: Vec<Rot> = Vec::new();
        line_true.push(Rot::new(0));
        let mut line_false: Vec<Rot> = Vec::new();
        line_false.push(Rot::new(90));
        let mut line_sides: Vec<(bool, Vec<Rot>)> = Vec::new();
        line_sides.push((true, line_true));
        line_sides.push((false, line_false));
        let mut description: Vec<(String, TileDesc<bool>)> = Vec::new();
        description.push(("cross.png".to_owned(), TileDesc::new(180, cross_sides)));
        description.push(("corner.png".to_owned(), TileDesc::new(360, corner_sides)));
        description.push(("empty.png".to_owned(), TileDesc::new(90, empty_sides)));
        description.push(("t.png".to_owned(), TileDesc::new(360, t_sides)));
        description.push(("line.png".to_owned(), TileDesc::new(180, line_sides)));
        Instance { image_dir: "./bin/samples/knots".to_owned(), tile_size: 10, description }
    }
}

/// An integer-sided recast of boolean-sided descriptions (side types
/// mapped to distinct integers, everything else kept) names the same
/// pairing tuples and gives each the same table keys.
proof fn lemma_tuple_transfer(
    descr: Seq<(String, TileDesc<bool>)>,
    conv: Seq<(usize, TileDesc<usize>)>,
    a2: int,
    b2: int,
    s2: int,
    m2: int,
    r2: int,
    r3: int,
    i2: int,
)
    requires
        conv.len() == descr.len(),
        forall|t2: int| 0 <= t2 < conv.len() ==> (#[trigger] conv[t2]).1.cardinality == descr[
            t2].1.cardinality,
        forall|t2: int| 0 <= t2 < conv.len() ==> (#[trigger] conv[t2]).1.desc@.len() == descr[
            t2].1.desc@.len(),
        forall|t2: int, si: int|
            0 <= t2 < conv.len() && 0 <= si < conv[t2].1.desc@.len() ==> (#[trigger] conv[t2].1
                .desc@[si]).1@ == descr[t2].1.desc@[si].1@,
        forall|t2: int, si: int|
            0 <= t2 < conv.len() && 0 <= si < conv[t2].1.desc@.len() ==> (#[trigger] conv[t2].1
                .desc@[si]).0 == (if descr[t2].1.desc@[si].0 {
                1int
            } else {
                0int
            }),
        pairing_source(descr, a2, b2, s2, m2, r2, r3, i2) || pairing_source(
            conv,
            a2,
            b2,
            s2,
            m2,
            r2,
            r3,
            i2,
        ),
    ensures
        pairing_source(descr, a2, b2, s2, m2, r2, r3, i2),
        pairing_source(conv, a2, b2, s2, m2, r2, r3, i2),
        aligned_key(a2, conv[a2].1.desc@[s2].1@[r2].deg(), 0, conv[a2].1.cardinality as int, i2)
            == aligned_key(
            a2,
            descr[a2].1.desc@[s2].1@[r2].deg(),
            0,
            descr[a2].1.cardinality as int,
            i2,
        ),
        aligned_key(b2, conv[b2].1.desc@[m2].1@[r3].deg(), 180, conv[b2].1.cardinality as int, i2)
            == aligned_key(
            b2,
            descr[b2].1.desc@[m2].1@[r3].deg(),
            180,
            descr[b2].1.cardinality as int,
            i2,
        ),
{
    if pairing_source(descr, a2, b2, s2, m2, r2, r3, i2) {
        assert(conv[b2].1.desc@[m2].0 == conv[a2].1.desc@[s2].0);
        assert forall|b3: int| 0 <= b3 < m2 implies (#[trigger] conv[b2].1.desc@[b3]).0 != conv[
            a2].1.desc@[s2].0 by {
            assert(descr[b2].1.desc@[b3].0 != descr[a2].1.desc@[s2].0);
        }
        assert(pairing_source(conv, a2, b2, s2, m2, r2, r3, i2));
    } else {
        assert(descr[b2].1.desc@[m2].0 == descr[a2].1.desc@[s2].0) by {
            assert(conv[b2].1.desc@[m2].0 == conv[a2].1.desc@[s2].0);
        }
        assert forall|b3: int| 0 <= b3 < m2 implies (#[trigger] descr[b2].1.desc@[b3]).0 != descr[
            a2].1.desc@[s2].0 by {
            assert(conv[b2].1.desc@[b3].0 != conv[a2].1.desc@[s2].0);
        }
        assert(pairing_source(descr, a2, b2, s2, m2, r2, r3, i2));
    }
    assert(conv[a2].1.desc@[s2].1@[r2] == descr[a2].1.desc@[s2].1@[r2]);
    assert(conv[b2].1.desc@[m2].1@[r3] == descr[b2].1.desc@[m2].1@[r3]);
    assert(conv[a2].1.cardinality == descr[a2].1.cardinality);
    assert(conv[b2].1.cardinality == descr[b2].1.cardinality);
}

/// Pairing completeness proved of the recast carries back to the
/// boolean-sided descriptions.
proof fn lemma_completeness_transfer(
    descr: Seq<(String, TileDesc<bool>)>,
    conv: Seq<(usize, TileDesc<usize>)>,
    table: Seq<((usize, Rot), Vec<((usize, Rot), Dir2D)>)>,
)
    requires
        conv.len() == descr.len(),
        forall|t2: int| 0 <= t2 < conv.len() ==> (#[trigger] conv[t2]).1.cardinality == descr[
            t2].1.cardinality,
        forall|t2: int| 0 <= t2 < conv.len() ==> (#[trigger] conv[t2]).1.desc@.len() == descr[
            t2].1.desc@.len(),
        forall|t2: int, si: int|
            0 <= t2 < conv.len() && 0 <= si < conv[t2].1.desc@.len() ==> (#[trigger] conv[t2].1
                .desc@[si]).1@ == descr[t2].1.desc@[si].1@,
        forall|t2: int, si: int|
            0 <= t2 < conv.len() && 0 <= si < conv[t2].1.desc@.len() ==> (#[trigger] conv[t2].1
                .desc@[si]).0 == (if descr[t2].1.desc@[si].0 {
                1int
            } else {
                0int
            }),
        forall|a2: int, b2: int, s2: int, m2: int, r2: int, r3: int, i2: int|
            #[trigger] pairing_source(conv, a2, b2, s2, m2, r2, r3, i2) ==> pairing_recorded(
                conv,
                table,
                a2,
                b2,
                s2,
                m2,
                r2,
                r3,
                i2,
            ),
    ensures
        forall|a2: int, b2: int, s2: int, m2: int, r2: int, r3: int, i2: int|
            #[trigger] pairing_source(descr, a2, b2, s2, m2, r2, r3, i2) ==> pairing_recorded(
                descr,
                table,
                a2,
                b2,
                s2,
                m2,
                r2,
                r3,
                i2,
            ),
{
    assert forall|a2: int, b2: int, s2: int, m2: int, r2: int, r3: int, i2: int|
        #[trigger] pairing_source(descr, a2, b2, s2, m2, r2, r3, i2) implies pairing_recorded(
        descr,
        table,
        a2,
        b2,
        s2,
        m2,
        r2,
        r3,
        i2,
    ) by {
        lemma_tuple_transfer(descr, conv, a2, b2, s2, m2, r2, r3, i2);
        assert(pairing_recorded(conv, table, a2, b2, s2, m2, r2, r3, i2));
    }
}

/// Table-entry soundness proved of the recast carries back to the
/// boolean-sided descriptions.
proof fn lemma_soundness_transfer(
    descr: Seq<(String, TileDesc<bool>)>,
    conv: Seq<(usize, TileDesc<usize>)>,
    table: Seq<((usize, Rot), Vec<((usize, Rot), Dir2D)>)>,
)
    requires
        conv.len() == descr.len(),
        forall|t2: int| 0 <= t2 < conv.len() ==> (#[trigger] conv[t2]).1.cardinality == descr[
            t2].1.cardinality,
        forall|t2: int| 0 <= t2 < conv.len() ==> (#[trigger] conv[t2]).1.desc@.len() == descr[
            t2].1.desc@.len(),
        forall|t2: int, si: int|
            0 <= t2 < conv.len() && 0 <= si < conv[t2].1.desc@.len() ==> (#[trigger] conv[t2].1
                .desc@[si]).1@ == descr[t2].1.desc@[si].1@,
        forall|t2: int, si: int|
            0 <= t2 < conv.len() && 0 <= si < conv[t2].1.desc@.len() ==> (#[trigger] conv[t2].1
                .desc@[si]).0 == (if descr[t2].1.desc@[si].0 {
                1int
            } else {
                0int
            }),
        table_entries_sound(conv, table),
    ensures
        table_entries_sound(descr, table),
{
    assert forall|k2: (usize, Rot), e2: ((usize, Rot), Dir2D)|
        #[trigger] entry_in_table(table, k2, e2) implies exists|
        a2: int,
        b2: int,
        s2: int,
        m2: int,
        r2: int,
        r3: int,
        i2: int,
    |
        #[trigger] pairing_source(descr, a2, b2, s2, m2, r2, r3, i2) && pairing_entry(
            descr,
            a2,
            b2,
            s2,
            m2,
            r2,
            r3,
            i2,
            k2,
            e2,
        ) by {
        let (a2, b2, s2, m2, r2, r3, i2) = choose|
            a2: int,
            b2: int,
            s2: int,
            m2: int,
            r2: int,
            r3: int,
            i2: int,
        |
            #[trigger] pairing_source(conv, a2, b2, s2, m2, r2, r3, i2) && pairing_entry(
                conv,
                a2,
                b2,
                s2,
                m2,
                r2,
                r3,
                i2,
                k2,
                e2,
            );
        lemma_tuple_transfer(descr, conv, a2, b2, s2, m2, r2, r3, i2);
        assert(pairing_entry(descr, a2, b2, s2, m2, r2, r3, i2, k2, e2));
        assert(pairing_source(descr, a2, b2, s2, m2, r2, r3, i2) && pairing_entry(
            descr,
            a2,
            b2,
            s2,
            m2,
            r2,
            r3,
            i2,
            k2,
            e2,
        ));
    }
}

} // verus!