use vstd::prelude::*;

verus! {

/// A rotation of a square tile, in degrees.
///
/// Rotations are produced in steps of 90 degrees; a tile description's
/// cardinality says after how many degrees the tile looks the same again.
#[derive(Clone, Copy, Debug, PartialEq, Eq, Hash, Structural)]
pub struct Rot(usize);

impl Rot {
    /// The angle in degrees.
    pub closed spec fn deg(self) -> int {
        self.0 as int
    }

    /// The rotation of `d` degrees, as a specification value.
    pub closed spec fn deg_rot(d: int) -> Rot {
        Rot(d as usize)
    }

    /// A rotation is the rotation of its own angle: rotations with equal
    /// angles are equal.
    pub proof fn lemma_rot_from_deg(r: Rot)
        ensures
            r == Rot::deg_rot(r.deg()),
    {
    }

    /// Builds the rotation of `deg` degrees.
    pub fn new(deg: usize) -> (r: Rot)
        ensures
            r.deg() == deg,
    {
        Rot(deg)
    }

    /// The angle in degrees, as a run-time value.
    pub fn degrees(&self) -> (d: usize)
        ensures
            d == self.deg(),
    {
        self.0
    }

    /// One further quarter turn, wrapped at the tile's cardinality.
    pub fn rot_90(&self, card: usize) -> (r: Rot)
        requires
            card >= 1,
            self.deg() + 90 <= usize::MAX,
        ensures
            r.deg() == (self.deg() + 90) % (card as int),
    {
        Rot((self.0 + 90) % card)
    }

    /// The opposite direction: a half turn, wrapped at a full circle.
    pub fn opp(&self) -> (r: Rot)
        requires
            self.deg() + 180 <= usize::MAX,
        ensures
            r.deg() == (self.deg() + 180) % 360,
    {
        Rot((self.0 + 180) % 360)
    }

    /// The turn that carries `self` onto `o`, wrapped at the cardinality.
    pub fn to(&self, o: &Rot, card: usize) -> (r: Rot)
        requires
            card >= 1,
            o.deg() + 360 <= usize::MAX,
            o.deg() < self.deg() ==> self.deg() <= o.deg() + 360,
        ensures
            r.deg() == ((if o.deg() < self.deg() {
                o.deg() + 360
            } else {
                o.deg()
            }) - self.deg()) % (card as int),
    {
        let dest: usize = if o.0 < self.0 {
            o.0 + 360
        } else {
            o.0
        };
        Rot((dest - self.0) % card)
    }

    /// `n` further quarter turns, wrapped at the tile's cardinality.
    pub fn rot_90_n(&self, card: usize, n: usize) -> (r: Rot)
        requires
            card >= 1,
            self.deg() + 90 * n <= usize::MAX,
        ensures
            r.deg() == (self.deg() + 90 * n) % (card as int),
    {
        Rot((self.0 + 90 * n) % card)
    }

    /// All quarter-turn rotations whose angle lies below `v`.
    pub fn up_to(v: usize) -> (rots: Vec<Rot>)
        requires
            v <= usize::MAX - 90,
        ensures
            rots@.len() == ((v as int) + 89) / 90,
            forall|k: int| 0 <= k < rots@.len() ==> (#[trigger] rots@[k]).deg() == 90 * k,
    {
        let mut rots: Vec<Rot> = Vec::new();
        let mut deg: usize = 0;
        while deg < v
            invariant
                v <= usize::MAX - 90,
                deg <= v + 89,
                rots@.len() * 90 == deg,
                forall|k: int| 0 <= k < rots@.len() ==> (#[trigger] rots@[k]).deg() == 90 * k,
            decreases v + 90 - deg,
        {
            rots.push(Rot(deg));
            deg = deg + 90;
        }
        proof {
            assert(rots@.len() == ((v as int) + 89) / 90) by (nonlinear_arith)
                requires
                    rots@.len() * 90 == deg as int,
                    v <= deg,
                    deg <= v + 89;
        }
        rots
    }
}

} // verus!
