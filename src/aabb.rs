use vstd::prelude::*;

verus! {

/// Largest magnitude of a lattice coordinate. Scene coordinates are
/// quantized onto this integer lattice, rounding outwards, so that a box on
/// the lattice always encloses the box it stands for.
pub const COORD_LIMIT: i64 = 1099511627776;

/// A point of the quantization lattice.
#[derive(Clone, Copy, Debug, PartialEq, Eq, Structural)]
pub struct GridPoint {
    pub x: i64,
    pub y: i64,
    pub z: i64,
}

pub open spec fn in_limits(v: int) -> bool {
    -COORD_LIMIT <= v <= COORD_LIMIT
}

pub open spec fn min_int(a: int, b: int) -> int {
    if a <= b { a } else { b }
}

pub open spec fn max_int(a: int, b: int) -> int {
    if a >= b { a } else { b }
}

impl GridPoint {
    /// The coordinate along axis 0 (x), 1 (y) or 2 (z).
    pub open spec fn axis_spec(self, axis: int) -> int {
        if axis == 0 {
            self.x as int
        } else if axis == 1 {
            self.y as int
        } else {
            self.z as int
        }
    }

    pub open spec fn wf(self) -> bool {
        in_limits(self.x as int) && in_limits(self.y as int) && in_limits(self.z as int)
    }

    pub fn axis(&self, axis: usize) -> (r: i64)
        requires
            axis < 3,
        ensures
            r as int == self.axis_spec(axis as int),
    {
        if axis == 0 {
            self.x
        } else if axis == 1 {
            self.y
        } else {
            self.z
        }
    }
}

/// An axis-aligned box on the lattice, corners included.
#[derive(Clone, Copy, Debug, PartialEq, Eq, Structural)]
pub struct Aabb {
    pub min: GridPoint,
    pub max: GridPoint,
}

impl Aabb {
    /// Both corners lie within the lattice limits and `min <= max` on every axis.
    pub open spec fn wf(self) -> bool {
        self.min.wf() && self.max.wf() && self.min.x <= self.max.x && self.min.y <= self.max.y
            && self.min.z <= self.max.z
    }

    /// Every point of `other` lies in `self`.
    pub open spec fn contains_spec(self, other: Aabb) -> bool {
        self.min.x <= other.min.x && other.max.x <= self.max.x && self.min.y <= other.min.y
            && other.max.y <= self.max.y && self.min.z <= other.min.z && other.max.z
            <= self.max.z
    }

    /// The smallest box that holds both boxes: componentwise min and max.
    pub open spec fn union_spec(self, other: Aabb) -> Aabb {
        Aabb {
            min: GridPoint {
                x: min_int(self.min.x as int, other.min.x as int) as i64,
                y: min_int(self.min.y as int, other.min.y as int) as i64,
                z: min_int(self.min.z as int, other.min.z as int) as i64,
            },
            max: GridPoint {
                x: max_int(self.max.x as int, other.max.x as int) as i64,
                y: max_int(self.max.y as int, other.max.y as int) as i64,
                z: max_int(self.max.z as int, other.max.z as int) as i64,
            },
        }
    }

    /// The box's length along an axis.
    pub open spec fn extent_spec(self, axis: int) -> int {
        self.max.axis_spec(axis) - self.min.axis_spec(axis)
    }

    pub open spec fn surface_area_spec(self) -> int {
        2 * (self.extent_spec(0) * self.extent_spec(1) + self.extent_spec(1) * self.extent_spec(2)
            + self.extent_spec(2) * self.extent_spec(0))
    }

    /// Builds a box from its corners; `None` where a corner is outside the
    /// lattice limits or `min` exceeds `max` on some axis.
    pub fn new(min: GridPoint, max: GridPoint) -> (r: Option<Aabb>)
        ensures
            r is Some <==> (Aabb { min, max }).wf(),
            r is Some ==> r->0 == (Aabb { min, max }),
    {
        let b = Aabb { min, max };
        if -COORD_LIMIT <= min.x && min.x <= COORD_LIMIT && -COORD_LIMIT <= min.y && min.y
            <= COORD_LIMIT && -COORD_LIMIT <= min.z && min.z <= COORD_LIMIT && -COORD_LIMIT
            <= max.x && max.x <= COORD_LIMIT && -COORD_LIMIT <= max.y && max.y <= COORD_LIMIT
            && -COORD_LIMIT <= max.z && max.z <= COORD_LIMIT && min.x <= max.x && min.y <= max.y
            && min.z <= max.z {
            Some(b)
        } else {
            None
        }
    }

    /// The box that holds both boxes.
    pub fn union(&self, other: &Aabb) -> (r: Aabb)
        requires
            self.wf(),
            other.wf(),
        ensures
            r == self.union_spec(*other),
            r.wf(),
            r.contains_spec(*self),
            r.contains_spec(*other),
    {
        Aabb {
            min: GridPoint {
                x: if self.min.x <= other.min.x { self.min.x } else { other.min.x },
                y: if self.min.y <= other.min.y { self.min.y } else { other.min.y },
                z: if self.min.z <= other.min.z { self.min.z } else { other.min.z },
            },
            max: GridPoint {
                x: if self.max.x >= other.max.x { self.max.x } else { other.max.x },
                y: if self.max.y >= other.max.y { self.max.y } else { other.max.y },
                z: if self.max.z >= other.max.z { self.max.z } else { other.max.z },
            },
        }
    }

    /// Whether `other` lies wholly within `self`.
    pub fn contains(&self, other: &Aabb) -> (r: bool)
        ensures
            r == self.contains_spec(*other),
    {
        self.min.x <= other.min.x && other.max.x <= self.max.x && self.min.y <= other.min.y
            && other.max.y <= self.max.y && self.min.z <= other.min.z && other.max.z
            <= self.max.z
    }

    /// The length of the box along `axis`.
    pub fn extent(&self, axis: usize) -> (r: u64)
        requires
            self.wf(),
            axis < 3,
        ensures
            r as int == self.extent_spec(axis as int),
    {
        (self.max.axis(axis) - self.min.axis(axis)) as u64
    }

    /// The box's surface area, the cost measure of a split.
    pub fn surface_area(&self) -> (r: u128)
        requires
            self.wf(),
        ensures
            r as int == self.surface_area_spec(),
    {
        let dx = self.extent(0) as u128;
        let dy = self.extent(1) as u128;
        let dz = self.extent(2) as u128;
        assert(dx * dy <= 2199023255552u128 * 2199023255552u128) by (nonlinear_arith)
            requires
                dx <= 2199023255552u128,
                dy <= 2199023255552u128,
        ;
        assert(dy * dz <= 2199023255552u128 * 2199023255552u128) by (nonlinear_arith)
            requires
                dz <= 2199023255552u128,
                dy <= 2199023255552u128,
        ;
        assert(dz * dx <= 2199023255552u128 * 2199023255552u128) by (nonlinear_arith)
            requires
                dx <= 2199023255552u128,
                dz <= 2199023255552u128,
        ;
        2 * (dx * dy + dy * dz + dz * dx)
    }

    /// The axis along which the box is widest (the first such axis on a tie).
    pub fn longest_axis(&self) -> (r: usize)
        requires
            self.wf(),
        ensures
            r < 3,
            forall|a: int| 0 <= a < 3 ==> self.extent_spec(a) <= self.extent_spec(r as int),
            forall|a: int| 0 <= a < r ==> self.extent_spec(a) < self.extent_spec(r as int),
    {
        let dx = self.extent(0);
        let dy = self.extent(1);
        let dz = self.extent(2);
        if dx >= dy && dx >= dz {
            0
        } else if dy >= dz {
            1
        } else {
            2
        }
    }

    /// The sum of the two corners, that is twice the box's centre, kept on
    /// the lattice without rounding.
    pub fn centre2(&self) -> (r: GridPoint)
        requires
            self.wf(),
        ensures
            forall|a: int|
                0 <= a < 3 ==> #[trigger] r.axis_spec(a) == self.min.axis_spec(a)
                    + self.max.axis_spec(a),
    {
        GridPoint {
            x: self.min.x + self.max.x,
            y: self.min.y + self.max.y,
            z: self.min.z + self.max.z,
        }
    }
}

/// Union is commutative.
pub proof fn lemma_union_commutative(a: Aabb, b: Aabb)
    ensures
        a.union_spec(b) == b.union_spec(a),
{
}

/// Union is associative.
pub proof fn lemma_union_associative(a: Aabb, b: Aabb, c: Aabb)
    requires
        a.wf(),
        b.wf(),
        c.wf(),
    ensures
        a.union_spec(b).union_spec(c) == a.union_spec(b.union_spec(c)),
{
}

/// The union of two boxes is a valid box that contains both of them.
pub proof fn lemma_union_contains_both(a: Aabb, b: Aabb)
    requires
        a.wf(),
        b.wf(),
    ensures
        a.union_spec(b).wf(),
        a.union_spec(b).contains_spec(a),
        a.union_spec(b).contains_spec(b),
{
}

} // verus!
