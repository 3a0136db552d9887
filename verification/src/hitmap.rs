//! The occupancy mask of the cube: one bit for each of its 27 cells.

use vstd::prelude::*;
use crate::bits::{
    bit_set, lemma_bit_or_and, lemma_bit_or_one, lemma_bit_test, lemma_bits_extensional,
    lemma_mask_of, lemma_overlap, mask_of, MASK_LIMIT,
};
use crate::coordinates::{Coordinate, Rotation};
use crate::rotation_group::lemma_rotations_closed;
use crate::matrix::{
    apply, identity, is_rotation, lemma_apply_product, lemma_identity_neutral,
    lemma_rotation_keeps_cube, lemma_transpose_inverts, mat_mul, transpose, Mat3, Point,
};

verus! {

/// The number of the cell at `p`: x counts ones, y threes and z nines.
pub open spec fn index_of(p: Point) -> int {
    (p.x + 1) + 3 * (p.y + 1) + 9 * (p.z + 1)
}

/// The cell with the number `i`.
pub open spec fn point_at(i: int) -> Point {
    Point { x: i % 3 - 1, y: (i / 3) % 3 - 1, z: i / 9 - 1 }
}

/// The number of the cell onto which the matrix `m` turns cell `i`.
pub open spec fn rotate_index(m: Mat3, i: int) -> int {
    index_of(apply(m, point_at(i)))
}

/// The number of the cell that lies `by` away from cell `i`.
pub open spec fn shift_index(by: Point, i: int) -> int {
    index_of(point_at(i).plus(by))
}

/// The 27 cells in the order in which a mask is read out: x changes slowest
/// and z fastest.
pub open spec fn scan_order() -> Seq<Point> {
    Seq::new(27, |k: int| Point { x: k / 9 - 1, y: (k / 3) % 3 - 1, z: k % 3 - 1 })
}

/// The points that the coordinates stand for.
pub open spec fn points(coords: Seq<Coordinate>) -> Seq<Point> {
    coords.map_values(|c: Coordinate| c@)
}

/// The numbering of the cells is a bijection between the cube and `0..27`:
/// from a cell to its number and back gives the cell, and from a number to
/// its cell and back gives the number.
pub proof fn lemma_index_bijection(p: Point, i: int)
    ensures
        p.in_cube() ==> 0 <= index_of(p) < 27 && point_at(index_of(p)) == p,
        0 <= i < 27 ==> point_at(i).in_cube() && index_of(point_at(i)) == i,
{
}

/// A set of cells of the cube, held as a 27-bit mask: bit `i` is set when the
/// cell with the number `i` is occupied. Masks are ordered as integers.
#[derive(Clone, Copy, Debug, PartialEq, Eq, PartialOrd, Ord, Hash)]
pub struct Hitmap(pub u32);

impl Hitmap {
    /// Only bits 0 to 26 are set.
    pub open spec fn wf(self) -> bool {
        self.0 < MASK_LIMIT
    }

    /// The cell with the number `i` is occupied.
    pub open spec fn has(self, i: int) -> bool {
        bit_set(self.0, i)
    }

    /// The cell at `p` is occupied.
    pub open spec fn occupied(self) -> spec_fn(Point) -> bool {
        |p: Point| self.has(index_of(p))
    }

    /// The mask of the cells onto which `f` takes the occupied cells.
    pub open spec fn moved(self, f: spec_fn(int) -> int) -> Hitmap {
        Hitmap(mask_of(|j: int| exists|i: int| self.has(i) && f(i) == j, 27))
    }

    /// The mask turned by the matrix `m`.
    pub open spec fn rotated(self, m: Mat3) -> Hitmap {
        self.moved(|i: int| rotate_index(m, i))
    }

    /// The mask moved by the vector `by`.
    pub open spec fn shifted(self, by: Point) -> Hitmap {
        self.moved(|i: int| shift_index(by, i))
    }

    /// The two masks share a cell.
    pub open spec fn overlaps(self, other: Hitmap) -> bool {
        self.0 & other.0 != 0
    }

    /// The cells of both masks together.
    pub open spec fn union(self, other: Hitmap) -> Hitmap {
        Hitmap(self.0 | other.0)
    }

    /// The mask of the cells at `coords`.
    pub fn from_coordinates(coords: Vec<Coordinate>) -> (hitmap: Self)
        requires
            forall|k: int| 0 <= k < coords.len() ==> (#[trigger] coords[k])@.in_cube(),
        ensures
            hitmap.wf(),
            forall|j: int|
                #![trigger hitmap.has(j)]
                hitmap.has(j) <==> exists|k: int|
                    0 <= k < coords.len() && index_of((#[trigger] coords[k])@) == j,
    {
        let mut hitmap = Hitmap(0);
        proof {
            assert forall|j: int| !hitmap.has(j) by {
                lemma_bit_or_and(0, 0, j);
            }
        }
        let mut n: usize = 0;
        while n < coords.len()
            invariant
                n <= coords.len(),
                forall|k: int| 0 <= k < coords.len() ==> (#[trigger] coords[k])@.in_cube(),
                hitmap.wf(),
                forall|j: int|
                    hitmap.has(j) <==> exists|k: int|
                        0 <= k < n && index_of((#[trigger] coords[k])@) == j,
            decreases coords.len() - n,
        {
            let ghost before = hitmap;
            hitmap = hitmap.add(coords[n]);
            proof {
                let added = index_of(coords[n as int]@);
                assert forall|j: int|
                    hitmap.has(j) <==> exists|k: int|
                        0 <= k < n + 1 && index_of((#[trigger] coords[k])@) == j by {
                    if before.has(j) {
                        let k = choose|k: int|
                            0 <= k < n && index_of((#[trigger] coords[k])@) == j;
                        assert(0 <= k < n + 1 && index_of(coords[k]@) == j);
                    }
                    if j == added {
                        assert(0 <= n < n + 1 && index_of(coords[n as int]@) == j);
                    }
                }
            }
            n += 1;
        }
        hitmap
    }

    /// The mask with the cell at `coord` occupied as well.
    pub fn add(self, coord: Coordinate) -> (hitmap: Self)
        requires
            coord@.in_cube(),
        ensures
            hitmap.0 == self.0 | (1u32 << (index_of(coord@) as u32)),
            forall|j: int|
                #![trigger hitmap.has(j)]
                hitmap.has(j) <==> self.has(j) || j == index_of(coord@),
            self.wf() ==> hitmap.wf(),
    {
        let index = Self::coordinate_to_index(&coord);
        proof {
            assert forall|j: int|
                bit_set(self.0 | (1u32 << (index as u32)), j) <==> self.has(j) || j
                    == index by {
                lemma_bit_or_one(self.0, index as u32, j);
            }
            lemma_bit_or_one(self.0, index as u32, 0);
        }
        Hitmap(self.0 | (1u32 << (index as u32)))
    }

    /// The mask with no cell occupied.
    pub fn empty() -> (hitmap: Self)
        ensures
            hitmap == Hitmap(0),
    {
        let hitmap = Self::from_coordinates(Vec::new());
        proof {
            assert forall|j: int| hitmap.has(j) == Hitmap(0).has(j) by {
                lemma_bit_or_and(0, 0, j);
            }
            lemma_hitmap_extensional(hitmap, Hitmap(0));
        }
        hitmap
    }

    /// The mask turned by `rotation`: every occupied cell goes where the
    /// rotation takes it.
    pub fn rotate(&self, rotation: &Rotation) -> (hitmap: Hitmap)
        requires
            rotation.wf(),
        ensures
            hitmap == self.rotated(rotation@),
            hitmap.wf(),
            forall|j: int|
                #![trigger hitmap.has(j)]
                hitmap.has(j) <==> exists|i: int|
                    self.has(i) && #[trigger] rotate_index(rotation@, i) == j,
    {
        let coords = self.coordinates();
        let mut rotated_coords: Vec<Coordinate> = Vec::new();
        let mut n: usize = 0;
        while n < coords.len()
            invariant
                n <= coords.len(),
                rotation.wf(),
                forall|k: int| 0 <= k < coords.len() ==> (#[trigger] coords[k])@.in_cube(),
                rotated_coords.len() == n,
                forall|k: int|
                    0 <= k < n ==> (#[trigger] rotated_coords[k])@ == apply(
                        rotation@,
                        coords[k]@,
                    ),
            decreases coords.len() - n,
        {
            rotated_coords.push(rotation.rotate(coords[n]));
            n += 1;
        }
        proof {
            assert forall|k: int| 0 <= k < rotated_coords.len() implies (
            #[trigger] rotated_coords[k])@.in_cube() by {
                lemma_rotation_keeps_cube(rotation@, coords[k]@);
            }
        }
        let hitmap = Self::from_coordinates(rotated_coords);
        proof {
            let m = rotation@;
            assert forall|j: int|
                hitmap.has(j) <==> exists|i: int|
                    self.has(i) && #[trigger] rotate_index(m, i) == j by {
                if hitmap.has(j) {
                    let k = choose|k: int|
                        0 <= k < rotated_coords.len() && index_of(
                            (#[trigger] rotated_coords[k])@,
                        ) == j;
                    let i = index_of(coords[k]@);
                    lemma_index_bijection(coords[k]@, 0);
                    assert(self.has(i) && rotate_index(m, i) == j);
                }
                if exists|i: int| self.has(i) && #[trigger] rotate_index(m, i) == j {
                    let i = choose|i: int| self.has(i) && #[trigger] rotate_index(m, i) == j;
                    let k = choose|k: int|
                        0 <= k < coords.len() && index_of((#[trigger] coords[k])@) == i;
                    lemma_index_bijection(coords[k]@, 0);
                    assert(index_of(rotated_coords[k]@) == j);
                }
            }
            lemma_moved_has(*self, |i: int| rotate_index(m, i));
            assert forall|j: int| hitmap.has(j) == self.rotated(m).has(j) by {
                if hitmap.has(j) {
                    let i = choose|i: int| self.has(i) && #[trigger] rotate_index(m, i) == j;
                    assert(self.has(i) && (|i: int| rotate_index(m, i))(i) == j);
                }
            }
            lemma_hitmap_extensional(hitmap, self.rotated(m));
        }
        hitmap
    }

    /// The mask moved by `shift`: every occupied cell goes to the cell that
    /// lies `shift` away, which has to be a cell of the cube.
    pub fn shift(&self, shift: Coordinate) -> (hitmap: Hitmap)
        requires
            forall|i: int| self.has(i) ==> (#[trigger] point_at(i)).plus(shift@).in_cube(),
        ensures
            hitmap == self.shifted(shift@),
            hitmap.wf(),
            forall|j: int|
                #![trigger hitmap.has(j)]
                hitmap.has(j) <==> exists|i: int|
                    self.has(i) && #[trigger] shift_index(shift@, i) == j,
    {
        let coords = self.coordinates();
        let mut shifted_coords: Vec<Coordinate> = Vec::new();
        let mut n: usize = 0;
        while n < coords.len()
            invariant
                n <= coords.len(),
                forall|i: int| self.has(i) ==> (#[trigger] point_at(i)).plus(shift@).in_cube(),
                forall|k: int|
                    0 <= k < coords.len() ==> (#[trigger] coords[k])@.in_cube() && self.has(
                        index_of(coords[k]@),
                    ),
                shifted_coords.len() == n,
                forall|k: int|
                    0 <= k < n ==> (#[trigger] shifted_coords[k])@ == coords[k]@.plus(shift@)
                        && shifted_coords[k]@.in_cube(),
            decreases coords.len() - n,
        {
            proof {
                let i = index_of(coords[n as int]@);
                lemma_index_bijection(coords[n as int]@, 0);
                assert(point_at(i).plus(shift@).in_cube());
            }
            shifted_coords.push(coords[n].shift(shift));
            n += 1;
        }
        let hitmap = Self::from_coordinates(shifted_coords);
        proof {
            let by = shift@;
            assert forall|j: int|
                hitmap.has(j) <==> exists|i: int|
                    self.has(i) && #[trigger] shift_index(by, i) == j by {
                if hitmap.has(j) {
                    let k = choose|k: int|
                        0 <= k < shifted_coords.len() && index_of(
                            (#[trigger] shifted_coords[k])@,
                        ) == j;
                    let i = index_of(coords[k]@);
                    lemma_index_bijection(coords[k]@, 0);
                    assert(self.has(i) && shift_index(by, i) == j);
                }
                if exists|i: int| self.has(i) && #[trigger] shift_index(by, i) == j {
                    let i = choose|i: int| self.has(i) && #[trigger] shift_index(by, i) == j;
                    let k = choose|k: int|
                        0 <= k < coords.len() && index_of((#[trigger] coords[k])@) == i;
                    lemma_index_bijection(coords[k]@, 0);
                    assert(index_of(shifted_coords[k]@) == j);
                }
            }
            lemma_moved_has(*self, |i: int| shift_index(by, i));
            assert forall|j: int| hitmap.has(j) == self.shifted(by).has(j) by {
                if hitmap.has(j) {
                    let i = choose|i: int| self.has(i) && #[trigger] shift_index(by, i) == j;
                    assert(self.has(i) && (|i: int| shift_index(by, i))(i) == j);
                }
            }
            lemma_hitmap_extensional(hitmap, self.shifted(by));
        }
        hitmap
    }

    /// The occupied cells, in the order of `scan_order`.
    pub fn coordinates(&self) -> (coords: Vec<Coordinate>)
        ensures
            points(coords@) == scan_order().filter(self.occupied()),
            forall|k: int|
                0 <= k < coords.len() ==> (#[trigger] coords[k])@.in_cube() && self.has(
                    index_of(coords[k]@),
                ),
            forall|i: int|
                self.has(i) ==> exists|k: int|
                    0 <= k < coords.len() && index_of((#[trigger] coords[k])@) == i,
    {
        let mut coords: Vec<Coordinate> = Vec::new();
        proof {
            reveal(Seq::filter);
            assert(scan_order().take(0).filter(self.occupied()) =~= Seq::<Point>::empty());
            assert(points(coords@) =~= Seq::<Point>::empty());
        }

        let mut x: i32 = -1;
        while x <= 1
            invariant
                -1 <= x <= 2,
                self.read_out(coords@, 9 * (x + 1)),
            decreases 2 - x,
        {
            let mut y: i32 = -1;
            while y <= 1
                invariant
                    -1 <= x <= 1,
                    -1 <= y <= 2,
                    self.read_out(coords@, 9 * (x + 1) + 3 * (y + 1)),
                decreases 2 - y,
            {
                let mut z: i32 = -1;
                while z <= 1
                    invariant
                        -1 <= x <= 1,
                        -1 <= y <= 1,
                        -1 <= z <= 2,
                        self.read_out(coords@, 9 * (x + 1) + 3 * (y + 1) + (z + 1)),
                    decreases 2 - z,
                {
                    let coordinate = Coordinate { x, y, z };
                    let index = Self::coordinate_to_index(&coordinate);
                    let ghost k = 9 * (x + 1) + 3 * (y + 1) + (z + 1);
                    let ghost before = coords@;
                    proof {
                        lemma_bit_test(self.0, index as u32);
                        assert(scan_order()[k] == coordinate@);
                        scan_order().lemma_take_succ_push(k);
                        scan_order().take(k).lemma_filter_push(coordinate@, self.occupied());
                    }
                    if self.0 & (1u32 << (index as u32)) != 0 {
                        coords.push(coordinate);
                        proof {
                            assert(points(coords@) =~= points(before).push(coordinate@));
                            assert(coords@[before.len() as int] == coordinate);
                            assert forall|j: int|
                                0 <= j < k + 1 && self.has(
                                    index_of(#[trigger] scan_order()[j]),
                                ) implies holds_point(coords@, scan_order()[j]) by {
                                if j < k {
                                    let n = choose|n: int|
                                        0 <= n < before.len() && (#[trigger] before[n])@
                                            == scan_order()[j];
                                    assert(coords@[n]@ == scan_order()[j]);
                                }
                            }
                        }
                    }
                    z += 1;
                }
                y += 1;
            }
            x += 1;
        }
        proof {
            assert(scan_order().take(27) =~= scan_order());
            assert forall|i: int| self.has(i) implies exists|k: int|
                0 <= k < coords.len() && index_of((#[trigger] coords[k])@) == i by {
                let p = point_at(i);
                let j = 9 * (p.x + 1) + 3 * (p.y + 1) + (p.z + 1);
                assert(scan_order()[j] == p);
                assert(holds_point(coords@, scan_order()[j]));
                let n = choose|n: int| 0 <= n < coords.len() && (#[trigger] coords[n])@ == p;
                assert(index_of(coords[n]@) == i);
            }
        }
        coords
    }

    /// `coords` is what reading out the first `k` cells of `scan_order` gives.
    spec fn read_out(self, coords: Seq<Coordinate>, k: int) -> bool {
        &&& 0 <= k <= 27
        &&& points(coords) == scan_order().take(k).filter(self.occupied())
        &&& forall|n: int|
            0 <= n < coords.len() ==> (#[trigger] coords[n])@.in_cube() && self.has(
                index_of(coords[n]@),
            )
        &&& forall|j: int|
            0 <= j < k && self.has(index_of(#[trigger] scan_order()[j])) ==> holds_point(
                coords,
                scan_order()[j],
            )
    }

    /// The number of the cell at `coord`.
    pub fn coordinate_to_index(coord: &Coordinate) -> (index: i32)
        requires
            coord@.in_cube(),
        ensures
            index == index_of(coord@),
            0 <= index < 27,
    {
        coord.x + 1 + 3 * (coord.y + 1) + 9 * (coord.z + 1)
    }
}

/// One of `coords` stands for the point `p`.
spec fn holds_point(coords: Seq<Coordinate>, p: Point) -> bool {
    exists|n: int| 0 <= n < coords.len() && (#[trigger] coords[n])@ == p
}

/// A moved mask has only bits 0 to 26 set, and its occupied cells are those
/// onto which `f` takes an occupied cell.
pub proof fn lemma_moved_has(h: Hitmap, f: spec_fn(int) -> int)
    ensures
        h.moved(f).wf(),
        forall|j: int|
            h.moved(f).has(j) <==> 0 <= j < 27 && exists|i: int| h.has(i) && f(i) == j,
{
    lemma_mask_of(|j: int| exists|i: int| h.has(i) && f(i) == j, 27);
}

/// Two masks with only bits 0 to 26 set and the same occupied cells are the
/// same mask.
pub proof fn lemma_hitmap_extensional(a: Hitmap, b: Hitmap)
    requires
        a.wf(),
        b.wf(),
        forall|j: int| a.has(j) == b.has(j),
    ensures
        a == b,
{
    assert forall|j: int| bit_set(a.0, j) == bit_set(b.0, j) by {
        assert(a.has(j) == b.has(j));
    }
    lemma_bits_extensional(a.0, b.0);
}

/// A proper rotation takes the cells of the cube to cells of the cube, and
/// its transpose takes every cell back.
pub proof fn lemma_rotate_index_inverse(m: Mat3, i: int)
    requires
        is_rotation(m),
        0 <= i < 27,
    ensures
        0 <= rotate_index(m, i) < 27,
        rotate_index(transpose(m), rotate_index(m, i)) == i,
{
    let p = point_at(i);
    lemma_index_bijection(p, i);
    lemma_rotation_keeps_cube(m, p);
    lemma_index_bijection(apply(m, p), 0);
    lemma_transpose_inverts(m);
    lemma_apply_product(transpose(m), m, p);
    lemma_identity_neutral(m, p);
}

/// Turning a cell by `q` and then by `p` is turning it by the product
/// `p · q`.
pub proof fn lemma_rotate_index_product(p: Mat3, q: Mat3, i: int)
    requires
        is_rotation(q),
        0 <= i < 27,
    ensures
        rotate_index(p, rotate_index(q, i)) == rotate_index(mat_mul(p, q), i),
{
    let v = point_at(i);
    lemma_index_bijection(v, i);
    lemma_rotation_keeps_cube(q, v);
    lemma_index_bijection(apply(q, v), 0);
    lemma_apply_product(p, q, v);
}

/// The cells of a turned mask: cell `j` is occupied exactly when the cell
/// that the rotation takes to `j` was.
pub proof fn lemma_rotated_has(h: Hitmap, m: Mat3, j: int)
    requires
        is_rotation(m),
    ensures
        h.rotated(m).wf(),
        h.rotated(m).has(j) <==> 0 <= j < 27 && h.has(rotate_index(transpose(m), j)),
        h.rotated(m).has(j) <==> exists|i: int| h.has(i) && rotate_index(m, i) == j,
{
    let f = |i: int| rotate_index(m, i);
    lemma_moved_has(h, f);
    lemma_transpose_inverts(m);
    let t = transpose(m);
    assert(transpose(t) == m);
    if exists|i: int| h.has(i) && rotate_index(m, i) == j {
        let i = choose|i: int| h.has(i) && rotate_index(m, i) == j;
        lemma_rotate_index_inverse(m, i);
        assert(h.has(i) && f(i) == j);
    }
    if 0 <= j < 27 && h.has(rotate_index(t, j)) {
        let i = rotate_index(t, j);
        lemma_rotate_index_inverse(t, j);
        assert(h.has(i) && f(i) == j);
    }
    if h.rotated(m).has(j) {
        let i = choose|i: int| h.has(i) && f(i) == j;
        lemma_rotate_index_inverse(m, i);
    }
}

/// Turning a mask by the identity leaves it as it is.
pub proof fn lemma_rotate_identity(h: Hitmap)
    requires
        h.wf(),
    ensures
        h.rotated(identity()) == h,
{
    let e = identity();
    lemma_identity_neutral(e, point_at(0));
    assert forall|j: int| h.rotated(e).has(j) == h.has(j) by {
        lemma_rotated_has(h, e, j);
        if 0 <= j < 27 {
            lemma_identity_neutral(e, point_at(j));
            lemma_index_bijection(point_at(j), j);
        }
    }
    lemma_rotated_has(h, e, 0);
    lemma_hitmap_extensional(h.rotated(e), h);
}

/// Turning a mask by `q` and then by `p` is turning it by the product
/// `p · q`.
pub proof fn lemma_rotate_product(h: Hitmap, p: Mat3, q: Mat3)
    requires
        is_rotation(p),
        is_rotation(q),
    ensures
        h.rotated(q).rotated(p) == h.rotated(mat_mul(p, q)),
{
    let pq = mat_mul(p, q);
    lemma_rotations_closed(p, q);
    assert forall|j: int| h.rotated(q).rotated(p).has(j) == h.rotated(pq).has(j) by {
        lemma_rotated_has(h.rotated(q), p, j);
        lemma_rotated_has(h, pq, j);
        if h.rotated(q).rotated(p).has(j) {
            let k = choose|k: int| h.rotated(q).has(k) && rotate_index(p, k) == j;
            lemma_rotated_has(h, q, k);
            let i = choose|i: int| h.has(i) && rotate_index(q, i) == k;
            lemma_rotate_index_product(p, q, i);
            assert(h.has(i) && rotate_index(pq, i) == j);
        }
        if h.rotated(pq).has(j) {
            let i = choose|i: int| h.has(i) && rotate_index(pq, i) == j;
            let k = rotate_index(q, i);
            lemma_rotate_index_product(p, q, i);
            lemma_rotated_has(h, q, k);
            assert(h.rotated(q).has(k) && rotate_index(p, k) == j);
        }
    }
    lemma_rotated_has(h.rotated(q), p, 0);
    lemma_rotated_has(h, pq, 0);
    lemma_hitmap_extensional(h.rotated(q).rotated(p), h.rotated(pq));
}

/// Turning a mask by a rotation and then by its inverse, the transpose,
/// gives the mask back.
pub proof fn lemma_rotate_inverse(h: Hitmap, m: Mat3)
    requires
        h.wf(),
        is_rotation(m),
    ensures
        is_rotation(transpose(m)),
        h.rotated(m).rotated(transpose(m)) == h,
{
    lemma_transpose_inverts(m);
    lemma_rotate_product(h, transpose(m), m);
    lemma_rotate_identity(h);
}

/// Two masks share a cell exactly when the masks turned by the same
/// rotation do.
pub proof fn lemma_rotate_overlaps(a: Hitmap, b: Hitmap, m: Mat3)
    requires
        a.wf(),
        is_rotation(m),
    ensures
        a.rotated(m).overlaps(b.rotated(m)) == a.overlaps(b),
{
    let ra = a.rotated(m);
    let rb = b.rotated(m);
    lemma_rotated_has(a, m, 0);
    lemma_overlap(a.0, b.0);
    lemma_overlap(ra.0, rb.0);
    if a.overlaps(b) {
        let i = choose|i: int| bit_set(a.0, i) && bit_set(b.0, i);
        let j = rotate_index(m, i);
        lemma_rotated_has(a, m, j);
        lemma_rotated_has(b, m, j);
        assert(a.has(i) && b.has(i));
        assert(bit_set(ra.0, j) && bit_set(rb.0, j));
    }
    if ra.overlaps(rb) {
        let j = choose|j: int| bit_set(ra.0, j) && bit_set(rb.0, j);
        let i = rotate_index(transpose(m), j);
        lemma_rotated_has(a, m, j);
        lemma_rotated_has(b, m, j);
        assert(ra.has(j) && rb.has(j));
        assert(bit_set(a.0, i) && bit_set(b.0, i));
    }
}

/// Two masks overlap exactly when there is a cell that both occupy.
pub proof fn lemma_overlaps_shares_cell(a: Hitmap, b: Hitmap)
    requires
        a.wf(),
    ensures
        a.overlaps(b) <==> exists|i: int| a.has(i) && b.has(i),
{
    lemma_overlap(a.0, b.0);
    if a.overlaps(b) {
        let i = choose|i: int| bit_set(a.0, i) && bit_set(b.0, i);
        assert(a.has(i) && b.has(i));
    }
    if exists|i: int| a.has(i) && b.has(i) {
        let i = choose|i: int| a.has(i) && b.has(i);
        assert(bit_set(a.0, i) && bit_set(b.0, i));
    }
}

/// A mask with an occupied cell still has one after it is turned.
pub proof fn lemma_rotate_keeps_cells(h: Hitmap, m: Mat3)
    requires
        h.wf(),
        h.0 != 0,
        is_rotation(m),
    ensures
        h.rotated(m).0 != 0,
{
    if forall|i: int| !h.has(i) {
        assert forall|i: int| h.has(i) == Hitmap(0).has(i) by {
            lemma_bit_or_and(0, 0, i);
        }
        lemma_hitmap_extensional(h, Hitmap(0));
    }
    let i = choose|i: int| h.has(i);
    let j = rotate_index(m, i);
    lemma_rotated_has(h, m, j);
    assert(h.rotated(m).has(j));
    lemma_bit_or_and(0, 0, j);
}

/// Builds a mask cell by cell: it holds the mask so far and the cell that
/// was marked last.
pub struct HitmapBuilder {
    pub hitmap: Hitmap,
    pub coordinate: Coordinate,
}

impl HitmapBuilder {
    /// A builder that stands at `coordinate`, with that cell marked and no
    /// other.
    pub fn new(coordinate: Coordinate) -> (builder: Self)
        requires
            coordinate@.in_cube(),
        ensures
            builder.coordinate == coordinate,
            builder.hitmap.0 == 1u32 << (index_of(coordinate@) as u32),
            builder.hitmap.wf(),
    {
        proof {
            let bit = 1u32 << (index_of(coordinate@) as u32);
            assert(0u32 | bit == bit) by (bit_vector);
        }
        Self { hitmap: Hitmap::empty(), coordinate }.teleport(coordinate)
    }

    /// Jumps to `coordinate` and marks that cell.
    pub fn teleport(self, coordinate: Coordinate) -> (builder: Self)
        requires
            coordinate@.in_cube(),
        ensures
            builder.coordinate == coordinate,
            builder.hitmap.0 == self.hitmap.0 | (1u32 << (index_of(coordinate@) as u32)),
            self.hitmap.wf() ==> builder.hitmap.wf(),
    {
        let mut builder = self;
        builder.coordinate = coordinate;
        builder.hitmap = builder.hitmap.add(coordinate);
        builder
    }

    /// Steps by `amount` from the cell where the builder stands and marks the
    /// cell it comes to.
    pub fn shift(self, amount: Coordinate) -> (builder: Self)
        requires
            self.coordinate@.plus(amount@).in_cube(),
        ensures
            builder.coordinate@ == self.coordinate@.plus(amount@),
            builder.hitmap.0 == self.hitmap.0 | (1u32 << (index_of(builder.coordinate@) as u32)),
            self.hitmap.wf() ==> builder.hitmap.wf(),
    {
        let new_coordinate = self.coordinate.shift(amount);
        self.teleport(new_coordinate)
    }
}

} // verus!
