//! Coordinates of the cube's cells and the rotations that act on them.

use vstd::prelude::*;
use crate::matrix::{
    apply, identity, is_rotation, lemma_identity_neutral, lemma_quarter_turns,
    lemma_rotation_shape, lemma_signed_product, mat_mul, mat_pow,
    quarter_x, quarter_y, quarter_z, turns, Mat3, Point,
};
use crate::rotation_group::{
    lemma_rotation_count, lemma_rotation_generated, lemma_rotations_closed,
};

verus! {

/// An integer triple. The 27 cells of the cube are the triples with every
/// component in {-1, 0, 1}.
#[derive(Clone, Copy, Debug, PartialEq, Eq)]
pub struct Coordinate {
    pub x: i32,
    pub y: i32,
    pub z: i32,
}

impl View for Coordinate {
    type V = Point;

    open spec fn view(&self) -> Point {
        Point { x: self.x as int, y: self.y as int, z: self.z as int }
    }
}

impl Coordinate {
    /// The coordinate moved by `shift`, component by component.
    pub fn shift(&self, shift: Coordinate) -> (moved: Coordinate)
        requires
            i32::MIN <= self.x + shift.x <= i32::MAX,
            i32::MIN <= self.y + shift.y <= i32::MAX,
            i32::MIN <= self.z + shift.z <= i32::MAX,
        ensures
            moved@ == self@.plus(shift@),
    {
        Coordinate { x: self.x + shift.x, y: self.y + shift.y, z: self.z + shift.z }
    }
}

/// The mathematical matrix that an array of three rows stands for.
pub open spec fn matrix_of(rows: [[i32; 3]; 3]) -> Mat3 {
    Mat3 {
        a: rows[0][0] as int,
        b: rows[0][1] as int,
        c: rows[0][2] as int,
        d: rows[1][0] as int,
        e: rows[1][1] as int,
        f: rows[1][2] as int,
        g: rows[2][0] as int,
        h: rows[2][1] as int,
        i: rows[2][2] as int,
    }
}

/// A rotation of the cube, held as a 3×3 integer matrix. The matrices that
/// stand for the 24 proper rotations are those for which `wf` holds.
#[derive(Clone, Copy, Debug, PartialEq, Eq, Hash)]
pub struct Rotation([[i32; 3]; 3]);

impl View for Rotation {
    type V = Mat3;

    closed spec fn view(&self) -> Mat3 {
        matrix_of(self.0)
    }
}

/// There is an entry of `rotations` whose matrix is `m`.
pub open spec fn holds_matrix(rotations: Seq<Rotation>, m: Mat3) -> bool {
    exists|j: int| 0 <= j < rotations.len() && (#[trigger] rotations[j])@ == m
}

/// No two entries of `rotations` have the same matrix.
pub open spec fn distinct_matrices(rotations: Seq<Rotation>) -> bool {
    forall|j: int, k: int|
        0 <= j < k < rotations.len() ==> (#[trigger] rotations[j])@ != (#[trigger] rotations[k])@
}

/// Every entry of `rotations` is a proper rotation.
pub open spec fn all_proper(rotations: Seq<Rotation>) -> bool {
    forall|j: int| 0 <= j < rotations.len() ==> (#[trigger] rotations[j]).wf()
}

/// `rotations` is the whole rotation group of the cube: 24 entries, each a
/// proper rotation, no matrix twice, and every proper rotation among them.
pub open spec fn is_rotation_group(rotations: Seq<Rotation>) -> bool {
    &&& rotations.len() == 24
    &&& all_proper(rotations)
    &&& distinct_matrices(rotations)
    &&& forall|m: Mat3| is_rotation(m) ==> holds_matrix(rotations, m)
}

impl Rotation {
    /// The matrix is a proper rotation.
    pub open spec fn wf(&self) -> bool {
        is_rotation(self@)
    }

    /// The rotation with the given rows. It is a proper rotation where the
    /// rows make one.
    pub fn from_matrix(matrix: [[i32; 3]; 3]) -> (r: Self)
        ensures
            r@ == matrix_of(matrix),
    {
        Self(matrix)
    }

    /// The rotation that moves nothing.
    pub fn empty() -> (r: Rotation)
        ensures
            r@ == identity(),
            r.wf(),
    {
        proof {
            lemma_identity_neutral(identity(), Point { x: 0, y: 0, z: 0 });
        }
        Self::from_matrix([[1, 0, 0], [0, 1, 0], [0, 0, 1]])
    }

    /// The quarter turn about the x-axis.
    pub fn x90() -> (r: Rotation)
        ensures
            r@ == quarter_x(),
            r.wf(),
    {
        proof {
            lemma_quarter_turns();
        }
        Self::from_matrix([[1, 0, 0], [0, 0, -1], [0, 1, 0]])
    }

    /// The quarter turn about the y-axis.
    pub fn y90() -> (r: Rotation)
        ensures
            r@ == quarter_y(),
            r.wf(),
    {
        proof {
            lemma_quarter_turns();
        }
        Self::from_matrix([[0, 0, 1], [0, 1, 0], [-1, 0, 0]])
    }

    /// The quarter turn about the z-axis.
    pub fn z90() -> (r: Rotation)
        ensures
            r@ == quarter_z(),
            r.wf(),
    {
        proof {
            lemma_quarter_turns();
        }
        Self::from_matrix([[0, -1, 0], [1, 0, 0], [0, 0, 1]])
    }

    /// The matrix product `self · o`: the rotation that turns by `o` first
    /// and by `self` after it.
    pub fn multiply(&self, o: &Rotation) -> (r: Rotation)
        requires
            self.wf(),
            o.wf(),
        ensures
            r@ == mat_mul(self@, o@),
            r.wf(),
    {
        let p = &self.0;
        let q = &o.0;
        proof {
            lemma_rotation_shape(self@);
            lemma_rotation_shape(o@);
            lemma_rotations_closed(self@, o@);
        }
        Rotation(
            [
                [
                    dot(p[0][0], p[0][1], p[0][2], q[0][0], q[1][0], q[2][0]),
                    dot(p[0][0], p[0][1], p[0][2], q[0][1], q[1][1], q[2][1]),
                    dot(p[0][0], p[0][1], p[0][2], q[0][2], q[1][2], q[2][2]),
                ],
                [
                    dot(p[1][0], p[1][1], p[1][2], q[0][0], q[1][0], q[2][0]),
                    dot(p[1][0], p[1][1], p[1][2], q[0][1], q[1][1], q[2][1]),
                    dot(p[1][0], p[1][1], p[1][2], q[0][2], q[1][2], q[2][2]),
                ],
                [
                    dot(p[2][0], p[2][1], p[2][2], q[0][0], q[1][0], q[2][0]),
                    dot(p[2][0], p[2][1], p[2][2], q[0][1], q[1][1], q[2][1]),
                    dot(p[2][0], p[2][1], p[2][2], q[0][2], q[1][2], q[2][2]),
                ],
            ],
        )
    }

    /// The matrix–vector product `self · coord`.
    pub fn rotate(&self, coord: Coordinate) -> (turned: Coordinate)
        requires
            self.wf(),
            coord.x > i32::MIN,
            coord.y > i32::MIN,
            coord.z > i32::MIN,
        ensures
            turned@ == apply(self@, coord@),
    {
        let m = &self.0;
        proof {
            let mm = self@;
            lemma_rotation_shape(mm);
            lemma_signed_product(mm.a, coord.x as int);
            lemma_signed_product(mm.b, coord.y as int);
            lemma_signed_product(mm.c, coord.z as int);
            lemma_signed_product(mm.d, coord.x as int);
            lemma_signed_product(mm.e, coord.y as int);
            lemma_signed_product(mm.f, coord.z as int);
            lemma_signed_product(mm.g, coord.x as int);
            lemma_signed_product(mm.h, coord.y as int);
            lemma_signed_product(mm.i, coord.z as int);
        }
        Coordinate {
            x: m[0][0] * coord.x + m[0][1] * coord.y + m[0][2] * coord.z,
            y: m[1][0] * coord.x + m[1][1] * coord.y + m[1][2] * coord.z,
            z: m[2][0] * coord.x + m[2][1] * coord.y + m[2][2] * coord.z,
        }
    }

    /// Whether the two rotations have the same matrix.
    pub fn same_as(&self, other: &Rotation) -> (same: bool)
        ensures
            same == (self@ == other@),
    {
        let p = &self.0;
        let q = &other.0;
        p[0][0] == q[0][0] && p[0][1] == q[0][1] && p[0][2] == q[0][2] && p[1][0] == q[1][0]
            && p[1][1] == q[1][1] && p[1][2] == q[1][2] && p[2][0] == q[2][0] && p[2][1]
            == q[2][1] && p[2][2] == q[2][2]
    }
}

/// The rotation group is closed under composition: the product of the
/// matrices of any two of its entries is the matrix of one of its entries.
pub proof fn lemma_group_closed(rotations: Seq<Rotation>, j: int, k: int)
    requires
        is_rotation_group(rotations),
        0 <= j < rotations.len(),
        0 <= k < rotations.len(),
    ensures
        holds_matrix(rotations, mat_mul(rotations[j]@, rotations[k]@)),
{
    assert(rotations[j].wf() && rotations[k].wf());
    lemma_rotations_closed(rotations[j]@, rotations[k]@);
}

/// A row of one matrix times a column of another, the entries of both in
/// {-1, 0, 1}.
fn dot(row0: i32, row1: i32, row2: i32, col0: i32, col1: i32, col2: i32) -> (sum: i32)
    requires
        -1 <= row0 <= 1,
        -1 <= row1 <= 1,
        -1 <= row2 <= 1,
        -1 <= col0 <= 1,
        -1 <= col1 <= 1,
        -1 <= col2 <= 1,
    ensures
        sum == row0 * col0 + row1 * col1 + row2 * col2,
{
    proof {
        lemma_signed_product(row0 as int, col0 as int);
        lemma_signed_product(row1 as int, col1 as int);
        lemma_signed_product(row2 as int, col2 as int);
    }
    row0 * col0 + row1 * col1 + row2 * col2
}

/// Whether `rotations` already holds the matrix of `r`.
fn holds_rotation(rotations: &Vec<Rotation>, r: &Rotation) -> (found: bool)
    ensures
        found == holds_matrix(rotations@, r@),
{
    let mut j: usize = 0;
    while j < rotations.len()
        invariant
            j <= rotations.len(),
            forall|k: int| 0 <= k < j ==> (#[trigger] rotations@[k])@ != r@,
        decreases rotations.len() - j,
    {
        if rotations[j].same_as(r) {
            return true;
        }
        j += 1;
    }
    false
}

/// Adds `r` at the end of `rotations` unless its matrix is there already.
fn insert_rotation(rotations: &mut Vec<Rotation>, r: Rotation)
    requires
        r.wf(),
        all_proper(old(rotations)@),
        distinct_matrices(old(rotations)@),
    ensures
        final(rotations)@ == (if holds_matrix(old(rotations)@, r@) {
            old(rotations)@
        } else {
            old(rotations)@.push(r)
        }),
        all_proper(final(rotations)@),
        distinct_matrices(final(rotations)@),
        holds_matrix(final(rotations)@, r@),
        forall|m: Mat3| holds_matrix(old(rotations)@, m) ==> holds_matrix(final(rotations)@, m),
{
    if !holds_rotation(rotations, &r) {
        let ghost before = rotations@;
        rotations.push(r);
        proof {
            assert(rotations@[before.len() as int]@ == r@);
            assert forall|m: Mat3| holds_matrix(before, m) implies holds_matrix(
                rotations@,
                m,
            ) by {
                let j = choose|j: int| 0 <= j < before.len() && (#[trigger] before[j])@ == m;
                assert(rotations@[j]@ == m);
            }
        }
    }
}

/// The 24 proper rotations of the cube: the products of one to four quarter
/// turns about x, about y and about z, each matrix kept once.
pub fn all_rotations() -> (rotations: Vec<Rotation>)
    ensures
        is_rotation_group(rotations@),
{
    let mut all: Vec<Rotation> = Vec::new();
    let gx = Rotation::x90();
    let gy = Rotation::y90();
    let gz = Rotation::z90();

    let mut x = Rotation::empty();
    for a in 0..4u32
        invariant
            gx@ == quarter_x(),
            gy@ == quarter_y(),
            gz@ == quarter_z(),
            x.wf(),
            x@ == mat_pow(quarter_x(), a as int),
            all_proper(all@),
            distinct_matrices(all@),
            forall|i: int, j: int, k: int|
                1 <= i <= a && 1 <= j <= 4 && 1 <= k <= 4 ==> holds_matrix(
                    all@,
                    #[trigger] turns(i, j, k),
                ),
    {
        x = x.multiply(&gx);

        let mut y = Rotation::empty();
        for b in 0..4u32
            invariant
                gy@ == quarter_y(),
                gz@ == quarter_z(),
                x.wf(),
                x@ == mat_pow(quarter_x(), a + 1),
                y.wf(),
                y@ == mat_pow(quarter_y(), b as int),
                all_proper(all@),
                distinct_matrices(all@),
                forall|i: int, j: int, k: int|
                    1 <= k <= 4 && (1 <= i <= a && 1 <= j <= 4 || i == a + 1 && 1 <= j <= b)
                        ==> holds_matrix(all@, #[trigger] turns(i, j, k)),
        {
            y = y.multiply(&gy);

            let mut z = Rotation::empty();
            for c in 0..4u32
                invariant
                    gz@ == quarter_z(),
                    x.wf(),
                    x@ == mat_pow(quarter_x(), a + 1),
                    y.wf(),
                    y@ == mat_pow(quarter_y(), b + 1),
                    z.wf(),
                    z@ == mat_pow(quarter_z(), c as int),
                    all_proper(all@),
                    distinct_matrices(all@),
                    forall|i: int, j: int, k: int|
                        (1 <= k <= 4 && (1 <= i <= a && 1 <= j <= 4 || i == a + 1 && 1 <= j <= b))
                            || (i == a + 1 && j == b + 1 && 1 <= k <= c) ==> holds_matrix(
                            all@,
                            #[trigger] turns(i, j, k),
                        ),
            {
                z = z.multiply(&gz);
                let rotation = x.multiply(&y).multiply(&z);
                assert(rotation@ == turns(a + 1, b + 1, c + 1));
                insert_rotation(&mut all, rotation);
            }
        }
    }
    proof {
        let s = all@.map_values(|r: Rotation| r@);
        assert forall|m: Mat3| is_rotation(m) implies holds_matrix(all@, m) by {
            let n = lemma_rotation_generated(m);
            assert(holds_matrix(all@, turns(n.0, n.1, n.2)));
        }
        assert forall|m: Mat3| is_rotation(m) implies s.contains(m) by {
            let j = choose|j: int| 0 <= j < all@.len() && (#[trigger] all@[j])@ == m;
            assert(s[j] == m);
        }
        assert forall|j: int| 0 <= j < s.len() implies is_rotation(#[trigger] s[j]) by {
            assert(all@[j].wf());
        }
        assert forall|j: int, k: int| 0 <= j < s.len() && 0 <= k < s.len() && j != k implies s[j]
            != s[k] by {
            if j < k {
                assert(all@[j]@ != all@[k]@);
            } else {
                assert(all@[k]@ != all@[j]@);
            }
        }
        lemma_rotation_count(s);
    }
    all
}

} // verus!
