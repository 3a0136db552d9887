//! Integer points and 3×3 integer matrices, and what makes a matrix a proper
//! rotation of the cube: the mathematical side of the geometry kernel.

use vstd::prelude::*;

verus! {

/// A point of the integer lattice.
pub struct Point {
    pub x: int,
    pub y: int,
    pub z: int,
}

impl Point {
    /// The point is one of the 27 cells of the cube centred at the origin.
    pub open spec fn in_cube(self) -> bool {
        &&& -1 <= self.x <= 1
        &&& -1 <= self.y <= 1
        &&& -1 <= self.z <= 1
    }

    /// Component-wise sum.
    pub open spec fn plus(self, other: Point) -> Point {
        Point { x: self.x + other.x, y: self.y + other.y, z: self.z + other.z }
    }
}

/// A 3×3 integer matrix, row by row: `(a b c / d e f / g h i)`.
pub struct Mat3 {
    pub a: int,
    pub b: int,
    pub c: int,
    pub d: int,
    pub e: int,
    pub f: int,
    pub g: int,
    pub h: int,
    pub i: int,
}

/// The matrix product `p · q`.
pub open spec fn mat_mul(p: Mat3, q: Mat3) -> Mat3 {
    Mat3 {
        a: p.a * q.a + p.b * q.d + p.c * q.g,
        b: p.a * q.b + p.b * q.e + p.c * q.h,
        c: p.a * q.c + p.b * q.f + p.c * q.i,
        d: p.d * q.a + p.e * q.d + p.f * q.g,
        e: p.d * q.b + p.e * q.e + p.f * q.h,
        f: p.d * q.c + p.e * q.f + p.f * q.i,
        g: p.g * q.a + p.h * q.d + p.i * q.g,
        h: p.g * q.b + p.h * q.e + p.i * q.h,
        i: p.g * q.c + p.h * q.f + p.i * q.i,
    }
}

/// The matrix–vector product `m · v`.
pub open spec fn apply(m: Mat3, v: Point) -> Point {
    Point {
        x: m.a * v.x + m.b * v.y + m.c * v.z,
        y: m.d * v.x + m.e * v.y + m.f * v.z,
        z: m.g * v.x + m.h * v.y + m.i * v.z,
    }
}

/// The matrix with the rows of `m` as its columns.
pub open spec fn transpose(m: Mat3) -> Mat3 {
    Mat3 { a: m.a, b: m.d, c: m.g, d: m.b, e: m.e, f: m.h, g: m.c, h: m.f, i: m.i }
}

/// The identity matrix.
pub open spec fn identity() -> Mat3 {
    Mat3 { a: 1, b: 0, c: 0, d: 0, e: 1, f: 0, g: 0, h: 0, i: 1 }
}

/// The quarter turn about the x-axis.
pub open spec fn quarter_x() -> Mat3 {
    Mat3 { a: 1, b: 0, c: 0, d: 0, e: 0, f: -1, g: 0, h: 1, i: 0 }
}

/// The quarter turn about the y-axis.
pub open spec fn quarter_y() -> Mat3 {
    Mat3 { a: 0, b: 0, c: 1, d: 0, e: 1, f: 0, g: -1, h: 0, i: 0 }
}

/// The quarter turn about the z-axis.
pub open spec fn quarter_z() -> Mat3 {
    Mat3 { a: 0, b: -1, c: 0, d: 1, e: 0, f: 0, g: 0, h: 0, i: 1 }
}

/// The determinant of `m`.
pub open spec fn det(m: Mat3) -> int {
    m.a * (m.e * m.i - m.f * m.h) - m.b * (m.d * m.i - m.f * m.g) + m.c * (m.d * m.h
        - m.e * m.g)
}

/// `m` is a proper rotation of the cube: an orthonormal integer matrix of
/// determinant +1.
pub open spec fn is_rotation(m: Mat3) -> bool {
    mat_mul(m, transpose(m)) == identity() && det(m) == 1
}

/// Exactly one of the three numbers is not zero, and that one is 1 or -1.
pub open spec fn unit_triple(a: int, b: int, c: int) -> bool {
    ||| (a == 1 || a == -1) && b == 0 && c == 0
    ||| a == 0 && (b == 1 || b == -1) && c == 0
    ||| a == 0 && b == 0 && (c == 1 || c == -1)
}

/// Every row and every column of `m` holds a single entry that is not zero,
/// and that entry is 1 or -1.
pub open spec fn signed_permutation(m: Mat3) -> bool {
    &&& unit_triple(m.a, m.b, m.c)
    &&& unit_triple(m.d, m.e, m.f)
    &&& unit_triple(m.g, m.h, m.i)
    &&& unit_triple(m.a, m.d, m.g)
    &&& unit_triple(m.b, m.e, m.h)
    &&& unit_triple(m.c, m.f, m.i)
}

/// `s · b` for a sign `s` in {-1, 0, 1}, written without a product.
pub open spec fn signed(s: int, b: int) -> int {
    if s == 0 {
        0
    } else if s == 1 {
        b
    } else {
        -b
    }
}

/// The determinant of a signed permutation matrix, written without a product.
pub open spec fn signed_det(m: Mat3) -> int {
    signed(m.a, signed(m.e, m.i) - signed(m.f, m.h)) - signed(
        m.b,
        signed(m.d, m.i) - signed(m.f, m.g),
    ) + signed(m.c, signed(m.d, m.h) - signed(m.e, m.g))
}

/// A product with a factor in {-1, 0, 1} is zero, the other factor, or its
/// negation.
pub proof fn lemma_signed_product(s: int, b: int)
    by (nonlinear_arith)
    requires
        -1 <= s <= 1,
    ensures
        s * b == signed(s, b),
        b * s == signed(s, b),
{
}

proof fn lemma_unit_norm(a: int, b: int, c: int)
    by (nonlinear_arith)
    requires
        a * a + b * b + c * c == 1,
    ensures
        unit_triple(a, b, c),
{
}

proof fn lemma_signed_det(m: Mat3)
    requires
        signed_permutation(m),
    ensures
        det(m) == signed_det(m),
{
    lemma_signed_product(m.e, m.i);
    lemma_signed_product(m.f, m.h);
    lemma_signed_product(m.d, m.i);
    lemma_signed_product(m.f, m.g);
    lemma_signed_product(m.d, m.h);
    lemma_signed_product(m.e, m.g);
    lemma_signed_product(m.a, m.e * m.i - m.f * m.h);
    lemma_signed_product(m.b, m.d * m.i - m.f * m.g);
    lemma_signed_product(m.c, m.d * m.h - m.e * m.g);
}

/// The product of a signed permutation matrix with any matrix, entry by
/// entry, without products.
pub proof fn lemma_signed_mat_mul(p: Mat3, q: Mat3)
    requires
        signed_permutation(p),
    ensures
        mat_mul(p, q) == (Mat3 {
            a: signed(p.a, q.a) + signed(p.b, q.d) + signed(p.c, q.g),
            b: signed(p.a, q.b) + signed(p.b, q.e) + signed(p.c, q.h),
            c: signed(p.a, q.c) + signed(p.b, q.f) + signed(p.c, q.i),
            d: signed(p.d, q.a) + signed(p.e, q.d) + signed(p.f, q.g),
            e: signed(p.d, q.b) + signed(p.e, q.e) + signed(p.f, q.h),
            f: signed(p.d, q.c) + signed(p.e, q.f) + signed(p.f, q.i),
            g: signed(p.g, q.a) + signed(p.h, q.d) + signed(p.i, q.g),
            h: signed(p.g, q.b) + signed(p.h, q.e) + signed(p.i, q.h),
            i: signed(p.g, q.c) + signed(p.h, q.f) + signed(p.i, q.i),
        }),
{
    lemma_signed_product(p.a, q.a);
    lemma_signed_product(p.b, q.d);
    lemma_signed_product(p.c, q.g);
    lemma_signed_product(p.a, q.b);
    lemma_signed_product(p.b, q.e);
    lemma_signed_product(p.c, q.h);
    lemma_signed_product(p.a, q.c);
    lemma_signed_product(p.b, q.f);
    lemma_signed_product(p.c, q.i);
    lemma_signed_product(p.d, q.a);
    lemma_signed_product(p.e, q.d);
    lemma_signed_product(p.f, q.g);
    lemma_signed_product(p.d, q.b);
    lemma_signed_product(p.e, q.e);
    lemma_signed_product(p.f, q.h);
    lemma_signed_product(p.d, q.c);
    lemma_signed_product(p.e, q.f);
    lemma_signed_product(p.f, q.i);
    lemma_signed_product(p.g, q.a);
    lemma_signed_product(p.h, q.d);
    lemma_signed_product(p.i, q.g);
    lemma_signed_product(p.g, q.b);
    lemma_signed_product(p.h, q.e);
    lemma_signed_product(p.i, q.h);
    lemma_signed_product(p.g, q.c);
    lemma_signed_product(p.h, q.f);
    lemma_signed_product(p.i, q.i);
}

/// The image of a point under a signed permutation matrix, without products.
pub proof fn lemma_signed_apply(m: Mat3, v: Point)
    requires
        signed_permutation(m),
    ensures
        apply(m, v) == (Point {
            x: signed(m.a, v.x) + signed(m.b, v.y) + signed(m.c, v.z),
            y: signed(m.d, v.x) + signed(m.e, v.y) + signed(m.f, v.z),
            z: signed(m.g, v.x) + signed(m.h, v.y) + signed(m.i, v.z),
        }),
{
    lemma_signed_product(m.a, v.x);
    lemma_signed_product(m.b, v.y);
    lemma_signed_product(m.c, v.z);
    lemma_signed_product(m.d, v.x);
    lemma_signed_product(m.e, v.y);
    lemma_signed_product(m.f, v.z);
    lemma_signed_product(m.g, v.x);
    lemma_signed_product(m.h, v.y);
    lemma_signed_product(m.i, v.z);
}

/// A proper rotation is a signed permutation matrix of determinant +1, and
/// the converse.
pub proof fn lemma_rotation_shape(m: Mat3)
    ensures
        is_rotation(m) <==> signed_permutation(m) && signed_det(m) == 1,
{
    if is_rotation(m) {
        lemma_unit_norm(m.a, m.b, m.c);
        lemma_unit_norm(m.d, m.e, m.f);
        lemma_unit_norm(m.g, m.h, m.i);
        lemma_signed_product(m.a, m.d);
        lemma_signed_product(m.b, m.e);
        lemma_signed_product(m.c, m.f);
        lemma_signed_product(m.a, m.g);
        lemma_signed_product(m.b, m.h);
        lemma_signed_product(m.c, m.i);
        lemma_signed_product(m.d, m.g);
        lemma_signed_product(m.e, m.h);
        lemma_signed_product(m.f, m.i);
        assert(signed_permutation(m));
        lemma_signed_det(m);
    }
    if signed_permutation(m) && signed_det(m) == 1 {
        lemma_signed_mat_mul(m, transpose(m));
        lemma_signed_det(m);
    }
}

proof fn lemma_distribute(u: int, v: int, w: int, y: int)
    by (nonlinear_arith)
    ensures
        (u + v + w) * y == u * y + v * y + w * y,
        y * (u + v + w) == y * u + y * v + y * w,
{
}

proof fn lemma_associate(x: int, a: int, y: int)
    by (nonlinear_arith)
    ensures
        (x * a) * y == x * (a * y),
{
}

/// A row times a matrix times a column, bracketed either way.
proof fn lemma_row_matrix_column(
    x1: int,
    x2: int,
    x3: int,
    m: Mat3,
    y1: int,
    y2: int,
    y3: int,
)
    ensures
        (x1 * m.a + x2 * m.d + x3 * m.g) * y1 + (x1 * m.b + x2 * m.e + x3 * m.h) * y2 + (x1
            * m.c + x2 * m.f + x3 * m.i) * y3 == x1 * (m.a * y1 + m.b * y2 + m.c * y3) + x2 * (
        m.d * y1 + m.e * y2 + m.f * y3) + x3 * (m.g * y1 + m.h * y2 + m.i * y3),
{
    lemma_distribute(x1 * m.a, x2 * m.d, x3 * m.g, y1);
    lemma_distribute(x1 * m.b, x2 * m.e, x3 * m.h, y2);
    lemma_distribute(x1 * m.c, x2 * m.f, x3 * m.i, y3);
    lemma_distribute(m.a * y1, m.b * y2, m.c * y3, x1);
    lemma_distribute(m.d * y1, m.e * y2, m.f * y3, x2);
    lemma_distribute(m.g * y1, m.h * y2, m.i * y3, x3);
    lemma_associate(x1, m.a, y1);
    lemma_associate(x2, m.d, y1);
    lemma_associate(x3, m.g, y1);
    lemma_associate(x1, m.b, y2);
    lemma_associate(x2, m.e, y2);
    lemma_associate(x3, m.h, y2);
    lemma_associate(x1, m.c, y3);
    lemma_associate(x2, m.f, y3);
    lemma_associate(x3, m.i, y3);
}

/// Matrix multiplication is associative.
pub proof fn lemma_mat_mul_associative(p: Mat3, q: Mat3, r: Mat3)
    ensures
        mat_mul(mat_mul(p, q), r) == mat_mul(p, mat_mul(q, r)),
{
    lemma_row_matrix_column(p.a, p.b, p.c, q, r.a, r.d, r.g);
    lemma_row_matrix_column(p.a, p.b, p.c, q, r.b, r.e, r.h);
    lemma_row_matrix_column(p.a, p.b, p.c, q, r.c, r.f, r.i);
    lemma_row_matrix_column(p.d, p.e, p.f, q, r.a, r.d, r.g);
    lemma_row_matrix_column(p.d, p.e, p.f, q, r.b, r.e, r.h);
    lemma_row_matrix_column(p.d, p.e, p.f, q, r.c, r.f, r.i);
    lemma_row_matrix_column(p.g, p.h, p.i, q, r.a, r.d, r.g);
    lemma_row_matrix_column(p.g, p.h, p.i, q, r.b, r.e, r.h);
    lemma_row_matrix_column(p.g, p.h, p.i, q, r.c, r.f, r.i);
}

/// Applying a product is applying its factors in turn, the right one first.
pub proof fn lemma_apply_product(p: Mat3, q: Mat3, v: Point)
    ensures
        apply(mat_mul(p, q), v) == apply(p, apply(q, v)),
{
    lemma_row_matrix_column(p.a, p.b, p.c, q, v.x, v.y, v.z);
    lemma_row_matrix_column(p.d, p.e, p.f, q, v.x, v.y, v.z);
    lemma_row_matrix_column(p.g, p.h, p.i, q, v.x, v.y, v.z);
}

/// The identity matrix is neutral for the product and leaves every point
/// where it is.
pub proof fn lemma_identity_neutral(p: Mat3, v: Point)
    ensures
        mat_mul(p, identity()) == p,
        mat_mul(identity(), p) == p,
        apply(identity(), v) == v,
        is_rotation(identity()),
{
}

/// A proper rotation maps the cube onto itself.
pub proof fn lemma_rotation_keeps_cube(m: Mat3, v: Point)
    requires
        is_rotation(m),
        v.in_cube(),
    ensures
        apply(m, v).in_cube(),
{
    lemma_rotation_shape(m);
    lemma_signed_apply(m, v);
}

/// The transpose of a proper rotation is a proper rotation, and it is the
/// inverse on both sides.
pub proof fn lemma_transpose_inverts(m: Mat3)
    requires
        is_rotation(m),
    ensures
        is_rotation(transpose(m)),
        mat_mul(transpose(m), m) == identity(),
        mat_mul(m, transpose(m)) == identity(),
{
    lemma_rotation_shape(m);
    let t = transpose(m);
    assert(signed_permutation(t));
    assert(signed_det(t) == 1);
    lemma_rotation_shape(t);
    lemma_signed_mat_mul(t, m);
}

/// The three quarter turns are proper rotations.
pub proof fn lemma_quarter_turns()
    ensures
        is_rotation(quarter_x()),
        is_rotation(quarter_y()),
        is_rotation(quarter_z()),
{
}

/// A quarter turn times a proper rotation is a proper rotation.
proof fn lemma_quarter_step(g: Mat3, q: Mat3)
    requires
        g == quarter_x() || g == quarter_y() || g == quarter_z(),
        is_rotation(q),
    ensures
        is_rotation(mat_mul(g, q)),
{
    lemma_rotation_shape(q);
    let r = mat_mul(g, q);
    assert(signed_permutation(r));
    assert(signed_det(r) == 1);
    lemma_rotation_shape(r);
}

/// `g` multiplied by itself `n` times; the identity for `n <= 0`.
pub open spec fn mat_pow(g: Mat3, n: int) -> Mat3
    decreases n,
{
    if n <= 0 {
        identity()
    } else {
        mat_mul(mat_pow(g, n - 1), g)
    }
}

/// The product `gx^a · gy^b · gz^c` of powers of the three quarter turns.
pub open spec fn turns(a: int, b: int, c: int) -> Mat3 {
    mat_mul(mat_mul(mat_pow(quarter_x(), a), mat_pow(quarter_y(), b)), mat_pow(quarter_z(), c))
}

proof fn lemma_pow_step(g: Mat3, n: int, q: Mat3)
    requires
        g == quarter_x() || g == quarter_y() || g == quarter_z(),
        is_rotation(q),
        0 <= n,
    ensures
        is_rotation(mat_mul(mat_pow(g, n), q)),
    decreases n,
{
    if n == 0 {
        lemma_identity_neutral(q, Point { x: 0, y: 0, z: 0 });
    } else {
        lemma_quarter_step(g, q);
        lemma_pow_step(g, n - 1, mat_mul(g, q));
        lemma_mat_mul_associative(mat_pow(g, n - 1), g, q);
    }
}

/// Every product of powers of the quarter turns, times a proper rotation, is
/// a proper rotation.
pub proof fn lemma_turns_step(a: int, b: int, c: int, q: Mat3)
    requires
        is_rotation(q),
        0 <= a,
        0 <= b,
        0 <= c,
    ensures
        is_rotation(mat_mul(turns(a, b, c), q)),
{
    let x = mat_pow(quarter_x(), a);
    let y = mat_pow(quarter_y(), b);
    let z = mat_pow(quarter_z(), c);
    lemma_pow_step(quarter_z(), c, q);
    lemma_pow_step(quarter_y(), b, mat_mul(z, q));
    lemma_pow_step(quarter_x(), a, mat_mul(y, mat_mul(z, q)));
    lemma_mat_mul_associative(mat_mul(x, y), z, q);
    lemma_mat_mul_associative(x, y, mat_mul(z, q));
}

} // verus!
