//! The proper rotations of the cube as a group: there are 24 of them, they
//! are closed under the product, and the three quarter turns generate them.

use vstd::prelude::*;
use crate::matrix::{
    identity, is_rotation, lemma_identity_neutral, lemma_rotation_shape, lemma_turns_step,
    mat_mul, mat_pow, quarter_x, quarter_y, quarter_z, signed_det, signed_permutation, turns,
    Mat3, Point,
};

verus! {

/// The column that holds the entry of row `r` in the `p`-th of the six
/// permutations of three columns; the first three are the even ones.
pub open spec fn permuted_column(p: int, r: int) -> int {
    if p == 0 {
        r
    } else if p == 1 {
        (r + 1) % 3
    } else if p == 2 {
        (r + 2) % 3
    } else if p == 3 {
        (3 - r) % 3
    } else if p == 4 {
        2 - r
    } else {
        (4 - r) % 3
    }
}

/// The matrix with `s0`, `s1`, `s2` in rows 0, 1, 2, each in the column that
/// the `p`-th permutation gives its row, and zero elsewhere.
pub open spec fn signed_permutation_matrix(p: int, s0: int, s1: int, s2: int) -> Mat3 {
    let c0 = permuted_column(p, 0);
    let c1 = permuted_column(p, 1);
    let c2 = permuted_column(p, 2);
    Mat3 {
        a: if c0 == 0 { s0 } else { 0 },
        b: if c0 == 1 { s0 } else { 0 },
        c: if c0 == 2 { s0 } else { 0 },
        d: if c1 == 0 { s1 } else { 0 },
        e: if c1 == 1 { s1 } else { 0 },
        f: if c1 == 2 { s1 } else { 0 },
        g: if c2 == 0 { s2 } else { 0 },
        h: if c2 == 1 { s2 } else { 0 },
        i: if c2 == 2 { s2 } else { 0 },
    }
}

/// The `k`-th proper rotation, for `k` in `0..24`: the permutation is
/// `k / 4`, the signs of the first two rows are the two low bits of `k`, and
/// the sign of the third row makes the determinant +1.
pub open spec fn nth_rotation(k: int) -> Mat3 {
    let p = k / 4;
    let s0: int = if k % 4 < 2 { 1 } else { -1 };
    let s1: int = if k % 2 == 0 { 1 } else { -1 };
    let s2: int = if (p < 3) == (s0 == s1) { 1 } else { -1 };
    signed_permutation_matrix(p, s0, s1, s2)
}

/// The `k` for which `m` is the `k`-th proper rotation.
pub open spec fn rotation_rank(m: Mat3) -> int {
    let p: int = if m.a != 0 {
        if m.e != 0 { 0 } else { 3 }
    } else if m.b != 0 {
        if m.f != 0 { 1 } else { 5 }
    } else {
        if m.d != 0 { 2 } else { 4 }
    };
    let b0: int = if m.a + m.b + m.c < 0 { 2 } else { 0 };
    let b1: int = if m.d + m.e + m.f < 0 { 1 } else { 0 };
    4 * p + b0 + b1
}

/// The proper rotations are exactly the 24 matrices `nth_rotation(k)`, and
/// `rotation_rank` numbers them.
pub proof fn lemma_rotations_enumerated(m: Mat3, k: int)
    ensures
        is_rotation(m) ==> 0 <= rotation_rank(m) < 24 && nth_rotation(rotation_rank(m)) == m,
        0 <= k < 24 ==> is_rotation(nth_rotation(k)) && rotation_rank(nth_rotation(k)) == k,
{
    lemma_rotation_shape(m);
    if 0 <= k < 24 {
        let n = nth_rotation(k);
        lemma_rotation_shape(n);
        assert(signed_permutation(n));
        assert(signed_det(n) == 1);
    }
}

/// How many quarter turns about x, y and z make the `k`-th proper rotation.
spec fn turn_counts(k: int) -> (int, int, int) {
    if k == 0 {
        (2, 2, 2)
    } else if k == 1 {
        (2, 4, 4)
    } else if k == 2 {
        (2, 4, 2)
    } else if k == 3 {
        (2, 2, 4)
    } else if k == 4 {
        (1, 2, 1)
    } else if k == 5 {
        (1, 4, 3)
    } else if k == 6 {
        (1, 2, 3)
    } else if k == 7 {
        (1, 4, 1)
    } else if k == 8 {
        (1, 1, 4)
    } else if k == 9 {
        (1, 1, 2)
    } else if k == 10 {
        (1, 3, 2)
    } else if k == 11 {
        (1, 3, 4)
    } else if k == 12 {
        (1, 2, 2)
    } else if k == 13 {
        (1, 4, 4)
    } else if k == 14 {
        (1, 2, 4)
    } else if k == 15 {
        (1, 4, 2)
    } else if k == 16 {
        (1, 1, 3)
    } else if k == 17 {
        (1, 1, 1)
    } else if k == 18 {
        (1, 3, 1)
    } else if k == 19 {
        (1, 3, 3)
    } else if k == 20 {
        (2, 4, 3)
    } else if k == 21 {
        (2, 2, 1)
    } else if k == 22 {
        (2, 2, 3)
    } else {
        (2, 4, 1)
    }
}

proof fn lemma_pow_unfold(g: Mat3)
    ensures
        mat_pow(g, 1) == g,
        mat_pow(g, 2) == mat_mul(g, g),
        mat_pow(g, 3) == mat_mul(mat_mul(g, g), g),
        mat_pow(g, 4) == mat_mul(mat_mul(mat_mul(g, g), g), g),
{
    assert(mat_pow(g, 0) == identity());
    lemma_identity_neutral(g, Point { x: 0, y: 0, z: 0 });
    assert(mat_pow(g, 1) == mat_mul(mat_pow(g, 0), g));
    assert(mat_pow(g, 2) == mat_mul(mat_pow(g, 1), g));
    assert(mat_pow(g, 3) == mat_mul(mat_pow(g, 2), g));
    assert(mat_pow(g, 4) == mat_mul(mat_pow(g, 3), g));
}

proof fn lemma_quarter_powers()
    ensures
        mat_pow(quarter_x(), 1) == quarter_x(),
        mat_pow(quarter_x(), 2) == (Mat3 {
            a: 1,
            b: 0,
            c: 0,
            d: 0,
            e: -1,
            f: 0,
            g: 0,
            h: 0,
            i: -1,
        }),
        mat_pow(quarter_x(), 3) == (Mat3 {
            a: 1,
            b: 0,
            c: 0,
            d: 0,
            e: 0,
            f: 1,
            g: 0,
            h: -1,
            i: 0,
        }),
        mat_pow(quarter_x(), 4) == identity(),
        mat_pow(quarter_y(), 1) == quarter_y(),
        mat_pow(quarter_y(), 2) == (Mat3 {
            a: -1,
            b: 0,
            c: 0,
            d: 0,
            e: 1,
            f: 0,
            g: 0,
            h: 0,
            i: -1,
        }),
        mat_pow(quarter_y(), 3) == (Mat3 {
            a: 0,
            b: 0,
            c: -1,
            d: 0,
            e: 1,
            f: 0,
            g: 1,
            h: 0,
            i: 0,
        }),
        mat_pow(quarter_y(), 4) == identity(),
        mat_pow(quarter_z(), 1) == quarter_z(),
        mat_pow(quarter_z(), 2) == (Mat3 {
            a: -1,
            b: 0,
            c: 0,
            d: 0,
            e: -1,
            f: 0,
            g: 0,
            h: 0,
            i: 1,
        }),
        mat_pow(quarter_z(), 3) == (Mat3 {
            a: 0,
            b: 1,
            c: 0,
            d: -1,
            e: 0,
            f: 0,
            g: 0,
            h: 0,
            i: 1,
        }),
        mat_pow(quarter_z(), 4) == identity(),
{
    lemma_pow_unfold(quarter_x());
    lemma_pow_unfold(quarter_y());
    lemma_pow_unfold(quarter_z());
}

proof fn lemma_turn_counts(k: int)
    requires
        0 <= k < 24,
    ensures
        1 <= turn_counts(k).0 <= 4,
        1 <= turn_counts(k).1 <= 4,
        1 <= turn_counts(k).2 <= 4,
        nth_rotation(k) == turns(turn_counts(k).0, turn_counts(k).1, turn_counts(k).2),
{
    lemma_quarter_powers();
}

/// Each proper rotation is a product `gx^a · gy^b · gz^c` of one to four
/// quarter turns about each axis.
pub proof fn lemma_rotation_generated(m: Mat3) -> (n: (int, int, int))
    requires
        is_rotation(m),
    ensures
        1 <= n.0 <= 4,
        1 <= n.1 <= 4,
        1 <= n.2 <= 4,
        m == turns(n.0, n.1, n.2),
{
    lemma_rotations_enumerated(m, 0);
    lemma_turn_counts(rotation_rank(m));
    turn_counts(rotation_rank(m))
}

/// The proper rotations are closed under the product.
pub proof fn lemma_rotations_closed(p: Mat3, q: Mat3)
    requires
        is_rotation(p),
        is_rotation(q),
    ensures
        is_rotation(mat_mul(p, q)),
{
    let n = lemma_rotation_generated(p);
    lemma_turns_step(n.0, n.1, n.2, q);
}

/// A sequence that holds every proper rotation once, and nothing else, has
/// 24 entries.
pub proof fn lemma_rotation_count(s: Seq<Mat3>)
    requires
        s.no_duplicates(),
        forall|j: int| 0 <= j < s.len() ==> is_rotation(#[trigger] s[j]),
        forall|m: Mat3| is_rotation(m) ==> s.contains(m),
    ensures
        s.len() == 24,
{
    let t = Seq::new(24, |k: int| nth_rotation(k));
    assert forall|i: int, j: int| 0 <= i < t.len() && 0 <= j < t.len() && i != j implies t[i]
        != t[j] by {
        lemma_rotations_enumerated(t[i], i);
        lemma_rotations_enumerated(t[j], j);
    }
    assert forall|m: Mat3| #[trigger] t.to_set().contains(m) <==> s.to_set().contains(m) by {
        if t.contains(m) {
            let k = choose|k: int| 0 <= k < t.len() && t[k] == m;
            lemma_rotations_enumerated(m, k);
        }
        if s.contains(m) {
            lemma_rotations_enumerated(m, 0);
            assert(t[rotation_rank(m)] == m);
        }
    }
    assert(t.to_set() =~= s.to_set());
    t.unique_seq_to_set();
    s.unique_seq_to_set();
}

} // verus!
